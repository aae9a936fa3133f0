//! Figures that the tools print about what they read and built.

use vstd::prelude::*;
use crate::merge::{MergedServer, total_connections};
use crate::model::{ConnectionsFile, FileView, GraphNode, NodeView, file_views, node_views};

verus! {

/// The total number of connection records in the files, if it fits in a
/// `usize` (every tool that merges files needs it to).
pub fn connection_total(files: &Vec<ConnectionsFile>) -> (r: Option<usize>)
    ensures
        match r {
            Some(n) => n == total_connections(file_views(files@)),
            None => total_connections(file_views(files@)) > usize::MAX,
        },
{
    let ghost fs = file_views(files@);
    let mut total: usize = 0;
    let mut i: usize = 0;
    assert(fs.take(0) =~= Seq::<FileView>::empty());
    while i < files.len()
        invariant
            i <= files@.len(),
            fs == file_views(files@),
            total == total_connections(fs.take(i as int)),
        decreases files@.len() - i,
    {
        assert(fs.take(i + 1).drop_last() =~= fs.take(i as int));
        assert(fs[i as int] == files@[i as int]@);
        let n = files[i].connections.len();
        assert(fs[i as int].connections.len() == n);
        if total > usize::MAX - n {
            proof {
                lemma_total_connections_monotonic(fs, i + 1);
            }
            return None;
        }
        total = total + n;
        i = i + 1;
    }
    assert(fs.take(i as int) =~= fs);
    Some(total)
}

proof fn lemma_total_connections_monotonic(fs: Seq<FileView>, i: int)
    requires
        0 <= i <= fs.len(),
    ensures
        total_connections(fs.take(i)) <= total_connections(fs),
    decreases fs.len() - i,
{
    if i < fs.len() {
        lemma_total_connections_monotonic(fs, i + 1);
        assert(fs.take(i + 1).drop_last() =~= fs.take(i));
    } else {
        assert(fs.take(i) =~= fs);
    }
}

/// The number of external nodes.
pub open spec fn external_count(ns: Seq<NodeView>) -> nat
    decreases ns.len(),
{
    if ns.len() == 0 {
        0
    } else {
        external_count(ns.drop_last()) + if ns.last().is_external {
            1nat
        } else {
            0nat
        }
    }
}

/// Counts the external nodes.
pub fn count_external_nodes(nodes: &Vec<GraphNode>) -> (n: usize)
    ensures
        n == external_count(node_views(nodes@)),
        n <= nodes@.len(),
{
    let ghost ns = node_views(nodes@);
    let mut n: usize = 0;
    let mut i: usize = 0;
    while i < nodes.len()
        invariant
            i <= nodes@.len(),
            ns == node_views(nodes@),
            n == external_count(ns.take(i as int)),
            n <= i,
        decreases nodes@.len() - i,
    {
        assert(ns.take(i + 1).drop_last() =~= ns.take(i as int));
        assert(ns[i as int] == nodes@[i as int]@);
        if nodes[i].is_external {
            n = n + 1;
        }
        i = i + 1;
    }
    assert(ns.take(i as int) =~= ns);
    n
}

/// The hostnames into which more than one file was merged, with the number
/// of files, in server order.
pub fn merged_hosts(servers: &Vec<MergedServer>) -> (out: Vec<(String, usize)>)
    ensures
        out@.map_values(|p: (String, usize)| (p.0@, p.1)) == servers@.filter(
            |s: MergedServer| s.snapshot_count > 1,
        ).map_values(|s: MergedServer| (s.hostname@, s.snapshot_count)),
{
    let ghost pick = |s: MergedServer| s.snapshot_count > 1;
    let ghost f = |s: MergedServer| (s.hostname@, s.snapshot_count);
    let ghost g = |p: (String, usize)| (p.0@, p.1);
    let mut out: Vec<(String, usize)> = Vec::new();
    let mut i: usize = 0;
    assert(servers@.take(0).filter(pick) =~= Seq::empty()) by {
        reveal(Seq::filter);
    }
    while i < servers.len()
        invariant
            i <= servers@.len(),
            pick == (|s: MergedServer| s.snapshot_count > 1),
            f == (|s: MergedServer| (s.hostname@, s.snapshot_count)),
            g == (|p: (String, usize)| (p.0@, p.1)),
            out@.map_values(g) == servers@.take(i as int).filter(pick).map_values(f),
        decreases servers@.len() - i,
    {
        let s = &servers[i];
        assert(servers@.take(i + 1).drop_last() =~= servers@.take(i as int));
        proof {
            reveal(Seq::filter);
        }
        let ghost before = out@;
        if s.snapshot_count > 1 {
            out.push((s.hostname.clone(), s.snapshot_count));
            assert(out@.map_values(g) =~= before.map_values(g).push(f(*s)));
            assert(servers@.take(i + 1).filter(pick) == servers@.take(i as int).filter(pick).push(
                *s,
            ));
            assert(servers@.take(i + 1).filter(pick).map_values(f) =~= servers@.take(i as int).filter(
                pick,
            ).map_values(f).push(f(*s)));
        } else {
            assert(servers@.take(i + 1).filter(pick) == servers@.take(i as int).filter(pick));
        }
        i = i + 1;
    }
    assert(servers@.take(i as int) =~= servers@);
    out
}

} // verus!
