//! Building the graph: one node per captured host, one per external address,
//! and the edges between them; optionally trimming external nodes that only
//! one edge reaches.

use vstd::prelude::*;
use crate::edges::{
    Record, add_record, classify_target, edges_sum_up, lemma_records_push, records_of,
    records_total, server_records,
};
use crate::ipmap::{AddressBook, IpMap, address_book, build_ip_map};
use crate::merge::{
    MergedModel, MergedServer, merge_servers, merged_models, merged_views, total_appearances,
    total_connections,
};
use crate::model::{
    ConnectionsFile, Graph, GraphNode, GraphView, NodeView, edge_views, file_views, node_views,
};
use crate::laws::{law_connection_count_total, total_edge_count};
use crate::trim::{kept_edges, kept_nodes, trim_external};
use crate::order::{str_views, strictly_sorted};
use crate::seqs::{distinct_in_order, lemma_distinct_contents, lemma_distinct_push, sum_nat};

verus! {

/// The addresses of the connections that lead to external nodes, in order,
/// repeats included.
pub open spec fn external_targets(rs: Seq<Record>) -> Seq<Seq<char>>
    decreases rs.len(),
{
    if rs.len() == 0 {
        Seq::empty()
    } else {
        external_targets(rs.drop_last()) + if rs.last().is_external {
            seq![rs.last().target]
        } else {
            Seq::empty()
        }
    }
}

/// The external addresses, each once, in order of first appearance.
pub open spec fn external_ids(rs: Seq<Record>) -> Seq<Seq<char>> {
    distinct_in_order(external_targets(rs))
}

/// The node of an external address: named by the address, which is its only
/// address.
pub open spec fn external_node(ip: Seq<char>) -> NodeView {
    NodeView {
        id: ip,
        hostname: ip,
        ips: seq![ip],
        loopbacks: Seq::empty(),
        is_external: true,
        snapshot_count: 0,
    }
}

/// The nodes of a sequence of external addresses.
pub open spec fn external_nodes(ids: Seq<Seq<char>>) -> Seq<NodeView> {
    ids.map_values(|ip: Seq<char>| external_node(ip))
}

/// The node of a captured host: named by its hostname, with its addresses and
/// loopback addresses sorted, and the number of files merged into it.
pub open spec fn internal_node_of(n: NodeView, m: MergedModel) -> bool {
    &&& n.id == m.hostname
    &&& n.hostname == m.hostname
    &&& strictly_sorted(n.ips)
    &&& n.ips.to_set() == m.ips
    &&& strictly_sorted(n.loopbacks)
    &&& n.loopbacks.to_set() == m.loopbacks
    &&& !n.is_external
    &&& n.snapshot_count == m.snapshot_count
}

proof fn lemma_external_targets_push(rs: Seq<Record>, r: Record)
    ensures
        external_targets(rs.push(r)) == if r.is_external {
            external_targets(rs).push(r.target)
        } else {
            external_targets(rs)
        },
{
    assert(rs.push(r).drop_last() =~= rs);
    if r.is_external {
        assert(external_targets(rs) + seq![r.target] =~= external_targets(rs).push(r.target));
    } else {
        assert(external_targets(rs) + Seq::<Seq<char>>::empty() =~= external_targets(rs));
    }
}

/// Adds the node of external address `ip` unless it is there already.
fn add_external(nodes: &mut Vec<GraphNode>, ip: &String, Ghost(ts): Ghost<Seq<Seq<char>>>)
    requires
        node_views(old(nodes)@) == external_nodes(distinct_in_order(ts)),
    ensures
        node_views(final(nodes)@) == external_nodes(distinct_in_order(ts.push(ip@))),
{
    let ghost d = distinct_in_order(ts);
    proof {
        lemma_distinct_contents(ts);
        lemma_distinct_push(ts, ip@);
    }
    assert(node_views(nodes@).len() == d.len());
    let mut i: usize = 0;
    while i < nodes.len()
        invariant
            i <= nodes@.len(),
            nodes@.len() == d.len(),
            d == distinct_in_order(ts),
            node_views(nodes@) == external_nodes(d),
            forall|m: int| 0 <= m < i ==> #[trigger] d[m] != ip@,
        decreases nodes@.len() - i,
    {
        assert(node_views(nodes@)[i as int] == nodes@[i as int]@);
        assert(external_nodes(d)[i as int] == external_node(d[i as int]));
        if nodes[i].id == *ip {
            assert(d.contains(ip@));
            proof {
                lemma_distinct_contents(ts);
                lemma_distinct_push(ts, ip@);
            }
            return;
        }
        i = i + 1;
    }
    assert(!d.contains(ip@));
    let mut ips: Vec<String> = Vec::new();
    ips.push(ip.clone());
    let node = GraphNode {
        id: ip.clone(),
        hostname: ip.clone(),
        ips: ips,
        loopbacks: Vec::new(),
        is_external: true,
        snapshot_count: 0,
    };
    let ghost before = nodes@;
    nodes.push(node);
    assert(str_views(node.ips@) =~= seq![ip@]);
    assert(str_views(node.loopbacks@) =~= Seq::<Seq<char>>::empty());
    assert(node@ == external_node(ip@));
    assert(node_views(nodes@) =~= node_views(before).push(node@));
    assert(node_views(nodes@) =~= external_nodes(d.push(ip@)));
}

proof fn lemma_total_prefix(ms: Seq<MergedModel>, k: int)
    requires
        0 <= k < ms.len(),
    ensures
        total_appearances(ms.take(k + 1)) == total_appearances(ms.take(k)) + sum_nat(
            ms[k].appearances,
        ),
        total_appearances(ms.take(k + 1)) <= total_appearances(ms),
    decreases ms.len() - k,
{
    assert(ms.take(k + 1).drop_last() =~= ms.take(k));
    if k + 1 < ms.len() {
        lemma_total_prefix(ms, k + 1);
    } else {
        assert(ms.take(k + 1) =~= ms);
    }
}

proof fn lemma_sum_prefix(s: Seq<nat>, j: int)
    requires
        0 <= j < s.len(),
    ensures
        sum_nat(s.take(j + 1)) == sum_nat(s.take(j)) + s[j],
        sum_nat(s.take(j + 1)) <= sum_nat(s),
    decreases s.len() - j,
{
    assert(s.take(j + 1).drop_last() =~= s.take(j));
    if j + 1 < s.len() {
        lemma_sum_prefix(s, j + 1);
    } else {
        assert(s.take(j + 1) =~= s);
    }
}

proof fn lemma_records_of_step(ms: Seq<MergedModel>, k: int, owners: AddressBook)
    requires
        0 <= k < ms.len(),
    ensures
        records_of(ms.take(k + 1), owners) == records_of(ms.take(k), owners) + server_records(
            ms[k],
            owners,
        ),
{
    assert(ms.take(k + 1).drop_last() =~= ms.take(k));
}

/// Builds the edges of the graph and its external nodes. Every connection of
/// every server is classified (see `classify_target`); connections with the
/// same source and target make one edge whose ports are their distinct
/// ports, sorted, whose count is the sum of their appearances, and whose
/// flags are those of the first of them. Edges come sorted by source, then
/// target. An address that leads to an external node gives one node, in order
/// of first appearance.
pub fn build_edges(servers: &Vec<MergedServer>, ip_map: &IpMap) -> (out: (
    Vec<crate::model::GraphEdge>,
    Vec<GraphNode>,
))
    requires
        forall|k: int| 0 <= k < servers@.len() ==> (#[trigger] servers@[k]).wf(),
        total_appearances(merged_views(servers@)) <= usize::MAX,
    ensures
        edges_sum_up(edge_views(out.0@), records_of(merged_views(servers@), ip_map@)),
        node_views(out.1@) == external_nodes(
            external_ids(records_of(merged_views(servers@), ip_map@)),
        ),
{
    let ghost ms = merged_views(servers@);
    let ghost owners = ip_map@;
    let mut edges: Vec<crate::model::GraphEdge> = Vec::new();
    let mut exts: Vec<GraphNode> = Vec::new();
    let mut k: usize = 0;
    assert(ms.take(0) =~= Seq::<MergedModel>::empty());
    assert(edge_views(edges@) =~= Seq::empty());
    assert(node_views(exts@) =~= Seq::empty());
    assert(external_nodes(external_ids(records_of(ms.take(0), owners))) =~= Seq::empty());
    while k < servers.len()
        invariant
            k <= servers@.len(),
            ms == merged_views(servers@),
            owners == ip_map@,
            forall|m: int| 0 <= m < servers@.len() ==> (#[trigger] servers@[m]).wf(),
            total_appearances(ms) <= usize::MAX,
            edges_sum_up(edge_views(edges@), records_of(ms.take(k as int), owners)),
            node_views(exts@) == external_nodes(external_ids(records_of(ms.take(k as int), owners))),
            records_total(records_of(ms.take(k as int), owners)) == total_appearances(ms.take(k as int)),
        decreases servers@.len() - k,
    {
        let s = &servers[k];
        let ghost m = ms[k as int];
        let ghost base = records_of(ms.take(k as int), owners);
        let ghost sr = server_records(m, owners);
        assert(m == s@);
        proof {
            lemma_total_prefix(ms, k as int);
        }
        let mut j: usize = 0;
        assert(base + sr.take(0) =~= base);
        assert(m.appearances.take(0) =~= Seq::<nat>::empty());
        while j < s.connections.len()
            invariant
                j <= s.connections@.len(),
                s.wf(),
                m == s@,
                owners == ip_map@,
                sr == server_records(m, owners),
                total_appearances(ms.take(k as int)) + sum_nat(m.appearances) <= usize::MAX,
                edges_sum_up(edge_views(edges@), base + sr.take(j as int)),
                node_views(exts@) == external_nodes(external_ids(base + sr.take(j as int))),
                records_total(base + sr.take(j as int)) == total_appearances(ms.take(k as int))
                    + sum_nat(m.appearances.take(j as int)),
            decreases s.connections@.len() - j,
        {
            let c = &s.connections[j];
            let a = s.appearances[j];
            let t = classify_target(&s.hostname, &c.remote_ip, ip_map);
            let ghost r = Record {
                source: s.hostname@,
                target: t.id@,
                is_external: t.is_external,
                is_self_loop: t.is_self_loop,
                port: c.remote_port,
                appearances: a as nat,
            };
            assert(m.connections[j as int] == c@);
            assert(m.appearances[j as int] == a as nat);
            assert(r == sr[j as int]);
            let ghost done = base + sr.take(j as int);
            assert(base + sr.take(j + 1) =~= done.push(r));
            proof {
                lemma_sum_prefix(m.appearances, j as int);
                lemma_records_push(done, r, (r.source, r.target));
                lemma_external_targets_push(done, r);
            }
            add_record(&mut edges, &s.hostname, &t, c.remote_port, a, Ghost(done));
            if t.is_external {
                add_external(&mut exts, &t.id, Ghost(external_targets(done)));
            }
            j = j + 1;
        }
        proof {
            assert(sr.take(j as int) =~= sr);
            assert(m.appearances.take(j as int) =~= m.appearances);
            lemma_records_of_step(ms, k as int, owners);
        }
        k = k + 1;
    }
    assert(ms.take(k as int) =~= ms);
    (edges, exts)
}

/// A copy of a list of strings.
pub fn clone_strings(v: &Vec<String>) -> (out: Vec<String>)
    ensures
        str_views(out@) == str_views(v@),
{
    let mut out: Vec<String> = Vec::new();
    let mut i: usize = 0;
    while i < v.len()
        invariant
            i <= v@.len(),
            str_views(out@) == str_views(v@.take(i as int)),
        decreases v@.len() - i,
    {
        out.push(v[i].clone());
        assert(str_views(v@.take(i + 1)) =~= str_views(v@.take(i as int)).push(v@[i as int]@));
        assert(str_views(out@) =~= str_views(v@.take(i + 1)));
        i = i + 1;
    }
    assert(v@.take(i as int) =~= v@);
    out
}

/// One node per merged server, in server order.
pub fn internal_nodes(servers: &Vec<MergedServer>) -> (nodes: Vec<GraphNode>)
    requires
        forall|k: int| 0 <= k < servers@.len() ==> (#[trigger] servers@[k]).wf(),
    ensures
        nodes@.len() == servers@.len(),
        forall|k: int|
            0 <= k < servers@.len() ==> internal_node_of(#[trigger] nodes@[k]@, servers@[k]@),
{
    let mut nodes: Vec<GraphNode> = Vec::new();
    let mut k: usize = 0;
    while k < servers.len()
        invariant
            k <= servers@.len(),
            forall|m: int| 0 <= m < servers@.len() ==> (#[trigger] servers@[m]).wf(),
            nodes@.len() == k,
            forall|m: int| 0 <= m < k ==> internal_node_of(#[trigger] nodes@[m]@, servers@[m]@),
        decreases servers@.len() - k,
    {
        let s = &servers[k];
        assert(s.wf());
        let node = GraphNode {
            id: s.hostname.clone(),
            hostname: s.hostname.clone(),
            ips: clone_strings(&s.ips),
            loopbacks: clone_strings(&s.loopbacks),
            is_external: false,
            snapshot_count: s.snapshot_count,
        };
        nodes.push(node);
        k = k + 1;
    }
    nodes
}

/// The classified connections of the merged servers `ms`, with addresses
/// resolved through the servers' own address lists.
pub open spec fn graph_records(ms: Seq<MergedModel>) -> Seq<Record> {
    records_of(ms, address_book(ms))
}

/// `g` is the graph of the merged servers `ms`: first one node per server, in
/// server order, then one node per external address, in order of first
/// appearance; and the edges that sum up the servers' connections.
pub open spec fn is_graph_of(g: GraphView, ms: Seq<MergedModel>) -> bool {
    let rs = graph_records(ms);
    &&& g.nodes.len() == ms.len() + external_ids(rs).len()
    &&& forall|k: int| 0 <= k < ms.len() ==> internal_node_of(#[trigger] g.nodes[k], ms[k])
    &&& g.nodes.skip(ms.len() as int) == external_nodes(external_ids(rs))
    &&& edges_sum_up(g.edges, rs)
}

/// Builds the graph of merged servers: the address table, the internal
/// nodes, the edges and the external nodes.
pub fn graph_from_servers(servers: &Vec<MergedServer>) -> (g: Graph)
    requires
        forall|k: int| 0 <= k < servers@.len() ==> (#[trigger] servers@[k]).wf(),
        total_appearances(merged_views(servers@)) <= usize::MAX,
    ensures
        is_graph_of(g@, merged_views(servers@)),
        total_edge_count(g@.edges) == total_appearances(merged_views(servers@)),
{
    let ghost ms = merged_views(servers@);
    let ip_map = build_ip_map(servers);
    let (edges, mut exts) = build_edges(servers, &ip_map);
    let mut nodes = internal_nodes(servers);
    let ghost internal = nodes@;
    let ghost ext_list = exts@;
    nodes.append(&mut exts);
    assert(nodes@ == internal + ext_list);
    let g = Graph { nodes, edges };
    assert(node_views(g.nodes@).skip(ms.len() as int) =~= external_nodes(
        external_ids(graph_records(ms)),
    )) by {
        assert forall|x: int| 0 <= x < node_views(g.nodes@).skip(ms.len() as int).len() implies #[trigger] node_views(g.nodes@).skip(ms.len() as int)[x] == node_views(ext_list)[x] by {
            assert(g.nodes@[ms.len() + x] == ext_list[x]);
        }
    }
    assert forall|k: int| 0 <= k < ms.len() implies internal_node_of(#[trigger] node_views(g.nodes@)[k], ms[k]) by {
        assert(g.nodes@[k] == internal[k]);
    }
    proof {
        assert forall|k: int| 0 <= k < ms.len() implies (#[trigger] ms[k]).appearances.len()
            == ms[k].connections.len() by {
            assert(ms[k] == servers@[k]@);
            assert(servers@[k].wf());
        }
        law_connection_count_total(g@, ms);
    }
    g
}

/// Builds the network graph from capture files. Files of the same hostname
/// are merged (see `merge_servers`); with `trim`, external nodes that only one
/// edge reaches are removed with their edge (see `trim_external`).
pub fn build_graph(files: &Vec<ConnectionsFile>, trim: bool) -> (g: Graph)
    requires
        total_connections(file_views(files@)) <= usize::MAX,
    ensures
        exists|full: GraphView|
            is_graph_of(full, merged_models(file_views(files@))) && g@ == if trim {
                GraphView {
                    nodes: kept_nodes(full.nodes, full.edges),
                    edges: kept_edges(full.edges),
                }
            } else {
                full
            },
        !trim ==> total_edge_count(g@.edges) == total_connections(file_views(files@)),
{
    let servers = merge_servers(files);
    let full = graph_from_servers(&servers);
    if trim {
        let ghost fv = full@;
        let (nodes, edges, _removed) = trim_external(full.nodes, full.edges);
        let g = Graph { nodes, edges };
        assert(g@ == GraphView { nodes: kept_nodes(fv.nodes, fv.edges), edges: kept_edges(fv.edges) });
        g
    } else {
        full
    }
}

} // verus!
