//! Optional trimming: external nodes that only one edge reaches are noise,
//! and are removed together with that edge.

use vstd::prelude::*;
use crate::model::{EdgeView, GraphEdge, GraphNode, NodeView, edge_views, node_views};

verus! {

/// The number of external edges that lead to `id`.
pub open spec fn external_edge_count(es: Seq<EdgeView>, id: Seq<char>) -> nat
    decreases es.len(),
{
    if es.len() == 0 {
        0
    } else {
        external_edge_count(es.drop_last(), id) + if es.last().is_external && es.last().target
            == id {
            1nat
        } else {
            0nat
        }
    }
}

/// `id` is trimmed away: fewer than two external edges, and at least one,
/// lead to it.
pub open spec fn trimmed_away(es: Seq<EdgeView>, id: Seq<char>) -> bool {
    external_edge_count(es, id) == 1
}

/// Whether the trim keeps edge `e` of the edges `es`.
pub open spec fn keeps_edge(es: Seq<EdgeView>, e: EdgeView) -> bool {
    !(e.is_external && trimmed_away(es, e.target))
}

/// Whether the trim keeps node `n`, given the edges `es`.
pub open spec fn keeps_node(es: Seq<EdgeView>, n: NodeView) -> bool {
    !(n.is_external && trimmed_away(es, n.id))
}

/// The edges that the trim keeps, in order.
pub open spec fn kept_edges(es: Seq<EdgeView>) -> Seq<EdgeView> {
    es.filter(|e: EdgeView| keeps_edge(es, e))
}

/// The nodes that the trim keeps, in order.
pub open spec fn kept_nodes(ns: Seq<NodeView>, es: Seq<EdgeView>) -> Seq<NodeView> {
    ns.filter(|n: NodeView| keeps_node(es, n))
}

/// Counts the external edges that lead to `id`.
fn count_external_edges(edges: &Vec<GraphEdge>, id: &String) -> (n: usize)
    ensures
        n == external_edge_count(edge_views(edges@), id@),
{
    let ghost es = edge_views(edges@);
    let mut n: usize = 0;
    let mut i: usize = 0;
    while i < edges.len()
        invariant
            i <= edges@.len(),
            es == edge_views(edges@),
            n == external_edge_count(es.take(i as int), id@),
            n <= i,
        decreases edges@.len() - i,
    {
        assert(es.take(i + 1).drop_last() =~= es.take(i as int));
        assert(es[i as int] == edges@[i as int]@);
        if edges[i].is_external && edges[i].target == *id {
            n = n + 1;
        }
        i = i + 1;
    }
    assert(es.take(i as int) =~= es);
    n
}

/// Removes every external node that exactly one external edge reaches
/// (fewer than two edges), and that edge. Other nodes and edges stay, in
/// order. Also returns how many edges were removed; no two of them lead to
/// the same address (see `law_trimmed_edges_distinct`), so this is also the
/// number of addresses trimmed away.
pub fn trim_external(nodes: Vec<GraphNode>, edges: Vec<GraphEdge>) -> (out: (
    Vec<GraphNode>,
    Vec<GraphEdge>,
    usize,
))
    ensures
        node_views(out.0@) == kept_nodes(node_views(nodes@), edge_views(edges@)),
        edge_views(out.1@) == kept_edges(edge_views(edges@)),
        out.2 == edges@.len() - out.1@.len(),
{
    let ghost es = edge_views(edges@);
    let ghost ns = node_views(nodes@);
    let ghost keep_e = |e: EdgeView| keeps_edge(es, e);
    let ghost keep_n = |n: NodeView| keeps_node(es, n);
    let mut keep_flags: Vec<bool> = Vec::new();
    let mut i: usize = 0;
    while i < edges.len()
        invariant
            i <= edges@.len(),
            es == edge_views(edges@),
            keep_flags@.len() == i,
            forall|m: int| 0 <= m < i ==> #[trigger] keep_flags@[m] == keeps_edge(es, es[m]),
        decreases edges@.len() - i,
    {
        assert(es[i as int] == edges@[i as int]@);
        let keep = if edges[i].is_external {
            let c = count_external_edges(&edges, &edges[i].target);
            c != 1
        } else {
            true
        };
        keep_flags.push(keep);
        i = i + 1;
    }
    let mut node_flags: Vec<bool> = Vec::new();
    let mut i: usize = 0;
    while i < nodes.len()
        invariant
            i <= nodes@.len(),
            ns == node_views(nodes@),
            es == edge_views(edges@),
            node_flags@.len() == i,
            forall|m: int| 0 <= m < i ==> #[trigger] node_flags@[m] == keeps_node(es, ns[m]),
        decreases nodes@.len() - i,
    {
        assert(ns[i as int] == nodes@[i as int]@);
        let keep = if nodes[i].is_external {
            let c = count_external_edges(&edges, &nodes[i].id);
            c != 1
        } else {
            true
        };
        node_flags.push(keep);
        i = i + 1;
    }
    let total_edges = edges.len();
    let mut kept_e: Vec<GraphEdge> = Vec::new();
    let mut i: usize = 0;
    assert(es.take(0).filter(keep_e) =~= Seq::empty()) by {
        reveal(Seq::filter);
    }
    for e in it: edges.into_iter()
        invariant
            it.seq() == edges@,
            es == edge_views(edges@),
            keep_flags@.len() == es.len(),
            forall|m: int| 0 <= m < es.len() ==> #[trigger] keep_flags@[m] == keeps_edge(es, es[m]),
            i == it.index(),
            edge_views(kept_e@) == es.take(i as int).filter(keep_e),
            kept_e@.len() <= i,
            total_edges == es.len(),
            keep_e == (|e: EdgeView| keeps_edge(es, e)),
    {
        assert(es.take(i + 1).drop_last() =~= es.take(i as int));
        assert(es[i as int] == e@);
        proof {
            reveal(Seq::filter);
        }
        if keep_flags[i] {
            let ghost before = kept_e@;
            kept_e.push(e);
            assert(edge_views(kept_e@) =~= edge_views(before).push(e@));
        }
        i = i + 1;
    }
    assert(es.take(i as int) =~= es);
    let mut kept_n: Vec<GraphNode> = Vec::new();
    let n_len = nodes.len();
    let mut i: usize = 0;
    assert(ns.take(0).filter(keep_n) =~= Seq::empty()) by {
        reveal(Seq::filter);
    }
    for n in it: nodes.into_iter()
        invariant
            it.seq() == nodes@,
            ns == node_views(nodes@),
            node_flags@.len() == ns.len(),
            forall|m: int| 0 <= m < ns.len() ==> #[trigger] node_flags@[m] == keeps_node(es, ns[m]),
            i == it.index(),
            node_views(kept_n@) == ns.take(i as int).filter(keep_n),
            ns.len() == n_len,
            keep_n == (|n: NodeView| keeps_node(es, n)),
    {
        assert(ns.take(i + 1).drop_last() =~= ns.take(i as int));
        assert(ns[i as int] == n@);
        proof {
            reveal(Seq::filter);
        }
        if node_flags[i] {
            let ghost before = kept_n@;
            kept_n.push(n);
            assert(node_views(kept_n@) =~= node_views(before).push(n@));
        }
        i = i + 1;
    }
    assert(ns.take(i as int) =~= ns);
    let removed = total_edges - kept_e.len();
    (kept_n, kept_e, removed)
}

proof fn lemma_count_positive(es: Seq<EdgeView>, i: int)
    requires
        0 <= i < es.len(),
        es[i].is_external,
    ensures
        external_edge_count(es, es[i].target) >= 1,
    decreases es.len(),
{
    if i < es.len() - 1 {
        lemma_count_positive(es.drop_last(), i);
    }
}

proof fn lemma_count_two(es: Seq<EdgeView>, i: int, j: int)
    requires
        0 <= i < j < es.len(),
        es[i].is_external,
        es[j].is_external,
        es[i].target == es[j].target,
    ensures
        external_edge_count(es, es[i].target) >= 2,
    decreases es.len(),
{
    if j < es.len() - 1 {
        lemma_count_two(es.drop_last(), i, j);
    } else {
        lemma_count_positive(es.drop_last(), i);
    }
}

/// The edges that trimming removes lead to pairwise different addresses, and
/// each leads to an address trimmed away: one removed edge per address.
pub proof fn law_trimmed_edges_distinct(es: Seq<EdgeView>)
    ensures
        forall|i: int, j: int|
            0 <= i < es.len() && 0 <= j < es.len() && i != j && !keeps_edge(es, #[trigger] es[i])
                && !keeps_edge(es, #[trigger] es[j]) ==> es[i].target != es[j].target,
        forall|i: int|
            0 <= i < es.len() && !keeps_edge(es, #[trigger] es[i]) ==> es[i].is_external
                && trimmed_away(es, es[i].target),
{
    assert forall|i: int, j: int|
        0 <= i < es.len() && 0 <= j < es.len() && i != j && !keeps_edge(es, #[trigger] es[i])
            && !keeps_edge(es, #[trigger] es[j]) implies es[i].target != es[j].target by {
        if es[i].target == es[j].target {
            if i < j {
                lemma_count_two(es, i, j);
            } else {
                lemma_count_two(es, j, i);
            }
        }
    }
}

} // verus!
