//! What holds of every graph the library builds.

use vstd::prelude::*;
use crate::edges::{
    EdgeKey, Record, classify, edge_count, edge_flags, edge_key, edge_ports, edge_sums_up, edges_sorted,
    has_key, key_less, lemma_key_less_irreflexive, lemma_key_less_transitive, lemma_records_push, record_key, record_of,
    records_of, records_total, server_records,
};
use crate::graph::{
    external_ids, external_node, external_targets, graph_records, internal_node_of, is_graph_of,
};
use crate::ipmap::{AddressBook, address_book, host_names, ip_owner};
use crate::address::is_loopback_text;
use crate::cli::{EntryView, entry_read, read_files};
use crate::text::{is_white_space, trim, trim_end, trim_start};
use crate::merge::{
    MergedModel, endpoints_of, hostnames, hosts, merged_model, merged_models, snapshots_of,
    total_appearances,
};
use crate::model::{EdgeView, Endpoint, FileView, GraphView, NodeView};
use crate::trim::{external_edge_count, keeps_edge, keeps_node, kept_edges, kept_nodes};
use crate::order::{
    chars_less, lemma_chars_less_irreflexive, lemma_chars_less_transitive, ports_strictly_sorted,
};
use crate::seqs::{
    distinct_in_order, lemma_distinct_contents, lemma_filter_agree, lemma_filter_distinct_keys, lemma_filter_keeps_order, lemma_occurrences_bound, lemma_sorted_unique, sorted_by,
    strict_order, sum_nat,
};

verus! {

/// Every classified connection is connection `j` of some server `k`.
pub proof fn lemma_record_origin(ms: Seq<MergedModel>, owners: AddressBook, i: int)
    requires
        0 <= i < records_of(ms, owners).len(),
    ensures
        exists|k: int, j: int|
            0 <= k < ms.len() && 0 <= j < ms[k].connections.len() && #[trigger] records_of(
                ms,
                owners,
            )[i] == record_of(ms[k], j, owners),
    decreases ms.len(),
{
    let rest = records_of(ms.drop_last(), owners);
    let last = server_records(ms.last(), owners);
    assert(records_of(ms, owners) == rest + last);
    if i < rest.len() {
        lemma_record_origin(ms.drop_last(), owners, i);
        let (k, j) = choose|k: int, j: int|
            0 <= k < ms.drop_last().len() && 0 <= j < ms.drop_last()[k].connections.len()
                && #[trigger] records_of(ms.drop_last(), owners)[i] == record_of(
                ms.drop_last()[k],
                j,
                owners,
            );
        assert(ms[k] == ms.drop_last()[k]);
        assert(records_of(ms, owners)[i] == record_of(ms[k], j, owners));
    } else {
        let j = i - rest.len();
        assert(records_of(ms, owners)[i] == last[j]);
        assert(records_of(ms, owners)[i] == record_of(ms[ms.len() - 1], j, owners));
    }
}

/// An owner found in the address table is a server's hostname.
proof fn lemma_owner_is_host(ms: Seq<MergedModel>, ip: Seq<char>)
    requires
        ip_owner(ms, ip) is Some,
    ensures
        exists|k: int| 0 <= k < ms.len() && #[trigger] ms[k].hostname == ip_owner(ms, ip)->0,
    decreases ms.len(),
{
    if !(ms.last().ips.contains(ip) || ms.last().loopbacks.contains(ip)) {
        lemma_owner_is_host(ms.drop_last(), ip);
        let k = choose|k: int|
            0 <= k < ms.drop_last().len() && #[trigger] ms.drop_last()[k].hostname == ip_owner(
                ms.drop_last(),
                ip,
            )->0;
        assert(ms[k] == ms.drop_last()[k]);
    } else {
        assert(ms[ms.len() - 1].hostname == ip_owner(ms, ip)->0);
    }
}

/// The flags of an edge are those of one of its connections.
proof fn lemma_flags_from_record(rs: Seq<Record>, key: EdgeKey)
    requires
        has_key(rs, key),
    ensures
        exists|i: int|
            0 <= i < rs.len() && #[trigger] record_key(rs[i]) == key && edge_flags(rs, key) == (
                rs[i].is_external,
                rs[i].is_self_loop,
            ),
    decreases rs.len(),
{
    let t = rs.drop_last();
    if has_key(t, key) {
        lemma_flags_from_record(t, key);
        let i = choose|i: int|
            0 <= i < t.len() && #[trigger] record_key(t[i]) == key && edge_flags(t, key) == (
                t[i].is_external,
                t[i].is_self_loop,
            );
        assert(record_key(rs[i]) == key);
    } else {
        let i = choose|i: int| 0 <= i < rs.len() && #[trigger] record_key(rs[i]) == key;
        if i < t.len() {
            assert(record_key(t[i]) == key);
        }
        assert(record_key(rs[rs.len() - 1]) == key);
    }
}

/// An external connection's address is among the external ids.
proof fn lemma_external_record(rs: Seq<Record>, i: int)
    requires
        0 <= i < rs.len(),
        rs[i].is_external,
    ensures
        external_ids(rs).contains(rs[i].target),
    decreases rs.len(),
{
    lemma_distinct_contents(external_targets(rs));
    let t = rs.drop_last();
    if i < t.len() {
        lemma_external_record(t, i);
        lemma_distinct_contents(external_targets(t));
        let m = choose|m: int|
            0 <= m < external_targets(t).len() && external_targets(t)[m] == rs[i].target;
        assert(external_targets(rs)[m] == rs[i].target);
    } else {
        assert(external_targets(rs) == external_targets(t) + seq![rs.last().target]);
        assert(external_targets(rs)[external_targets(t).len() as int] == rs[i].target);
    }
}

/// Where a classified connection of the graph leads: a self loop stays at its
/// source; an external connection is no self loop and leads to an external
/// id; any other connection leads to a server's hostname.
proof fn lemma_record_target(ms: Seq<MergedModel>, i: int)
    requires
        0 <= i < graph_records(ms).len(),
    ensures
        ({
            let r = graph_records(ms)[i];
            &&& exists|k: int| 0 <= k < ms.len() && #[trigger] ms[k].hostname == r.source
            &&& r.is_self_loop ==> r.target == r.source
            &&& r.is_external ==> !r.is_self_loop && external_ids(graph_records(ms)).contains(
                r.target,
            )
            &&& !r.is_external ==> exists|k: int|
                0 <= k < ms.len() && #[trigger] ms[k].hostname == r.target
            &&& !r.is_external && r.target == r.source ==> r.is_self_loop
            &&& r.is_external ==> !is_loopback_text(r.target) && ip_owner(ms, r.target) is None
                && !host_names(ms).contains(r.target)
        }),
{
    let owners = address_book(ms);
    let rs = graph_records(ms);
    lemma_record_origin(ms, owners, i);
    let (k, j) = choose|k: int, j: int|
        0 <= k < ms.len() && 0 <= j < ms[k].connections.len() && #[trigger] records_of(
            ms,
            owners,
        )[i] == record_of(ms[k], j, owners);
    let r = rs[i];
    assert(r.source == ms[k].hostname);
    if r.is_external {
        lemma_external_record(rs, i);
    } else {
        let ip = ms[k].connections[j].0;
        if r.target != ms[k].hostname {
            if owners.owners.contains_key(ip) {
                lemma_owner_is_host(ms, ip);
            } else {
                assert(host_names(ms).contains(ip));
            }
        }
    }
}

/// Every node is named by its hostname; the first nodes are the captured
/// hosts, the others external nodes whose only address is their name.
pub proof fn law_node_names(g: GraphView, ms: Seq<MergedModel>)
    requires
        is_graph_of(g, ms),
    ensures
        forall|i: int| 0 <= i < g.nodes.len() ==> (#[trigger] g.nodes[i]).id == g.nodes[i].hostname,
        forall|i: int| 0 <= i < ms.len() ==> !(#[trigger] g.nodes[i]).is_external,
        forall|i: int|
            ms.len() <= i < g.nodes.len() ==> (#[trigger] g.nodes[i]).is_external
                && g.nodes[i].ips == seq![g.nodes[i].id],
{
    let ext = g.nodes.skip(ms.len() as int);
    assert forall|i: int| 0 <= i < g.nodes.len() implies (#[trigger] g.nodes[i]).id
        == g.nodes[i].hostname by {
        if i >= ms.len() {
            assert(g.nodes[i] == ext[i - ms.len()]);
        } else {
            assert(internal_node_of(g.nodes[i], ms[i]));
        }
    }
    assert forall|i: int| 0 <= i < ms.len() implies !(#[trigger] g.nodes[i]).is_external by {
        assert(internal_node_of(g.nodes[i], ms[i]));
    }
    assert forall|i: int| ms.len() <= i < g.nodes.len() implies (#[trigger] g.nodes[i]).is_external
        && g.nodes[i].ips == seq![g.nodes[i].id] by {
        assert(g.nodes[i] == ext[i - ms.len()]);
    }
}

/// A self loop leads from a host to itself, and an external edge is never a
/// self loop.
pub proof fn law_edge_flags(g: GraphView, ms: Seq<MergedModel>)
    requires
        is_graph_of(g, ms),
    ensures
        forall|i: int|
            0 <= i < g.edges.len() ==> ((#[trigger] g.edges[i]).is_self_loop ==> g.edges[i].source
                == g.edges[i].target) && (g.edges[i].is_external ==> !g.edges[i].is_self_loop) && (
            g.edges[i].source == g.edges[i].target && !g.edges[i].is_external
                ==> g.edges[i].is_self_loop),
{
    let rs = graph_records(ms);
    assert forall|i: int| 0 <= i < g.edges.len() implies ((#[trigger] g.edges[i]).is_self_loop
        ==> g.edges[i].source == g.edges[i].target) && (g.edges[i].is_external
        ==> !g.edges[i].is_self_loop) && (g.edges[i].source == g.edges[i].target
        && !g.edges[i].is_external ==> g.edges[i].is_self_loop) by {
        let e = g.edges[i];
        assert(has_key(rs, edge_key(e)));
        lemma_flags_from_record(rs, edge_key(e));
        let m = choose|m: int|
            0 <= m < rs.len() && #[trigger] record_key(rs[m]) == edge_key(e) && edge_flags(
                rs,
                edge_key(e),
            ) == (rs[m].is_external, rs[m].is_self_loop);
        lemma_record_target(ms, m);
    }
}

/// Edge `i` starts at one of the first `hosts` nodes, the captured hosts.
pub open spec fn starts_at_host(g: GraphView, hosts: nat, i: int) -> bool {
    exists|k: int| 0 <= k < hosts && #[trigger] g.nodes[k].id == g.edges[i].source
}

/// Edge `i` ends at a node: an external node (after the first `hosts`) when
/// it is external, one of the captured hosts otherwise.
pub open spec fn ends_at_node(g: GraphView, hosts: nat, i: int) -> bool {
    if g.edges[i].is_external {
        exists|n: int| hosts <= n < g.nodes.len() && #[trigger] g.nodes[n].id == g.edges[i].target
    } else {
        exists|k: int| 0 <= k < hosts && #[trigger] g.nodes[k].id == g.edges[i].target
    }
}

/// Every edge starts at a captured host.
proof fn lemma_edge_sources(g: GraphView, ms: Seq<MergedModel>)
    requires
        is_graph_of(g, ms),
    ensures
        forall|i: int| 0 <= i < g.edges.len() ==> #[trigger] starts_at_host(g, ms.len(), i),
{
    let rs = graph_records(ms);
    assert forall|i: int| 0 <= i < g.edges.len() implies #[trigger] starts_at_host(g, ms.len(), i) by {
        let e = g.edges[i];
        lemma_flags_from_record(rs, edge_key(e));
        let m = choose|m: int|
            0 <= m < rs.len() && #[trigger] record_key(rs[m]) == edge_key(e) && edge_flags(
                rs,
                edge_key(e),
            ) == (rs[m].is_external, rs[m].is_self_loop);
        lemma_record_target(ms, m);
        let k = choose|k: int| 0 <= k < ms.len() && #[trigger] ms[k].hostname == rs[m].source;
        assert(internal_node_of(g.nodes[k], ms[k]));
        assert(rs[m].source == e.source);
        assert(g.nodes[k].id == e.source);
        assert(g.nodes[k].id == g.edges[i].source);
    }
}

/// Every edge joins two nodes of the graph: its source is a captured host,
/// and its target is an external node when the edge is external, a captured
/// host otherwise.
pub proof fn law_edges_join_nodes(g: GraphView, ms: Seq<MergedModel>)
    requires
        is_graph_of(g, ms),
    ensures
        forall|i: int| 0 <= i < g.edges.len() ==> #[trigger] starts_at_host(g, ms.len(), i),
        forall|i: int| 0 <= i < g.edges.len() ==> #[trigger] ends_at_node(g, ms.len(), i),
{
    let rs = graph_records(ms);
    let ids = external_ids(rs);
    let ext = g.nodes.skip(ms.len() as int);
    lemma_edge_sources(g, ms);
    assert forall|i: int| 0 <= i < g.edges.len() && g.edges[i].is_external implies #[trigger] ends_at_node(g, ms.len(), i) by {
        let e = g.edges[i];
        lemma_flags_from_record(rs, edge_key(e));
        let m = choose|m: int|
            0 <= m < rs.len() && #[trigger] record_key(rs[m]) == edge_key(e) && edge_flags(
                rs,
                edge_key(e),
            ) == (rs[m].is_external, rs[m].is_self_loop);
        lemma_record_target(ms, m);
        let x = choose|x: int| 0 <= x < ids.len() && ids[x] == e.target;
        assert(g.nodes[ms.len() + x] == ext[x]);
        assert(ext[x] == external_node(ids[x]));
        assert(g.nodes[ms.len() + x].id == g.edges[i].target);
        assert(ms.len() <= ms.len() + x < g.nodes.len());
    }
    assert forall|i: int| 0 <= i < g.edges.len() && !g.edges[i].is_external implies #[trigger] ends_at_node(g, ms.len(), i) by {
        let e = g.edges[i];
        lemma_flags_from_record(rs, edge_key(e));
        let m = choose|m: int|
            0 <= m < rs.len() && #[trigger] record_key(rs[m]) == edge_key(e) && edge_flags(
                rs,
                edge_key(e),
            ) == (rs[m].is_external, rs[m].is_self_loop);
        lemma_record_target(ms, m);
        let k = choose|k: int| 0 <= k < ms.len() && #[trigger] ms[k].hostname == rs[m].target;
        assert(internal_node_of(g.nodes[k], ms[k]));
    }
}

proof fn lemma_present_host(files: Seq<FileView>, h: Seq<char>)
    requires
        hostnames(files).contains(h),
    ensures
        snapshots_of(files, h) >= 1,
    decreases files.len(),
{
    let t = files.drop_last();
    if files.last().server.hostname != h {
        let i = choose|i: int| 0 <= i < hostnames(files).len() && hostnames(files)[i] == h;
        assert(i < t.len());
        assert(hostnames(t)[i] == h);
        lemma_present_host(t, h);
    }
}

/// Node `k` is the node of host `h`, merged from its `count` files.
pub open spec fn host_node_at(g: GraphView, k: int, h: Seq<char>, count: nat) -> bool {
    &&& g.nodes[k].id == h
    &&& !g.nodes[k].is_external
    &&& g.nodes[k].snapshot_count == count
}

/// All files of one hostname are merged into a single node, whose
/// snapshot count is the number of those files (at least one); no two host
/// nodes share a name.
pub proof fn law_one_node_per_host(files: Seq<FileView>, g: GraphView)
    requires
        is_graph_of(g, merged_models(files)),
    ensures
        forall|h: Seq<char>|
            #[trigger] hostnames(files).contains(h) ==> snapshots_of(files, h) >= 1 && exists|k: int|
                0 <= k < hosts(files).len() && #[trigger] host_node_at(g, k, h, snapshots_of(files, h)),
        forall|k1: int, k2: int|
            0 <= k1 < hosts(files).len() && 0 <= k2 < hosts(files).len() && k1 != k2
                ==> (#[trigger] g.nodes[k1]).id != (#[trigger] g.nodes[k2]).id,
{
    let ms = merged_models(files);
    let hs = hosts(files);
    lemma_distinct_contents(hostnames(files));
    assert forall|h: Seq<char>| #[trigger] hostnames(files).contains(h) implies snapshots_of(files, h) >= 1 && exists|k: int|
        0 <= k < hs.len() && #[trigger] host_node_at(g, k, h, snapshots_of(files, h)) by {
        lemma_present_host(files, h);
        assert(hs.contains(h));
        let k = choose|k: int| 0 <= k < hs.len() && hs[k] == h;
        assert(ms[k] == merged_model(files, h));
        assert(internal_node_of(g.nodes[k], ms[k]));
        assert(host_node_at(g, k, h, snapshots_of(files, h)));
    }
    assert forall|k1: int, k2: int|
        0 <= k1 < hs.len() && 0 <= k2 < hs.len() && k1 != k2 implies (#[trigger] g.nodes[k1]).id
        != (#[trigger] g.nodes[k2]).id by {
        assert(internal_node_of(g.nodes[k1], ms[k1]));
        assert(internal_node_of(g.nodes[k2], ms[k2]));
        assert(ms[k1] == merged_model(files, hs[k1]));
        assert(ms[k2] == merged_model(files, hs[k2]));
    }
}

/// The classified connections of server `k` stand in the records of all
/// servers.
proof fn lemma_record_present(ms: Seq<MergedModel>, owners: AddressBook, k: int, j: int)
    requires
        0 <= k < ms.len(),
        0 <= j < ms[k].connections.len(),
    ensures
        exists|i: int|
            0 <= i < records_of(ms, owners).len() && #[trigger] records_of(ms, owners)[i]
                == record_of(ms[k], j, owners),
    decreases ms.len(),
{
    let rest = records_of(ms.drop_last(), owners);
    let last = server_records(ms.last(), owners);
    assert(records_of(ms, owners) == rest + last);
    if k < ms.len() - 1 {
        assert(ms.drop_last()[k] == ms[k]);
        lemma_record_present(ms.drop_last(), owners, k, j);
        let i = choose|i: int|
            0 <= i < rest.len() && #[trigger] records_of(ms.drop_last(), owners)[i] == record_of(
                ms.drop_last()[k],
                j,
                owners,
            );
        assert(records_of(ms, owners)[i] == rest[i]);
    } else {
        assert(records_of(ms, owners)[rest.len() + j] == last[j]);
    }
}

proof fn lemma_endpoint_present(files: Seq<FileView>, i: int, c: Endpoint)
    requires
        0 <= i < files.len(),
        files[i].connections.contains(c),
    ensures
        endpoints_of(files, files[i].server.hostname).contains(c),
    decreases files.len(),
{
    let h = files[i].server.hostname;
    let t = files.drop_last();
    if i < t.len() {
        assert(t[i] == files[i]);
        lemma_endpoint_present(t, i, c);
        let m = choose|m: int| 0 <= m < endpoints_of(t, h).len() && endpoints_of(t, h)[m] == c;
        assert(endpoints_of(files, h)[m] == c);
    } else {
        let m = choose|m: int| 0 <= m < files[i].connections.len() && files[i].connections[m] == c;
        assert(endpoints_of(files, h)[endpoints_of(t, h).len() + m] == c);
    }
}

/// The graph has an edge with port `port` from `h` to `t`.
pub open spec fn has_edge_with_port(g: GraphView, h: Seq<char>, t: Seq<char>, port: u16) -> bool {
    exists|e: int|
        0 <= e < g.edges.len() && #[trigger] g.edges[e].source == h && g.edges[e].target == t
            && g.edges[e].ports.contains(port)
}

/// Every connection of every capture file shows in the graph: an edge from
/// the file's host to where the connection leads carries its port. In
/// particular a connection to a loopback address gives an edge from the host
/// to itself.
pub proof fn law_every_connection_has_edge(files: Seq<FileView>, g: GraphView, i: int, c: Endpoint)
    requires
        is_graph_of(g, merged_models(files)),
        0 <= i < files.len(),
        files[i].connections.contains(c),
    ensures
        has_edge_with_port(
            g,
            files[i].server.hostname,
            classify(files[i].server.hostname, c.0, address_book(merged_models(files))).0,
            c.1,
        ),
        is_loopback_text(c.0) ==> has_edge_with_port(
            g,
            files[i].server.hostname,
            files[i].server.hostname,
            c.1,
        ),
{
    let ms = merged_models(files);
    let owners = address_book(ms);
    let rs = graph_records(ms);
    let h = files[i].server.hostname;
    lemma_distinct_contents(hostnames(files));
    assert(hostnames(files)[i] == h);
    assert(hostnames(files).contains(h));
    assert(hosts(files).contains(h));
    let k = choose|k: int| 0 <= k < hosts(files).len() && hosts(files)[k] == h;
    assert(ms[k] == merged_model(files, h));
    lemma_endpoint_present(files, i, c);
    lemma_distinct_contents(endpoints_of(files, h));
    assert(ms[k].connections == distinct_in_order(endpoints_of(files, h)));
    assert(ms[k].connections.contains(c));
    let j = choose|j: int|
        0 <= j < ms[k].connections.len() && ms[k].connections[j] == c;
    lemma_record_present(ms, owners, k, j);
    let x = choose|x: int| 0 <= x < rs.len() && #[trigger] records_of(ms, owners)[x] == record_of(ms[k], j, owners);
    let key = record_key(rs[x]);
    assert(has_key(rs, key));
    let e = choose|e: int| 0 <= e < g.edges.len() && edge_key(#[trigger] g.edges[e]) == key;
    assert(rs[x].port == c.1);
    assert(record_key(rs[x]) == key);
    assert(edge_ports(rs, key).contains(c.1));
    assert(g.edges[e].ports.to_set().contains(c.1));
    assert(g.edges[e].source == h && g.edges[e].target == classify(h, c.0, owners).0);
}

/// Some node of `ns` is named `id`.
pub open spec fn has_node(ns: Seq<NodeView>, id: Seq<char>) -> bool {
    exists|i: int| 0 <= i < ns.len() && #[trigger] ns[i].id == id
}

/// Trimming removes external nodes and external edges only, and leaves a
/// graph whose every edge still joins two of its nodes.
pub proof fn law_trim_keeps_graph_closed(g: GraphView, ms: Seq<MergedModel>)
    requires
        is_graph_of(g, ms),
    ensures
        forall|i: int|
            0 <= i < g.nodes.len() && !(#[trigger] g.nodes[i]).is_external ==> kept_nodes(
                g.nodes,
                g.edges,
            ).contains(g.nodes[i]),
        forall|i: int|
            0 <= i < g.edges.len() && !(#[trigger] g.edges[i]).is_external ==> kept_edges(
                g.edges,
            ).contains(g.edges[i]),
        forall|e: EdgeView| #[trigger]
            kept_edges(g.edges).contains(e) ==> has_node(kept_nodes(g.nodes, g.edges), e.source)
                && has_node(kept_nodes(g.nodes, g.edges), e.target),
{
    let es = g.edges;
    let ns = g.nodes;
    let kn = kept_nodes(ns, es);
    let ke = kept_edges(es);
    let pn = |n: NodeView| keeps_node(es, n);
    let pe = |e: EdgeView| keeps_edge(es, e);
    assert forall|i: int| 0 <= i < ns.len() && !(#[trigger] ns[i]).is_external implies kn.contains(ns[i]) by {
        ns.lemma_filter_contains(pn, i);
    }
    assert forall|i: int| 0 <= i < es.len() && !(#[trigger] es[i]).is_external implies ke.contains(es[i]) by {
        es.lemma_filter_contains(pe, i);
    }
    law_edges_join_nodes(g, ms);
    law_node_names(g, ms);
    assert forall|e: EdgeView| #[trigger] ke.contains(e) implies has_node(kn, e.source) && has_node(kn, e.target) by {
        es.lemma_filter_contains_rev(pe, e);
        let i = choose|i: int| 0 <= i < es.len() && es[i] == e;
        let fi = choose|fi: int| 0 <= fi < ke.len() && ke[fi] == e;
        es.lemma_filter_pred(pe, fi);
        assert(keeps_edge(es, e));
        assert(starts_at_host(g, ms.len(), i));
        let k = choose|k: int| 0 <= k < ms.len() && #[trigger] ns[k].id == es[i].source;
        ns.lemma_filter_contains(pn, k);
        let a = choose|a: int| 0 <= a < kn.len() && kn[a] == ns[k];
        assert(kn[a].id == e.source);
        assert(ends_at_node(g, ms.len(), i));
        if e.is_external {
            let n = choose|n: int| ms.len() <= n < ns.len() && #[trigger] ns[n].id == es[i].target;
            assert(ns[n].is_external);
            assert(keeps_node(es, ns[n]));
            ns.lemma_filter_contains(pn, n);
            let b = choose|b: int| 0 <= b < kn.len() && kn[b] == ns[n];
            assert(kn[b].id == e.target);
        } else {
            let n = choose|n: int| 0 <= n < ms.len() && #[trigger] ns[n].id == es[i].target;
            ns.lemma_filter_contains(pn, n);
            let b = choose|b: int| 0 <= b < kn.len() && kn[b] == ns[n];
            assert(kn[b].id == e.target);
        }
    }
}

/// The sum of the connection counts of the edges.
pub open spec fn total_edge_count(es: Seq<EdgeView>) -> nat
    decreases es.len(),
{
    if es.len() == 0 {
        0
    } else {
        total_edge_count(es.drop_last()) + es.last().connection_count
    }
}

/// The sum, over the edges `es`, of what their keys count in `rs`.
spec fn keyed_count_sum(es: Seq<EdgeView>, rs: Seq<Record>) -> nat
    decreases es.len(),
{
    if es.len() == 0 {
        0
    } else {
        keyed_count_sum(es.drop_last(), rs) + edge_count(rs, edge_key(es.last()))
    }
}

spec fn key_in(es: Seq<EdgeView>, key: EdgeKey) -> bool {
    exists|i: int| 0 <= i < es.len() && #[trigger] edge_key(es[i]) == key
}

proof fn lemma_keyed_sum_empty(es: Seq<EdgeView>)
    ensures
        keyed_count_sum(es, Seq::empty()) == 0,
    decreases es.len(),
{
    if es.len() > 0 {
        lemma_keyed_sum_empty(es.drop_last());
    }
}

proof fn lemma_keyed_sum_push(es: Seq<EdgeView>, rs: Seq<Record>, r: Record)
    requires
        edges_sorted(es),
    ensures
        keyed_count_sum(es, rs.push(r)) == keyed_count_sum(es, rs) + if key_in(es, record_key(r)) {
            r.appearances
        } else {
            0nat
        },
    decreases es.len(),
{
    if es.len() > 0 {
        let t = es.drop_last();
        assert(edges_sorted(t)) by {
            assert forall|i: int, j: int| 0 <= i < j < t.len() implies key_less(edge_key(#[trigger] t[i]), edge_key(#[trigger] t[j])) by {
                assert(t[i] == es[i] && t[j] == es[j]);
            }
        }
        lemma_keyed_sum_push(t, rs, r);
        lemma_records_push(rs, r, edge_key(es.last()));
        let key = record_key(r);
        if key_in(t, key) {
            let i = choose|i: int| 0 <= i < t.len() && #[trigger] edge_key(t[i]) == key;
            assert(edge_key(es[i]) == key);
            assert(key_less(edge_key(es[i]), edge_key(es[es.len() - 1])));
            lemma_key_less_irreflexive(key);
        }
        if key_in(es, key) && !key_in(t, key) {
            let i = choose|i: int| 0 <= i < es.len() && #[trigger] edge_key(es[i]) == key;
            if i < t.len() {
                assert(edge_key(t[i]) == key);
            }
        }
        if key_in(t, key) {
            let i = choose|i: int| 0 <= i < t.len() && #[trigger] edge_key(t[i]) == key;
            assert(edge_key(es[i]) == key);
        }
        if edge_key(es.last()) == key {
            assert(edge_key(es[es.len() - 1]) == key);
        }
    }
}

proof fn lemma_keyed_sum_total(es: Seq<EdgeView>, rs: Seq<Record>)
    requires
        edges_sorted(es),
        forall|key: EdgeKey| #[trigger] has_key(rs, key) ==> key_in(es, key),
    ensures
        keyed_count_sum(es, rs) == records_total(rs),
    decreases rs.len(),
{
    if rs.len() == 0 {
        lemma_keyed_sum_empty(es);
        assert(rs =~= Seq::<Record>::empty());
    } else {
        let t = rs.drop_last();
        let r = rs.last();
        assert(t.push(r) =~= rs);
        assert forall|key: EdgeKey| #[trigger] has_key(t, key) implies key_in(es, key) by {
            lemma_records_push(t, r, key);
        }
        lemma_keyed_sum_total(es, t);
        lemma_keyed_sum_push(es, t, r);
        lemma_records_push(t, r, record_key(r));
    }
}

proof fn lemma_total_edge_count(es: Seq<EdgeView>, rs: Seq<Record>)
    requires
        forall|i: int| 0 <= i < es.len() ==> (#[trigger] es[i]).connection_count == edge_count(rs, edge_key(es[i])),
    ensures
        total_edge_count(es) == keyed_count_sum(es, rs),
    decreases es.len(),
{
    if es.len() > 0 {
        let t = es.drop_last();
        assert forall|i: int| 0 <= i < t.len() implies (#[trigger] t[i]).connection_count == edge_count(rs, edge_key(t[i])) by {
            assert(t[i] == es[i]);
        }
        lemma_total_edge_count(t, rs);
        assert(es[es.len() - 1] == es.last());
    }
}

proof fn lemma_records_total_concat(a: Seq<Record>, b: Seq<Record>)
    ensures
        records_total(a + b) == records_total(a) + records_total(b),
    decreases b.len(),
{
    if b.len() > 0 {
        assert((a + b).drop_last() =~= a + b.drop_last());
        lemma_records_total_concat(a, b.drop_last());
    } else {
        assert(a + b =~= a);
    }
}

proof fn lemma_server_records_total(m: MergedModel, owners: AddressBook, j: int)
    requires
        m.appearances.len() == m.connections.len(),
        0 <= j <= m.connections.len(),
    ensures
        records_total(server_records(m, owners).take(j)) == sum_nat(m.appearances.take(j)),
    decreases j,
{
    if j > 0 {
        lemma_server_records_total(m, owners, j - 1);
        assert(server_records(m, owners).take(j).drop_last() =~= server_records(m, owners).take(j - 1));
        assert(m.appearances.take(j).drop_last() =~= m.appearances.take(j - 1));
    } else {
        assert(server_records(m, owners).take(0) =~= Seq::<Record>::empty());
        assert(m.appearances.take(0) =~= Seq::<nat>::empty());
    }
}

proof fn lemma_records_total_all(ms: Seq<MergedModel>, owners: AddressBook)
    requires
        forall|k: int| 0 <= k < ms.len() ==> (#[trigger] ms[k]).appearances.len() == ms[k].connections.len(),
    ensures
        records_total(records_of(ms, owners)) == total_appearances(ms),
    decreases ms.len(),
{
    if ms.len() > 0 {
        let t = ms.drop_last();
        assert forall|k: int| 0 <= k < t.len() implies (#[trigger] t[k]).appearances.len() == t[k].connections.len() by {
            assert(t[k] == ms[k]);
        }
        lemma_records_total_all(t, owners);
        lemma_records_total_concat(records_of(t, owners), server_records(ms.last(), owners));
        let m = ms.last();
        assert(m == ms[ms.len() - 1]);
        lemma_server_records_total(m, owners, m.connections.len() as int);
        assert(server_records(m, owners).take(m.connections.len() as int) =~= server_records(m, owners));
        assert(m.appearances.take(m.connections.len() as int) =~= m.appearances);
    }
}

/// The connection counts of all edges add up to the number of times any
/// connection appeared over all merged snapshots.
pub proof fn law_connection_count_total(g: GraphView, ms: Seq<MergedModel>)
    requires
        is_graph_of(g, ms),
        forall|k: int| 0 <= k < ms.len() ==> (#[trigger] ms[k]).appearances.len() == ms[k].connections.len(),
    ensures
        total_edge_count(g.edges) == total_appearances(ms),
{
    let rs = graph_records(ms);
    assert forall|key: EdgeKey| #[trigger] has_key(rs, key) implies key_in(g.edges, key) by {
        let i = choose|i: int| 0 <= i < g.edges.len() && edge_key(#[trigger] g.edges[i]) == key;
    }
    lemma_keyed_sum_total(g.edges, rs);
    assert forall|i: int| 0 <= i < g.edges.len() implies (#[trigger] g.edges[i]).connection_count == edge_count(rs, edge_key(g.edges[i])) by {
        assert(crate::edges::edge_sums_up(g.edges[i], rs));
    }
    lemma_total_edge_count(g.edges, rs);
    lemma_records_total_all(ms, address_book(ms));
}

/// The graph of given merged servers is determined: two graphs of the same
/// servers are equal. (Nodes, edges, address lists and ports all come in a
/// fixed order.)
pub proof fn law_graph_determined(g1: GraphView, g2: GraphView, ms: Seq<MergedModel>)
    requires
        is_graph_of(g1, ms),
        is_graph_of(g2, ms),
    ensures
        g1 == g2,
{
    let rs = graph_records(ms);
    let sl = |a: Seq<char>, b: Seq<char>| chars_less(a, b);
    let pl = |a: u16, b: u16| a < b;
    let kl = |a: EdgeKey, b: EdgeKey| key_less(a, b);
    assert(strict_order(sl)) by {
        assert forall|x: Seq<char>| !(#[trigger] sl(x, x)) by {
            lemma_chars_less_irreflexive(x);
        }
        assert forall|x: Seq<char>, y: Seq<char>, z: Seq<char>| #[trigger] sl(x, y) && #[trigger] sl(y, z) implies sl(x, z) by {
            lemma_chars_less_transitive(x, y, z);
        }
    }
    assert(strict_order(kl)) by {
        assert forall|x: EdgeKey| !(#[trigger] kl(x, x)) by {
            lemma_key_less_irreflexive(x);
        }
        assert forall|x: EdgeKey, y: EdgeKey, z: EdgeKey| #[trigger] kl(x, y) && #[trigger] kl(y, z) implies kl(x, z) by {
            lemma_key_less_transitive(x, y, z);
        }
    }
    // nodes
    assert forall|i: int| 0 <= i < g1.nodes.len() implies #[trigger] g1.nodes[i] == g2.nodes[i] by {
        if i < ms.len() {
            let n1 = g1.nodes[i];
            let n2 = g2.nodes[i];
            assert(internal_node_of(n1, ms[i]));
            assert(internal_node_of(n2, ms[i]));
            assert(sorted_by(n1.ips, sl));
            assert(sorted_by(n2.ips, sl));
            assert(sorted_by(n1.loopbacks, sl));
            assert(sorted_by(n2.loopbacks, sl));
            assert forall|x: Seq<char>| n1.ips.contains(x) <==> n2.ips.contains(x) by {
                assert(n1.ips.to_set().contains(x) <==> n2.ips.to_set().contains(x));
            }
            assert forall|x: Seq<char>| n1.loopbacks.contains(x) <==> n2.loopbacks.contains(x) by {
                assert(n1.loopbacks.to_set().contains(x) <==> n2.loopbacks.to_set().contains(x));
            }
            lemma_sorted_unique(n1.ips, n2.ips, sl);
            lemma_sorted_unique(n1.loopbacks, n2.loopbacks, sl);
        } else {
            assert(g1.nodes[i] == g1.nodes.skip(ms.len() as int)[i - ms.len()]);
            assert(g2.nodes[i] == g2.nodes.skip(ms.len() as int)[i - ms.len()]);
        }
    }
    assert(g1.nodes =~= g2.nodes);
    // edges
    let k1 = g1.edges.map_values(|e: EdgeView| edge_key(e));
    let k2 = g2.edges.map_values(|e: EdgeView| edge_key(e));
    assert(sorted_by(k1, kl)) by {
        assert forall|p: int, q: int| 0 <= p < q < k1.len() implies kl(#[trigger] k1[p], #[trigger] k1[q]) by {
            assert(key_less(edge_key(g1.edges[p]), edge_key(g1.edges[q])));
        }
    }
    assert(sorted_by(k2, kl)) by {
        assert forall|p: int, q: int| 0 <= p < q < k2.len() implies kl(#[trigger] k2[p], #[trigger] k2[q]) by {
            assert(key_less(edge_key(g2.edges[p]), edge_key(g2.edges[q])));
        }
    }
    assert forall|x: EdgeKey| k1.contains(x) <==> k2.contains(x) by {
        if k1.contains(x) {
            let p = choose|p: int| 0 <= p < k1.len() && k1[p] == x;
            assert(has_key(rs, edge_key(g1.edges[p])));
            let q = choose|q: int| 0 <= q < g2.edges.len() && edge_key(#[trigger] g2.edges[q]) == x;
            assert(k2[q] == x);
        }
        if k2.contains(x) {
            let p = choose|p: int| 0 <= p < k2.len() && k2[p] == x;
            assert(has_key(rs, edge_key(g2.edges[p])));
            let q = choose|q: int| 0 <= q < g1.edges.len() && edge_key(#[trigger] g1.edges[q]) == x;
            assert(k1[q] == x);
        }
    }
    lemma_sorted_unique(k1, k2, kl);
    assert forall|i: int| 0 <= i < g1.edges.len() implies #[trigger] g1.edges[i] == g2.edges[i] by {
        let e1 = g1.edges[i];
        let e2 = g2.edges[i];
        assert(k1[i] == k2[i]);
        assert(crate::edges::edge_sums_up(e1, rs));
        assert(crate::edges::edge_sums_up(e2, rs));
        assert(sorted_by(e1.ports, pl));
        assert(sorted_by(e2.ports, pl));
        assert forall|x: u16| e1.ports.contains(x) <==> e2.ports.contains(x) by {
            assert(e1.ports.to_set().contains(x) <==> e2.ports.to_set().contains(x));
        }
        lemma_sorted_unique(e1.ports, e2.ports, pl);
    }
    assert(g1.edges =~= g2.edges);
}

proof fn lemma_trim_start_head(s: Seq<char>)
    ensures
        trim_start(s).len() > 0 ==> !is_white_space(trim_start(s)[0]),
    decreases s.len(),
{
    if s.len() > 0 && is_white_space(s[0]) {
        lemma_trim_start_head(s.drop_first());
    }
}

proof fn lemma_trim_end_shape(s: Seq<char>)
    ensures
        trim_end(s).len() <= s.len(),
        trim_end(s) == s.take(trim_end(s).len() as int),
        trim_end(s).len() > 0 ==> !is_white_space(trim_end(s).last()),
    decreases s.len(),
{
    if s.len() > 0 && is_white_space(s.last()) {
        lemma_trim_end_shape(s.drop_last());
        let k = trim_end(s).len() as int;
        assert(s.drop_last().take(k) =~= s.take(k));
    } else {
        assert(s.take(s.len() as int) =~= s);
    }
}

/// Trimming twice is trimming once.
pub proof fn law_trim_idempotent(s: Seq<char>)
    ensures
        trim(trim(s)) == trim(s),
{
    let t = trim_start(s);
    let u = trim_end(t);
    lemma_trim_start_head(s);
    lemma_trim_end_shape(t);
    if u.len() > 0 {
        assert(u[0] == t[0]);
    }
    assert(trim_start(u) == u);
    assert(trim_end(u) == u);
}

/// Whether an address is a loopback address does not depend on whitespace
/// around it.
pub proof fn law_loopback_ignores_whitespace(ip: Seq<char>)
    ensures
        is_loopback_text(trim(ip)) == is_loopback_text(ip),
{
    law_trim_idempotent(ip);
}

/// An external id is the target of some external connection.
pub proof fn lemma_external_id_origin(rs: Seq<Record>, x: Seq<char>)
    requires
        external_ids(rs).contains(x),
    ensures
        exists|i: int| 0 <= i < rs.len() && rs[i].is_external && #[trigger] rs[i].target == x,
    decreases rs.len(),
{
    lemma_distinct_contents(external_targets(rs));
    let t = rs.drop_last();
    lemma_distinct_contents(external_targets(t));
    let m = choose|m: int| 0 <= m < external_targets(rs).len() && external_targets(rs)[m] == x;
    if m < external_targets(t).len() {
        assert(external_targets(t)[m] == x);
        assert(external_ids(t).contains(x));
        lemma_external_id_origin(t, x);
        let i = choose|i: int| 0 <= i < t.len() && t[i].is_external && #[trigger] t[i].target == x;
        assert(rs[i] == t[i]);
    } else {
        assert(rs.last().is_external && rs.last().target == x);
        assert(rs[rs.len() - 1].target == x);
    }
}

/// An external node is named by an address that no captured host lists
/// among its addresses or loopback addresses, and that is no loopback or
/// unspecified address.
pub proof fn law_external_nodes_unknown(g: GraphView, ms: Seq<MergedModel>)
    requires
        is_graph_of(g, ms),
    ensures
        forall|n: int|
            ms.len() <= n < g.nodes.len() ==> ip_owner(ms, (#[trigger] g.nodes[n]).id) is None
                && !is_loopback_text(g.nodes[n].id),
{
    let rs = graph_records(ms);
    let ids = external_ids(rs);
    assert forall|n: int| ms.len() <= n < g.nodes.len() implies ip_owner(ms, (#[trigger] g.nodes[n]).id) is None
        && !is_loopback_text(g.nodes[n].id) by {
        let x = n - ms.len();
        assert(g.nodes[n] == g.nodes.skip(ms.len() as int)[x]);
        assert(g.nodes[n].id == ids[x]);
        assert(ids.contains(ids[x]));
        lemma_external_id_origin(rs, ids[x]);
        let i = choose|i: int| 0 <= i < rs.len() && rs[i].is_external && #[trigger] rs[i].target == ids[x];
        lemma_record_target(ms, i);
    }
}

/// The names of the servers are pairwise different.
pub open spec fn distinct_hostnames(ms: Seq<MergedModel>) -> bool {
    forall|a: int, b: int|
        0 <= a < ms.len() && 0 <= b < ms.len() && a != b ==> #[trigger] ms[a].hostname
            != #[trigger] ms[b].hostname
}

/// Node ids identify nodes: where the servers' names are pairwise different,
/// no two nodes of their graph share an id (in particular no external node
/// takes a captured host's name).
pub proof fn law_node_ids_distinct(g: GraphView, ms: Seq<MergedModel>)
    requires
        is_graph_of(g, ms),
        distinct_hostnames(ms),
    ensures
        forall|a: int, b: int|
            0 <= a < g.nodes.len() && 0 <= b < g.nodes.len() && a != b ==> (#[trigger] g.nodes[a]).id
                != (#[trigger] g.nodes[b]).id,
{
    let rs = graph_records(ms);
    let ids = external_ids(rs);
    let n = ms.len() as int;
    let ext = g.nodes.skip(n);
    lemma_distinct_contents(external_targets(rs));
    assert forall|a: int, b: int|
        0 <= a < g.nodes.len() && 0 <= b < g.nodes.len() && a != b implies (#[trigger] g.nodes[a]).id
        != (#[trigger] g.nodes[b]).id by {
        if a < n && b < n {
            assert(internal_node_of(g.nodes[a], ms[a]));
            assert(internal_node_of(g.nodes[b], ms[b]));
        } else if a >= n && b >= n {
            assert(g.nodes[a] == ext[a - n]);
            assert(g.nodes[b] == ext[b - n]);
            assert(ext[a - n] == external_node(ids[a - n]));
            assert(ext[b - n] == external_node(ids[b - n]));
        } else {
            let (k, x) = if a < n {
                (a, b)
            } else {
                (b, a)
            };
            assert(internal_node_of(g.nodes[k], ms[k]));
            assert(g.nodes[x] == ext[x - n]);
            assert(ext[x - n] == external_node(ids[x - n]));
            assert(ids.contains(ids[x - n]));
            lemma_external_id_origin(rs, ids[x - n]);
            let i = choose|i: int| 0 <= i < rs.len() && rs[i].is_external && #[trigger] rs[i].target == ids[x - n];
            lemma_record_target(ms, i);
            assert(host_names(ms).contains(ms[k].hostname));
        }
    }
}

/// In the graph of capture files no two nodes share an id: hosts are merged
/// by name, external nodes are distinct addresses, and no external node is
/// named like a captured host. Trimming only removes nodes, so the same holds
/// of the trimmed graph.
pub proof fn law_graph_node_ids_distinct(files: Seq<FileView>, g: GraphView)
    requires
        is_graph_of(g, merged_models(files)),
    ensures
        forall|a: int, b: int|
            0 <= a < g.nodes.len() && 0 <= b < g.nodes.len() && a != b ==> (#[trigger] g.nodes[a]).id
                != (#[trigger] g.nodes[b]).id,
        forall|a: int, b: int|
            0 <= a < kept_nodes(g.nodes, g.edges).len() && 0 <= b < kept_nodes(
                g.nodes,
                g.edges,
            ).len() && a != b ==> (#[trigger] kept_nodes(g.nodes, g.edges)[a]).id != (
            #[trigger] kept_nodes(g.nodes, g.edges)[b]).id,
{
    let ms = merged_models(files);
    lemma_distinct_contents(hostnames(files));
    assert forall|a: int, b: int|
        0 <= a < ms.len() && 0 <= b < ms.len() && a != b implies #[trigger] ms[a].hostname
        != #[trigger] ms[b].hostname by {
        assert(ms[a] == merged_model(files, hosts(files)[a]));
        assert(ms[b] == merged_model(files, hosts(files)[b]));
    }
    law_node_ids_distinct(g, ms);
    let pn = |n: NodeView| keeps_node(g.edges, n);
    let id_of = |n: NodeView| n.id;
    assert forall|a: int, b: int|
        0 <= a < g.nodes.len() && 0 <= b < g.nodes.len() && a != b implies id_of(
        #[trigger] g.nodes[a],
    ) != id_of(#[trigger] g.nodes[b]) by {}
    lemma_filter_distinct_keys(g.nodes, pn, id_of);
    let kn = kept_nodes(g.nodes, g.edges);
    assert forall|a: int, b: int|
        0 <= a < kn.len() && 0 <= b < kn.len() && a != b implies (#[trigger] kn[a]).id != (
        #[trigger] kn[b]).id by {
        assert(id_of(kn[a]) != id_of(kn[b]));
    }
}

/// An external id is no captured host's name.
pub proof fn law_external_targets_unnamed(ms: Seq<MergedModel>, x: Seq<char>)
    requires
        external_ids(graph_records(ms)).contains(x),
    ensures
        !host_names(ms).contains(x),
        ip_owner(ms, x) is None,
        !is_loopback_text(x),
{
    let rs = graph_records(ms);
    lemma_external_id_origin(rs, x);
    let i = choose|i: int| 0 <= i < rs.len() && rs[i].is_external && #[trigger] rs[i].target == x;
    lemma_record_target(ms, i);
}

/// Every connection of every server appeared at least once.
pub open spec fn all_counted(ms: Seq<MergedModel>) -> bool {
    forall|k: int, j: int|
        0 <= k < ms.len() && 0 <= j < ms[k].connections.len() ==> #[trigger] ms[k].appearances[j]
            >= 1
}

/// A classified connection counts as often as its merged connection appeared.
proof fn lemma_records_counted(ms: Seq<MergedModel>, owners: AddressBook, i: int)
    requires
        0 <= i < records_of(ms, owners).len(),
        all_counted(ms),
    ensures
        records_of(ms, owners)[i].appearances >= 1,
{
    lemma_record_origin(ms, owners, i);
    let (k, j) = choose|k: int, j: int|
        0 <= k < ms.len() && 0 <= j < ms[k].connections.len() && #[trigger] records_of(
            ms,
            owners,
        )[i] == record_of(ms[k], j, owners);
    assert(ms[k].appearances[j] >= 1);
}

/// Where every connection counts at least once, an edge has no more distinct
/// ports than it counts connections.
proof fn lemma_ports_within_count(rs: Seq<Record>, key: EdgeKey)
    requires
        forall|i: int| 0 <= i < rs.len() ==> #[trigger] rs[i].appearances >= 1,
    ensures
        edge_ports(rs, key).finite(),
        edge_ports(rs, key).len() <= edge_count(rs, key),
    decreases rs.len(),
{
    if rs.len() == 0 {
        assert(edge_ports(rs, key) =~= Set::empty());
    } else {
        let t = rs.drop_last();
        assert forall|i: int| 0 <= i < t.len() implies #[trigger] t[i].appearances >= 1 by {
            assert(t[i] == rs[i]);
        }
        lemma_ports_within_count(t, key);
        lemma_records_push(t, rs.last(), key);
        assert(t.push(rs.last()) =~= rs);
        assert(rs[rs.len() - 1].appearances >= 1);
    }
}

/// A strictly increasing list of ports has as many ports as distinct ones.
proof fn lemma_sorted_ports_len(ports: Seq<u16>)
    requires
        ports_strictly_sorted(ports),
    ensures
        ports.len() == ports.to_set().len(),
{
    assert forall|a: int, b: int|
        0 <= a < ports.len() && 0 <= b < ports.len() && a != b implies ports[a] != ports[b] by {
        if a < b {
            assert(ports[a] < ports[b]);
        } else {
            assert(ports[b] < ports[a]);
        }
    }
    ports.unique_seq_to_set();
}

/// An edge lists at least one port, and no more ports than the connections
/// it counts: each port was seen at least once.
pub proof fn law_ports_within_count(g: GraphView, ms: Seq<MergedModel>)
    requires
        is_graph_of(g, ms),
        all_counted(ms),
    ensures
        forall|i: int|
            0 <= i < g.edges.len() ==> 1 <= (#[trigger] g.edges[i]).ports.len()
                <= g.edges[i].connection_count,
{
    let rs = graph_records(ms);
    assert forall|i: int| 0 <= i < rs.len() implies #[trigger] rs[i].appearances >= 1 by {
        lemma_records_counted(ms, address_book(ms), i);
    }
    assert forall|i: int| 0 <= i < g.edges.len() implies 1 <= (#[trigger] g.edges[i]).ports.len()
        <= g.edges[i].connection_count by {
        let e = g.edges[i];
        let key = edge_key(e);
        assert(edge_sums_up(e, rs));
        assert(has_key(rs, key));
        lemma_ports_within_count(rs, key);
        lemma_sorted_ports_len(e.ports);
        let r = choose|r: int| 0 <= r < rs.len() && #[trigger] record_key(rs[r]) == key;
        assert(edge_ports(rs, key).contains(rs[r].port));
        assert(e.ports.to_set().contains(rs[r].port));
    }
}

/// Merging counts every kept connection at least once.
proof fn lemma_merged_counted(files: Seq<FileView>)
    ensures
        all_counted(merged_models(files)),
{
    let ms = merged_models(files);
    assert forall|k: int, j: int|
        0 <= k < ms.len() && 0 <= j < ms[k].connections.len() implies #[trigger] ms[k].appearances[j]
        >= 1 by {
        let h = hosts(files)[k];
        let eps = endpoints_of(files, h);
        let d = distinct_in_order(eps);
        assert(ms[k] == merged_model(files, h));
        lemma_distinct_contents(eps);
        assert(d.contains(d[j]));
        lemma_occurrences_bound(eps, d[j]);
    }
}

/// In the graph of capture files, trimmed or not, every edge lists at least
/// one port, and counts at least as many connections as it lists ports.
pub proof fn law_graph_ports_within_count(files: Seq<FileView>, full: GraphView)
    requires
        is_graph_of(full, merged_models(files)),
    ensures
        forall|i: int|
            0 <= i < full.edges.len() ==> 1 <= (#[trigger] full.edges[i]).ports.len()
                <= full.edges[i].connection_count,
        forall|i: int|
            0 <= i < kept_edges(full.edges).len() ==> 1 <= (#[trigger] kept_edges(
                full.edges,
            )[i]).ports.len() <= kept_edges(full.edges)[i].connection_count,
{
    let es = full.edges;
    lemma_merged_counted(files);
    law_ports_within_count(full, merged_models(files));
    let pe = |e: EdgeView| keeps_edge(es, e);
    assert forall|i: int| 0 <= i < kept_edges(es).len() implies 1 <= (#[trigger] kept_edges(
        es,
    )[i]).ports.len() <= kept_edges(es)[i].connection_count by {
        let ke = kept_edges(es);
        assert(ke.contains(ke[i]));
        es.lemma_filter_contains_rev(pe, ke[i]);
        let j = choose|j: int| 0 <= j < es.len() && es[j] == ke[i];
        assert(1 <= es[j].ports.len() <= es[j].connection_count);
    }
}

/// An external edge counts toward the external edges of its own target.
proof fn lemma_external_edge_counted(es: Seq<EdgeView>, i: int)
    requires
        0 <= i < es.len(),
        es[i].is_external,
    ensures
        external_edge_count(es, es[i].target) >= 1,
    decreases es.len(),
{
    if i < es.len() - 1 {
        assert(es.drop_last()[i] == es[i]);
        lemma_external_edge_counted(es.drop_last(), i);
    }
}

/// Every external node of the graph is reached by at least one external
/// edge.
proof fn lemma_external_node_reached(g: GraphView, ms: Seq<MergedModel>, n: int)
    requires
        is_graph_of(g, ms),
        0 <= n < g.nodes.len(),
        g.nodes[n].is_external,
    ensures
        external_edge_count(g.edges, g.nodes[n].id) >= 1,
{
    let rs = graph_records(ms);
    let ids = external_ids(rs);
    law_node_names(g, ms);
    assert(n >= ms.len()) by {
        if n < ms.len() {
            assert(internal_node_of(g.nodes[n], ms[n]));
        }
    }
    let x = g.nodes[n].id;
    assert(g.nodes[n] == g.nodes.skip(ms.len() as int)[n - ms.len()]);
    assert(x == ids[n - ms.len()]);
    assert(ids.contains(x));
    lemma_external_id_origin(rs, x);
    let i = choose|i: int| 0 <= i < rs.len() && rs[i].is_external && #[trigger] rs[i].target == x;
    let key = record_key(rs[i]);
    assert(has_key(rs, key));
    let j = choose|j: int| 0 <= j < g.edges.len() && edge_key(#[trigger] g.edges[j]) == key;
    assert(edge_sums_up(g.edges[j], rs));
    lemma_flags_from_record(rs, key);
    let i2 = choose|i2: int|
        0 <= i2 < rs.len() && #[trigger] record_key(rs[i2]) == key && edge_flags(rs, key) == (
            rs[i2].is_external,
            rs[i2].is_self_loop,
        );
    lemma_record_target(ms, i2);
    law_external_targets_unnamed(ms, x);
    if !rs[i2].is_external {
        let k = choose|k: int| 0 <= k < ms.len() && #[trigger] ms[k].hostname == rs[i2].target;
        assert(host_names(ms).contains(ms[k].hostname));
    }
    assert(g.edges[j].is_external && g.edges[j].target == x);
    lemma_external_edge_counted(g.edges, j);
}

/// Trimming keeps every internal node and edge, and removes exactly the
/// external nodes that fewer than two external edges reach, with the
/// external edges that lead to them.
pub proof fn law_trim_fewer_than_two(g: GraphView, ms: Seq<MergedModel>)
    requires
        is_graph_of(g, ms),
    ensures
        kept_nodes(g.nodes, g.edges) == g.nodes.filter(
            |n: NodeView| !n.is_external || external_edge_count(g.edges, n.id) >= 2,
        ),
        kept_edges(g.edges) == g.edges.filter(
            |e: EdgeView| !e.is_external || external_edge_count(g.edges, e.target) >= 2,
        ),
{
    let es = g.edges;
    let ns = g.nodes;
    let pn = |n: NodeView| keeps_node(es, n);
    let qn = |n: NodeView| !n.is_external || external_edge_count(es, n.id) >= 2;
    let pe = |e: EdgeView| keeps_edge(es, e);
    let qe = |e: EdgeView| !e.is_external || external_edge_count(es, e.target) >= 2;
    assert forall|i: int| 0 <= i < ns.len() implies pn(#[trigger] ns[i]) == qn(ns[i]) by {
        if ns[i].is_external {
            lemma_external_node_reached(g, ms, i);
        }
    }
    assert forall|i: int| 0 <= i < es.len() implies pe(#[trigger] es[i]) == qe(es[i]) by {
        if es[i].is_external {
            lemma_external_edge_counted(es, i);
        }
    }
    lemma_filter_agree(ns, pn, qn);
    lemma_filter_agree(es, pe, qe);
}

/// An entry that is not read (not a capture file by name, or not parsed)
/// changes nothing of what is read, wherever it stands among the entries.
pub proof fn law_unread_entry_ignored(es: Seq<EntryView>, pos: int, x: EntryView)
    requires
        0 <= pos <= es.len(),
        !entry_read(x),
    ensures
        read_files(es.insert(pos, x)) == read_files(es),
{
    let p = |e: EntryView| entry_read(e);
    let a = es.take(pos);
    let b = es.skip(pos);
    assert(es.insert(pos, x) =~= a.push(x) + b);
    assert(es =~= a + b);
    Seq::filter_distributes_over_add(a.push(x), b, p);
    Seq::filter_distributes_over_add(a, b, p);
    assert(a.push(x).filter(p) == a.filter(p)) by {
        reveal(Seq::filter);
        assert(a.push(x).drop_last() =~= a);
    }
}

/// Adding to a folder a file that is not read (not named `*.json`, named
/// `graph.json`, or not parseable as a capture) leaves the graph as it was.
pub proof fn law_unread_entry_keeps_graph(
    es: Seq<EntryView>,
    pos: int,
    x: EntryView,
    g1: GraphView,
    g2: GraphView,
)
    requires
        0 <= pos <= es.len(),
        !entry_read(x),
        is_graph_of(g1, merged_models(read_files(es))),
        is_graph_of(g2, merged_models(read_files(es.insert(pos, x)))),
    ensures
        g1 == g2,
{
    law_unread_entry_ignored(es, pos, x);
    law_graph_determined(g1, g2, merged_models(read_files(es)));
}

/// No two edges of the graph join the same pair of nodes; in particular the
/// external edges that reach one address come from different hosts, so an
/// address that two external edges reach is reached from two hosts.
pub proof fn law_edges_join_distinct_pairs(g: GraphView, ms: Seq<MergedModel>)
    requires
        is_graph_of(g, ms),
    ensures
        forall|i: int, j: int|
            0 <= i < g.edges.len() && 0 <= j < g.edges.len() && i != j && (#[trigger] g.edges[i]).target
                == (#[trigger] g.edges[j]).target ==> g.edges[i].source != g.edges[j].source,
{
    assert forall|i: int, j: int|
        0 <= i < g.edges.len() && 0 <= j < g.edges.len() && i != j && (#[trigger] g.edges[i]).target
            == (#[trigger] g.edges[j]).target implies g.edges[i].source != g.edges[j].source by {
        let (a, b) = if i < j {
            (i, j)
        } else {
            (j, i)
        };
        assert(key_less(edge_key(g.edges[a]), edge_key(g.edges[b])));
        if g.edges[a].source == g.edges[b].source {
            lemma_key_less_irreflexive(edge_key(g.edges[a]));
        }
    }
}

/// Trimming keeps the edges strictly sorted by source, then target.
pub proof fn law_trimmed_edges_sorted(es: Seq<EdgeView>)
    requires
        edges_sorted(es),
    ensures
        edges_sorted(kept_edges(es)),
{
    let pe = |e: EdgeView| keeps_edge(es, e);
    let rel = |a: EdgeView, b: EdgeView| key_less(edge_key(a), edge_key(b));
    assert forall|i: int, j: int| 0 <= i < j < es.len() implies rel(#[trigger] es[i], #[trigger] es[j]) by {}
    lemma_filter_keeps_order(es, pe, rel);
    let ke = kept_edges(es);
    assert forall|i: int, j: int| 0 <= i < j < ke.len() implies key_less(
        edge_key(#[trigger] ke[i]),
        edge_key(#[trigger] ke[j]),
    ) by {
        assert(rel(ke[i], ke[j]));
    }
}

} // verus!
