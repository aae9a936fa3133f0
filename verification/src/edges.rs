//! Turning every merged connection into a graph edge: where a connection
//! leads, and how the connections between two nodes add up to one edge.

use vstd::prelude::*;
use crate::address::{is_loopback_ip, is_loopback_text};
use crate::ipmap::{AddressBook, IpMap};
use crate::merge::MergedModel;
use crate::model::{EdgeView, GraphEdge, edge_views};
use crate::order::{
    chars_less, insert_sorted_port, lemma_chars_less_irreflexive, lemma_chars_less_total,
    lemma_chars_less_transitive, ports_strictly_sorted, str_less,
};

verus! {

/// Where a connection of host `h` to address `ip` leads, as
/// `(target id, is_external, is_self_loop)`: a loopback address leads back to
/// `h`; an address that some captured host owns leads to that host (a self
/// loop when the owner is `h`); an address that is itself the name of a
/// captured host leads to that host's node, so that no external node takes a
/// captured host's name; any other address leads to an external node named
/// by the address.
pub open spec fn classify(h: Seq<char>, ip: Seq<char>, book: AddressBook) -> (
    Seq<char>,
    bool,
    bool,
) {
    if is_loopback_text(ip) {
        (h, false, true)
    } else if book.owners.contains_key(ip) {
        (book.owners[ip], false, book.owners[ip] == h)
    } else if book.hosts.contains(ip) {
        (ip, false, ip == h)
    } else {
        (ip, true, false)
    }
}

/// The node that a connection leads to.
pub struct Target {
    pub id: String,
    pub is_external: bool,
    pub is_self_loop: bool,
}

/// Classifies a connection of `hostname` to `remote_ip`: loopback by range
/// first, then a known address of a captured host, then the name of a
/// captured host, else an external node.
pub fn classify_target(hostname: &String, remote_ip: &String, ip_map: &IpMap) -> (t: Target)
    ensures
        (t.id@, t.is_external, t.is_self_loop) == classify(hostname@, remote_ip@, ip_map@),
{
    if is_loopback_ip(remote_ip.as_str()) {
        Target { id: hostname.clone(), is_external: false, is_self_loop: true }
    } else {
        match ip_map.get(remote_ip) {
            Some(owner) => {
                let is_loop = *owner == *hostname;
                Target { id: owner.clone(), is_external: false, is_self_loop: is_loop }
            },
            None => {
                if ip_map.is_host(remote_ip) {
                    let is_loop = *remote_ip == *hostname;
                    Target { id: remote_ip.clone(), is_external: false, is_self_loop: is_loop }
                } else {
                    Target { id: remote_ip.clone(), is_external: true, is_self_loop: false }
                }
            },
        }
    }
}

/// One merged connection, classified.
pub struct Record {
    pub source: Seq<char>,
    pub target: Seq<char>,
    pub is_external: bool,
    pub is_self_loop: bool,
    pub port: u16,
    pub appearances: nat,
}

/// The `j`-th connection of `m`, classified.
pub open spec fn record_of(m: MergedModel, j: int, owners: AddressBook) -> Record {
    let c = m.connections[j];
    let t = classify(m.hostname, c.0, owners);
    Record {
        source: m.hostname,
        target: t.0,
        is_external: t.1,
        is_self_loop: t.2,
        port: c.1,
        appearances: m.appearances[j],
    }
}

/// The connections of one server, classified, in order.
pub open spec fn server_records(m: MergedModel, owners: AddressBook) -> Seq<Record> {
    Seq::new(m.connections.len(), |j: int| record_of(m, j, owners))
}

/// The connections of all servers, classified, server after server.
pub open spec fn records_of(ms: Seq<MergedModel>, owners: AddressBook) -> Seq<
    Record,
>
    decreases ms.len(),
{
    if ms.len() == 0 {
        Seq::empty()
    } else {
        records_of(ms.drop_last(), owners) + server_records(ms.last(), owners)
    }
}

/// An edge is identified by its source and its target.
pub type EdgeKey = (Seq<char>, Seq<char>);

pub open spec fn record_key(r: Record) -> EdgeKey {
    (r.source, r.target)
}

pub open spec fn edge_key(e: EdgeView) -> EdgeKey {
    (e.source, e.target)
}

/// Edges are ordered by source, then by target.
pub open spec fn key_less(a: EdgeKey, b: EdgeKey) -> bool {
    chars_less(a.0, b.0) || (a.0 == b.0 && chars_less(a.1, b.1))
}

/// Some connection gives an edge with this key.
pub open spec fn has_key(rs: Seq<Record>, key: EdgeKey) -> bool {
    exists|i: int| 0 <= i < rs.len() && #[trigger] record_key(rs[i]) == key
}

/// The ports of the connections that make up the edge `key`.
pub open spec fn edge_ports(rs: Seq<Record>, key: EdgeKey) -> Set<u16> {
    Set::new(
        |p: u16| exists|i: int| 0 <= i < rs.len() && #[trigger] record_key(rs[i]) == key && rs[i].port == p,
    )
}

/// The sum of the appearance counts of the connections that make up the
/// edge `key`.
pub open spec fn edge_count(rs: Seq<Record>, key: EdgeKey) -> nat
    decreases rs.len(),
{
    if rs.len() == 0 {
        0
    } else {
        edge_count(rs.drop_last(), key) + if record_key(rs.last()) == key {
            rs.last().appearances
        } else {
            0nat
        }
    }
}

/// `(is_external, is_self_loop)` of the first connection that makes up the
/// edge `key`.
pub open spec fn edge_flags(rs: Seq<Record>, key: EdgeKey) -> (bool, bool)
    decreases rs.len(),
{
    if rs.len() == 0 {
        (false, false)
    } else if has_key(rs.drop_last(), key) {
        edge_flags(rs.drop_last(), key)
    } else if record_key(rs.last()) == key {
        (rs.last().is_external, rs.last().is_self_loop)
    } else {
        (false, false)
    }
}

/// The sum of all appearance counts.
pub open spec fn records_total(rs: Seq<Record>) -> nat
    decreases rs.len(),
{
    if rs.len() == 0 {
        0
    } else {
        records_total(rs.drop_last()) + rs.last().appearances
    }
}

/// Edge `e` sums up the connections of its key: its ports, strictly sorted;
/// its total count; the flags of its first connection.
pub open spec fn edge_sums_up(e: EdgeView, rs: Seq<Record>) -> bool {
    &&& ports_strictly_sorted(e.ports)
    &&& e.ports.to_set() == edge_ports(rs, edge_key(e))
    &&& e.connection_count == edge_count(rs, edge_key(e))
    &&& (e.is_external, e.is_self_loop) == edge_flags(rs, edge_key(e))
}

/// Strictly increasing keys.
pub open spec fn edges_sorted(es: Seq<EdgeView>) -> bool {
    forall|i: int, j: int| 0 <= i < j < es.len() ==> key_less(edge_key(#[trigger] es[i]), edge_key(#[trigger] es[j]))
}

/// `es` holds exactly one edge per key of `rs`, sorted by key, each summing
/// up its connections.
pub open spec fn edges_sum_up(es: Seq<EdgeView>, rs: Seq<Record>) -> bool {
    &&& edges_sorted(es)
    &&& forall|i: int| 0 <= i < es.len() ==> has_key(rs, edge_key(#[trigger] es[i]))
    &&& forall|i: int| 0 <= i < es.len() ==> edge_sums_up(#[trigger] es[i], rs)
    &&& forall|key: EdgeKey| #[trigger] has_key(rs, key) ==> exists|i: int| 0 <= i < es.len() && edge_key(#[trigger] es[i]) == key
}

pub proof fn lemma_key_less_irreflexive(a: EdgeKey)
    ensures
        !key_less(a, a),
{
    lemma_chars_less_irreflexive(a.0);
    lemma_chars_less_irreflexive(a.1);
}

pub proof fn lemma_key_less_transitive(a: EdgeKey, b: EdgeKey, c: EdgeKey)
    requires
        key_less(a, b),
        key_less(b, c),
    ensures
        key_less(a, c),
{
    if chars_less(a.0, b.0) && chars_less(b.0, c.0) {
        lemma_chars_less_transitive(a.0, b.0, c.0);
    } else if a.0 == b.0 && b.0 == c.0 {
        lemma_chars_less_transitive(a.1, b.1, c.1);
    }
}

pub proof fn lemma_key_less_total(a: EdgeKey, b: EdgeKey)
    requires
        a != b,
    ensures
        key_less(a, b) || key_less(b, a),
{
    if a.0 != b.0 {
        lemma_chars_less_total(a.0, b.0);
    } else {
        assert(a.1 != b.1);
        lemma_chars_less_total(a.1, b.1);
    }
}

/// How the summaries change when one more connection is taken in.
pub proof fn lemma_records_push(rs: Seq<Record>, r: Record, key: EdgeKey)
    ensures
        has_key(rs.push(r), key) == (has_key(rs, key) || record_key(r) == key),
        edge_ports(rs.push(r), key) == if record_key(r) == key {
            edge_ports(rs, key).insert(r.port)
        } else {
            edge_ports(rs, key)
        },
        edge_count(rs.push(r), key) == edge_count(rs, key) + if record_key(r) == key {
            r.appearances
        } else {
            0nat
        },
        edge_flags(rs.push(r), key) == if has_key(rs, key) {
            edge_flags(rs, key)
        } else if record_key(r) == key {
            (r.is_external, r.is_self_loop)
        } else {
            (false, false)
        },
        records_total(rs.push(r)) == records_total(rs) + r.appearances,
{
    let t = rs.push(r);
    assert(t.drop_last() =~= rs);
    assert(t[rs.len() as int] == r);
    if has_key(rs, key) {
        let i = choose|i: int| 0 <= i < rs.len() && #[trigger] record_key(rs[i]) == key;
        assert(record_key(t[i]) == key);
    }
    if has_key(t, key) && record_key(r) != key {
        let i = choose|i: int| 0 <= i < t.len() && #[trigger] record_key(t[i]) == key;
        assert(record_key(rs[i]) == key);
    }
    assert forall|p: u16| #[trigger] edge_ports(t, key).contains(p) <==> (edge_ports(rs, key).contains(p) || (record_key(r) == key && r.port == p)) by {
        if edge_ports(t, key).contains(p) {
            let i = choose|i: int| 0 <= i < t.len() && #[trigger] record_key(t[i]) == key && t[i].port == p;
            if i < rs.len() {
                assert(record_key(rs[i]) == key && rs[i].port == p);
            }
        }
        if edge_ports(rs, key).contains(p) {
            let i = choose|i: int| 0 <= i < rs.len() && #[trigger] record_key(rs[i]) == key && rs[i].port == p;
            assert(record_key(t[i]) == key && t[i].port == p);
        }
    }
    if record_key(r) == key {
        assert(edge_ports(t, key) =~= edge_ports(rs, key).insert(r.port));
    } else {
        assert(edge_ports(t, key) =~= edge_ports(rs, key));
    }
}

/// An edge's count never exceeds the total of all counts.
pub proof fn lemma_edge_count_bound(rs: Seq<Record>, key: EdgeKey)
    ensures
        edge_count(rs, key) <= records_total(rs),
    decreases rs.len(),
{
    if rs.len() > 0 {
        lemma_edge_count_bound(rs.drop_last(), key);
    }
}

/// Whether edge `e` has key `(source, target)`.
fn edge_has_key(e: &GraphEdge, source: &String, target: &String) -> (r: bool)
    ensures
        r == (edge_key(e@) == (source@, target@)),
{
    e.source == *source && e.target == *target
}

/// Whether edge `e` comes before the key `(source, target)`.
fn edge_before(e: &GraphEdge, source: &String, target: &String) -> (r: bool)
    ensures
        r == key_less(edge_key(e@), (source@, target@)),
{
    str_less(e.source.as_str(), source.as_str()) || (e.source == *source && str_less(
        e.target.as_str(),
        target.as_str(),
    ))
}

/// Takes one more classified connection into the sorted edge list.
pub fn add_record(
    edges: &mut Vec<GraphEdge>,
    source: &String,
    target: &Target,
    port: u16,
    appearances: usize,
    Ghost(rs): Ghost<Seq<Record>>,
)
    requires
        edges_sum_up(edge_views(old(edges)@), rs),
        records_total(rs) + appearances <= usize::MAX,
    ensures
        edges_sum_up(
            edge_views(final(edges)@),
            rs.push(
                Record {
                    source: source@,
                    target: target.id@,
                    is_external: target.is_external,
                    is_self_loop: target.is_self_loop,
                    port: port,
                    appearances: appearances as nat,
                },
            ),
        ),
{
    let ghost r = Record {
        source: source@,
        target: target.id@,
        is_external: target.is_external,
        is_self_loop: target.is_self_loop,
        port: port,
        appearances: appearances as nat,
    };
    let ghost key = record_key(r);
    let ghost es0 = edge_views(edges@);
    let ghost rs2 = rs.push(r);
    let mut p: usize = 0;
    while p < edges.len() && edge_before(&edges[p], source, &target.id)
        invariant
            p <= edges@.len(),
            es0 == edge_views(edges@),
            key == (source@, target.id@),
            forall|k: int| 0 <= k < p ==> key_less(edge_key(#[trigger] es0[k]), key),
        decreases edges@.len() - p,
    {
        assert(es0[p as int] == edges@[p as int]@);
        p = p + 1;
    }
    if p < edges.len() && edge_has_key(&edges[p], source, &target.id) {
        assert(es0[p as int] == edges@[p as int]@);
        proof {
            lemma_edge_count_bound(rs, key);
            lemma_records_push(rs, r, key);
        }
        let ghost old_e = edges@[p as int];
        insert_sorted_port(&mut edges[p].ports, port);
        let c = edges[p].connection_count;
        edges[p].connection_count = c + appearances;
        let ghost es1 = edge_views(edges@);
        assert(es1 =~= es0.update(p as int, es1[p as int]));
        assert forall|i: int| 0 <= i < es1.len() implies has_key(rs2, edge_key(#[trigger] es1[i])) && edge_sums_up(es1[i], rs2) by {
            lemma_records_push(rs, r, edge_key(es1[i]));
            if i != p {
                assert(es1[i] == es0[i]);
                assert(has_key(rs, edge_key(es0[i])));
                if i < p {
                    assert(key_less(edge_key(es0[i]), edge_key(es0[p as int])));
                } else {
                    assert(key_less(edge_key(es0[p as int]), edge_key(es0[i])));
                }
                lemma_key_less_irreflexive(edge_key(es0[i]));
                assert(edge_key(es0[i]) != key);
            } else {
                assert(edge_key(es1[i]) == key);
                assert(es1[i].ports.to_set() =~= edge_ports(rs2, key));
            }
        }
        assert forall|k2: EdgeKey| #[trigger] has_key(rs2, k2) implies exists|i: int| 0 <= i < es1.len() && edge_key(#[trigger] es1[i]) == k2 by {
            lemma_records_push(rs, r, k2);
            if k2 == key {
                assert(edge_key(es1[p as int]) == k2);
            } else {
                let i = choose|i: int| 0 <= i < es0.len() && edge_key(#[trigger] es0[i]) == k2;
                assert(edge_key(es1[i]) == k2);
            }
        }
        assert forall|i: int, j: int| 0 <= i < j < es1.len() implies key_less(edge_key(#[trigger] es1[i]), edge_key(#[trigger] es1[j])) by {
            assert(edge_key(es1[i]) == edge_key(es0[i]));
            assert(edge_key(es1[j]) == edge_key(es0[j]));
        }
    } else {
        // no edge has this key yet
        assert forall|k: int| p <= k < es0.len() implies key_less(key, edge_key(#[trigger] es0[k])) by {
            assert(es0[p as int] == edges@[p as int]@);
            assert(edge_key(es0[p as int]) != key);
            lemma_key_less_total(edge_key(es0[p as int]), key);
            if k > p {
                lemma_key_less_transitive(key, edge_key(es0[p as int]), edge_key(es0[k]));
            }
        }
        assert(!has_key(rs, key)) by {
            if has_key(rs, key) {
                let i = choose|i: int| 0 <= i < es0.len() && edge_key(#[trigger] es0[i]) == key;
                lemma_key_less_irreflexive(key);
                if i < p {
                    assert(key_less(edge_key(es0[i]), key));
                } else {
                    assert(key_less(key, edge_key(es0[i])));
                }
            }
        }
        proof {
            lemma_records_push(rs, r, key);
        }
        let mut ports: Vec<u16> = Vec::new();
        ports.push(port);
        let e = GraphEdge {
            source: source.clone(),
            target: target.id.clone(),
            ports: ports,
            connection_count: appearances,
            is_external: target.is_external,
            is_self_loop: target.is_self_loop,
        };
        edges.insert(p, e);
        let ghost es1 = edge_views(edges@);
        assert(es1 =~= es0.insert(p as int, e@));
        assert(edge_key(e@) == key);
        assert(edge_ports(rs, key) =~= Set::<u16>::empty()) by {
            assert forall|q: u16| !edge_ports(rs, key).contains(q) by {
                if edge_ports(rs, key).contains(q) {
                    let i = choose|i: int| 0 <= i < rs.len() && #[trigger] record_key(rs[i]) == key && rs[i].port == q;
                    assert(has_key(rs, key));
                }
            }
        }
        assert(e@.ports =~= seq![port]);
        assert forall|q: u16| #[trigger] e@.ports.to_set().contains(q) <==> q == port by {
            if q == port {
                assert(e@.ports[0] == q);
            }
        }
        assert(e@.ports.to_set() =~= edge_ports(rs2, key));
        assert(edge_count(rs, key) == 0) by {
            if edge_count(rs, key) > 0 {
                lemma_edge_count_positive(rs, key);
            }
        }
        assert forall|i: int| 0 <= i < es1.len() implies has_key(rs2, edge_key(#[trigger] es1[i])) && edge_sums_up(es1[i], rs2) by {
            lemma_records_push(rs, r, edge_key(es1[i]));
            if i < p {
                assert(es1[i] == es0[i]);
                lemma_key_less_irreflexive(key);
                assert(edge_key(es0[i]) != key);
            } else if i > p {
                assert(es1[i] == es0[i - 1]);
                lemma_key_less_irreflexive(key);
                assert(edge_key(es0[i - 1]) != key);
            }
        }
        assert forall|k2: EdgeKey| #[trigger] has_key(rs2, k2) implies exists|i: int| 0 <= i < es1.len() && edge_key(#[trigger] es1[i]) == k2 by {
            lemma_records_push(rs, r, k2);
            if k2 == key {
                assert(edge_key(es1[p as int]) == k2);
            } else {
                let i = choose|i: int| 0 <= i < es0.len() && edge_key(#[trigger] es0[i]) == k2;
                if i < p {
                    assert(edge_key(es1[i]) == k2);
                } else {
                    assert(edge_key(es1[i + 1]) == k2);
                }
            }
        }
        assert forall|i: int, j: int| 0 <= i < j < es1.len() implies key_less(edge_key(#[trigger] es1[i]), edge_key(#[trigger] es1[j])) by {
            if j < p {
            } else if j == p {
            } else if i < p {
                lemma_key_less_transitive(edge_key(es1[i]), key, edge_key(es1[j]));
            } else if i == p {
            } else {
            }
        }
    }
}

/// A key with a positive count is the key of some connection.
pub proof fn lemma_edge_count_positive(rs: Seq<Record>, key: EdgeKey)
    requires
        edge_count(rs, key) > 0,
    ensures
        has_key(rs, key),
    decreases rs.len(),
{
    if rs.len() > 0 {
        if record_key(rs.last()) == key {
            assert(record_key(rs[rs.len() - 1]) == key);
        } else {
            lemma_edge_count_positive(rs.drop_last(), key);
            let i = choose|i: int| 0 <= i < rs.drop_last().len() && #[trigger] record_key(rs.drop_last()[i]) == key;
            assert(record_key(rs[i]) == key);
        }
    }
}

/// A connection to an address that is no loopback address, that no captured
/// host lists, and that is no captured host's name leads to an external node
/// named by that very address, and is no self loop.
pub proof fn law_unknown_address_is_external(h: Seq<char>, ip: Seq<char>, book: AddressBook)
    requires
        !is_loopback_text(ip),
        !book.owners.contains_key(ip),
        !book.hosts.contains(ip),
    ensures
        classify(h, ip, book) == (ip, true, false),
{
}

/// What each kind of address leads to. A connection is external exactly when
/// its address is neither a loopback address, nor listed by a captured host,
/// nor a captured host's name; an external connection keeps its address as
/// target. A loopback address leads back to the source; a listed address leads
/// to the host that lists it. A self loop arises only from a loopback address,
/// an address the source host itself lists, or the source host's own name.
pub proof fn law_classify_cases(h: Seq<char>, ip: Seq<char>, book: AddressBook)
    ensures
        classify(h, ip, book).1 == (!is_loopback_text(ip) && !book.owners.contains_key(ip)
            && !book.hosts.contains(ip)),
        classify(h, ip, book).1 ==> classify(h, ip, book).0 == ip && !classify(h, ip, book).2,
        is_loopback_text(ip) ==> classify(h, ip, book) == (h, false, true),
        !is_loopback_text(ip) && book.owners.contains_key(ip) ==> classify(h, ip, book).0
            == book.owners[ip],
        classify(h, ip, book).2 ==> (is_loopback_text(ip) || (book.owners.contains_key(ip)
            && book.owners[ip] == h) || (!book.owners.contains_key(ip) && ip == h)),
        classify(h, ip, book).2 ==> classify(h, ip, book).0 == h,
        !classify(h, ip, book).1 && classify(h, ip, book).0 == h ==> classify(h, ip, book).2,
{
}

} // verus!
