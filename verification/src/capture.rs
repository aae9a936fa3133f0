//! The capture side: which local addresses a host reports, which sockets
//! count as connections, accumulating snapshots, and the capture file.

use vstd::prelude::*;
use crate::model::{
    Connection, ConnectionsFile, Endpoint, FileView, ServerInfo, ServerInfoView, endpoints,
};
use crate::order::str_views;
use crate::seqs::{distinct_in_order, lemma_distinct_contents, lemma_distinct_push};
use crate::text::{decimal, law_decimal_reads_back, parsed_u64, push_decimal};

verus! {

/// A network interface of the local host: its address, and whether it is a
/// loopback interface.
pub struct LocalInterface {
    pub ip: String,
    pub is_loopback: bool,
}

/// The addresses of the interfaces whose loopback flag is `loopback`, in
/// order.
pub open spec fn addresses_where(ifs: Seq<LocalInterface>, loopback: bool) -> Seq<Seq<char>>
    decreases ifs.len(),
{
    if ifs.len() == 0 {
        Seq::empty()
    } else {
        addresses_where(ifs.drop_last(), loopback) + if ifs.last().is_loopback == loopback {
            seq![ifs.last().ip@]
        } else {
            Seq::empty()
        }
    }
}

/// Splits the interfaces into `(ips, loopbacks)`, in interface order. When no
/// interface is a non-loopback one, `ips` is `["127.0.0.1"]`, so that a
/// capture always names at least one address.
pub fn split_local_ips(ifs: &Vec<LocalInterface>) -> (out: (Vec<String>, Vec<String>))
    ensures
        str_views(out.1@) == addresses_where(ifs@, true),
        str_views(out.0@) == if addresses_where(ifs@, false).len() == 0 {
            seq!["127.0.0.1"@]
        } else {
            addresses_where(ifs@, false)
        },
        out.0@.len() > 0,
{
    let mut ips: Vec<String> = Vec::new();
    let mut loopbacks: Vec<String> = Vec::new();
    let mut i: usize = 0;
    assert(ifs@.take(0) =~= Seq::<LocalInterface>::empty());
    while i < ifs.len()
        invariant
            i <= ifs@.len(),
            str_views(ips@) == addresses_where(ifs@.take(i as int), false),
            str_views(loopbacks@) == addresses_where(ifs@.take(i as int), true),
        decreases ifs@.len() - i,
    {
        let f = &ifs[i];
        assert(ifs@.take(i + 1).drop_last() =~= ifs@.take(i as int));
        assert(ifs@.take(i + 1).last() == ifs@[i as int]);
        let ghost ips0 = ips@;
        let ghost lbs0 = loopbacks@;
        if f.is_loopback {
            loopbacks.push(f.ip.clone());
            assert(str_views(loopbacks@) =~= str_views(lbs0) + seq![f.ip@]);
            assert(str_views(ips@) =~= str_views(ips0) + Seq::<Seq<char>>::empty());
        } else {
            ips.push(f.ip.clone());
            assert(str_views(ips@) =~= str_views(ips0) + seq![f.ip@]);
            assert(str_views(loopbacks@) =~= str_views(lbs0) + Seq::<Seq<char>>::empty());
        }
        i = i + 1;
    }
    assert(ifs@.take(i as int) =~= ifs@);
    if ips.len() == 0 {
        ips.push("127.0.0.1".to_owned());
        assert(str_views(ips@) =~= seq!["127.0.0.1"@]);
    }
    (ips, loopbacks)
}

/// A TCP socket of the local host: whether it is established, and its
/// remote endpoint.
pub struct SocketEntry {
    pub established: bool,
    pub remote_ip: String,
    pub remote_port: u16,
}

/// The remote endpoints of the established sockets with a remote port,
/// in order, repeats included.
pub open spec fn established_endpoints(es: Seq<SocketEntry>) -> Seq<Endpoint>
    decreases es.len(),
{
    if es.len() == 0 {
        Seq::empty()
    } else {
        established_endpoints(es.drop_last()) + if es.last().established && es.last().remote_port
            != 0 {
            seq![(es.last().remote_ip@, es.last().remote_port)]
        } else {
            Seq::empty()
        }
    }
}

/// The endpoints with a remote port (port 0 means no remote side), in
/// order, repeats included.
pub open spec fn remote_endpoints(cs: Seq<Endpoint>) -> Seq<Endpoint>
    decreases cs.len(),
{
    if cs.len() == 0 {
        Seq::empty()
    } else {
        remote_endpoints(cs.drop_last()) + if cs.last().1 != 0 {
            seq![cs.last()]
        } else {
            Seq::empty()
        }
    }
}

/// A set of remote endpoints, kept in order of first insertion.
pub struct ConnectionSet {
    items: Vec<Connection>,
}

impl View for ConnectionSet {
    type V = Seq<Endpoint>;

    closed spec fn view(&self) -> Seq<Endpoint> {
        endpoints(self.items@)
    }
}

impl ConnectionSet {
    #[verifier::type_invariant]
    spec fn no_repeats(&self) -> bool {
        endpoints(self.items@).no_duplicates()
    }

    /// The empty set.
    pub fn new() -> (s: ConnectionSet)
        ensures
            s@ == Seq::<Endpoint>::empty(),
    {
        let s = ConnectionSet { items: Vec::new() };
        assert(endpoints(s.items@) =~= Seq::<Endpoint>::empty());
        s
    }

    /// The number of endpoints.
    pub fn len(&self) -> (n: usize)
        ensures
            n == self@.len(),
            self@.no_duplicates(),
    {
        proof {
            use_type_invariant(self);
        }
        self.items.len()
    }

    /// Whether `(ip, port)` is in the set.
    pub fn contains(&self, ip: &String, port: u16) -> (r: bool)
        ensures
            r == self@.contains((ip@, port)),
    {
        let mut i: usize = 0;
        while i < self.items.len()
            invariant
                i <= self.items@.len(),
                forall|m: int| 0 <= m < i ==> #[trigger] endpoints(self.items@)[m] != (ip@, port),
            decreases self.items@.len() - i,
        {
            if self.items[i].remote_port == port && self.items[i].remote_ip == *ip {
                assert(endpoints(self.items@)[i as int] == (ip@, port));
                return true;
            }
            i = i + 1;
        }
        false
    }

    /// Adds `(ip, port)`; returns whether it was new.
    pub fn insert(&mut self, ip: String, port: u16) -> (added: bool)
        ensures
            added == !old(self)@.contains((ip@, port)),
            final(self)@ == distinct_in_order(old(self)@.push((ip@, port))),
            final(self)@ == if added {
                old(self)@.push((ip@, port))
            } else {
                old(self)@
            },
            final(self)@.no_duplicates(),
    {
        proof {
            use_type_invariant(&*self);
        }
        let ghost e = (ip@, port);
        let present = self.contains(&ip, port);
        proof {
            lemma_distinct_of_distinct(old(self)@);
            lemma_distinct_push(old(self)@, e);
        }
        if present {
            return false;
        }
        let ghost before = self@;
        let mut items: Vec<Connection> = Vec::new();
        std::mem::swap(&mut items, &mut self.items);
        items.push(Connection { remote_ip: ip, remote_port: port });
        assert(endpoints(items@) =~= before.push(e));
        assert(endpoints(items@).no_duplicates()) by {
            assert forall|a: int, b: int|
                0 <= a < endpoints(items@).len() && 0 <= b < endpoints(items@).len() && a
                    != b implies endpoints(items@)[a] != endpoints(items@)[b] by {
                if a < before.len() && b < before.len() {
                } else if a < before.len() {
                    assert(before.contains(before[a]));
                } else {
                    assert(before.contains(before[b]));
                }
            }
        }
        self.items = items;
        true
    }

    /// Adds every endpoint of `other` in its order; returns how many were new.
    pub fn extend_from(&mut self, other: &ConnectionSet) -> (added: usize)
        ensures
            final(self)@ == distinct_in_order(old(self)@ + other@),
            final(self)@.to_set() == old(self)@.to_set() + other@.to_set(),
            final(self)@.take(old(self)@.len() as int) == old(self)@,
            added == final(self)@.len() - old(self)@.len(),
            final(self)@.no_duplicates(),
    {
        proof {
            use_type_invariant(&*self);
            use_type_invariant(other);
            lemma_distinct_of_distinct(old(self)@);
        }
        let ghost a = old(self)@;
        let ghost b = other@;
        let start = self.len();
        let mut i: usize = 0;
        assert(a + b.take(0) =~= a);
        while i < other.items.len()
            invariant
                i <= other.items@.len(),
                b == endpoints(other.items@),
                self@ == distinct_in_order(a + b.take(i as int)),
                self@.to_set() == a.to_set() + b.take(i as int).to_set(),
                self@.take(a.len() as int) == a,
                self@.len() >= a.len(),
                start == a.len(),
            decreases other.items@.len() - i,
        {
            let c = &other.items[i];
            let ghost prev = self@;
            assert(b[i as int] == (c.remote_ip@, c.remote_port));
            assert(a + b.take(i + 1) =~= (a + b.take(i as int)).push(b[i as int]));
            assert(b.take(i + 1) =~= b.take(i as int).push(b[i as int]));
            self.insert(c.remote_ip.clone(), c.remote_port);
            proof {
                lemma_distinct_contents(a + b.take(i as int));
                lemma_distinct_push(a + b.take(i as int), b[i as int]);
                b.take(i as int).lemma_push_to_set_commute(b[i as int]);
                prev.lemma_push_to_set_commute(b[i as int]);
                assert(self@.to_set() =~= a.to_set() + b.take(i + 1).to_set());
                assert(self@.take(a.len() as int) =~= a);
            }
            i = i + 1;
        }
        assert(b.take(i as int) =~= b);
        let end = self.len();
        end - start
    }

    /// The endpoints as connections, in order.
    pub fn connections(&self) -> (v: Vec<Connection>)
        ensures
            endpoints(v@) == self@,
    {
        let mut v: Vec<Connection> = Vec::new();
        let mut i: usize = 0;
        while i < self.items.len()
            invariant
                i <= self.items@.len(),
                endpoints(v@) == endpoints(self.items@).take(i as int),
            decreases self.items@.len() - i,
        {
            let c = &self.items[i];
            let ghost v0 = v@;
            v.push(Connection { remote_ip: c.remote_ip.clone(), remote_port: c.remote_port });
            assert(endpoints(v@) =~= endpoints(v0).push(c@));
            assert(endpoints(self.items@).take(i + 1) =~= endpoints(self.items@).take(i as int).push(
                endpoints(self.items@)[i as int],
            ));
            assert(endpoints(v@) =~= endpoints(self.items@).take(i + 1));
            i = i + 1;
        }
        assert(endpoints(self.items@).take(i as int) =~= endpoints(self.items@));
        v
    }
}

/// A sequence without repeats is its own first appearances.
pub proof fn lemma_distinct_of_distinct<A>(s: Seq<A>)
    requires
        s.no_duplicates(),
    ensures
        distinct_in_order(s) == s,
    decreases s.len(),
{
    if s.len() > 0 {
        let t = s.drop_last();
        assert(t.no_duplicates());
        lemma_distinct_of_distinct(t);
        assert(!t.contains(s.last())) by {
            if t.contains(s.last()) {
                let i = choose|i: int| 0 <= i < t.len() && t[i] == s.last();
                assert(s[i] == s[s.len() - 1]);
            }
        }
        assert(t.push(s.last()) =~= s);
    }
}

/// The remote endpoints of the established sockets that have a remote port,
/// each once, in order of first appearance.
pub fn established_connections(entries: &Vec<SocketEntry>) -> (s: ConnectionSet)
    ensures
        s@ == distinct_in_order(established_endpoints(entries@)),
{
    let mut s = ConnectionSet::new();
    let mut i: usize = 0;
    assert(entries@.take(0) =~= Seq::<SocketEntry>::empty());
    while i < entries.len()
        invariant
            i <= entries@.len(),
            s@ == distinct_in_order(established_endpoints(entries@.take(i as int))),
        decreases entries@.len() - i,
    {
        let e = &entries[i];
        let ghost before = established_endpoints(entries@.take(i as int));
        assert(entries@.take(i + 1).drop_last() =~= entries@.take(i as int));
        assert(entries@.take(i + 1).last() == entries@[i as int]);
        if e.established && e.remote_port != 0 {
            assert(established_endpoints(entries@.take(i + 1)) =~= before.push(
                (e.remote_ip@, e.remote_port),
            ));
            proof {
                lemma_distinct_contents(before);
                lemma_distinct_push(before, (e.remote_ip@, e.remote_port));
            }
            s.insert(e.remote_ip.clone(), e.remote_port);
        } else {
            assert(established_endpoints(entries@.take(i + 1)) =~= before);
        }
        i = i + 1;
    }
    assert(entries@.take(i as int) =~= entries@);
    s
}

/// The connections that have a remote port, in order, repeats kept.
pub fn remote_connections(entries: &Vec<Connection>) -> (v: Vec<Connection>)
    ensures
        endpoints(v@) == remote_endpoints(endpoints(entries@)),
{
    let ghost cs = endpoints(entries@);
    let mut v: Vec<Connection> = Vec::new();
    let mut i: usize = 0;
    assert(cs.take(0) =~= Seq::<Endpoint>::empty());
    while i < entries.len()
        invariant
            i <= entries@.len(),
            cs == endpoints(entries@),
            endpoints(v@) == remote_endpoints(cs.take(i as int)),
        decreases entries@.len() - i,
    {
        let e = &entries[i];
        let ghost before = remote_endpoints(cs.take(i as int));
        let ghost v0 = v@;
        assert(cs.take(i + 1).drop_last() =~= cs.take(i as int));
        assert(cs.take(i + 1).last() == cs[i as int]);
        assert(cs[i as int] == (e.remote_ip@, e.remote_port));
        if e.remote_port != 0 {
            v.push(Connection { remote_ip: e.remote_ip.clone(), remote_port: e.remote_port });
            assert(endpoints(v@) =~= endpoints(v0).push((e.remote_ip@, e.remote_port)));
            assert(remote_endpoints(cs.take(i + 1)) =~= before.push((e.remote_ip@, e.remote_port)));
        } else {
            assert(remote_endpoints(cs.take(i + 1)) =~= before);
        }
        i = i + 1;
    }
    assert(cs.take(i as int) =~= cs);
    v
}

/// What watch mode keeps between scans.
pub struct WatchState {
    pub accumulated: ConnectionSet,
    pub scans: u64,
}

/// What one scan of watch mode reports: its number, the number of endpoints
/// accumulated so far and how many of them it added.
pub struct ScanReport {
    pub scan: u64,
    pub accumulated: usize,
    pub added: usize,
}

impl WatchState {
    /// No scan yet.
    pub fn new() -> (w: WatchState)
        ensures
            w.accumulated@ == Seq::<Endpoint>::empty(),
            w.scans == 0,
    {
        WatchState { accumulated: ConnectionSet::new(), scans: 0 }
    }

    /// Takes in one snapshot: the accumulated endpoints become the union of
    /// those seen before and those of the snapshot.
    pub fn record_scan(&mut self, snapshot: &ConnectionSet) -> (report: ScanReport)
        requires
            old(self).scans < u64::MAX,
        ensures
            final(self).accumulated@ == distinct_in_order(old(self).accumulated@ + snapshot@),
            final(self).accumulated@.to_set() == old(self).accumulated@.to_set()
                + snapshot@.to_set(),
            final(self).scans == old(self).scans + 1,
            report.scan == final(self).scans,
            report.accumulated == final(self).accumulated@.len(),
            report.added == final(self).accumulated@.len() - old(self).accumulated@.len(),
    {
        let added = self.accumulated.extend_from(snapshot);
        self.scans = self.scans + 1;
        let total = self.accumulated.len();
        ScanReport { scan: self.scans, accumulated: total, added }
    }
}

/// The number of 100 ms steps in an interval of `interval_secs` seconds.
pub fn sleep_steps(interval_secs: u64) -> (steps: u64)
    requires
        interval_secs * 10 <= u64::MAX,
    ensures
        steps == interval_secs * 10,
{
    interval_secs * 10
}

/// The capture file of a host: its name and addresses, and the endpoints it
/// was seen connected to, in the set's order.
pub fn make_capture(
    hostname: &str,
    ips: Vec<String>,
    loopbacks: Vec<String>,
    seen: &ConnectionSet,
) -> (file: ConnectionsFile)
    ensures
        file@ == (FileView {
            server: ServerInfoView {
                hostname: hostname@,
                ips: str_views(ips@),
                loopbacks: str_views(loopbacks@),
            },
            connections: seen@,
        }),
{
    ConnectionsFile {
        server: ServerInfo { hostname: hostname.to_owned(), ips, loopbacks },
        connections: seen.connections(),
    }
}

/// The name of a capture file: `<hostname>_<timestamp>.json`.
pub fn capture_file_name(hostname: &str, timestamp: u64) -> (name: String)
    ensures
        name@ == hostname@ + seq!['_'] + decimal(timestamp as nat) + seq!['.', 'j', 's', 'o', 'n'],
{
    let mut name = hostname.to_owned();
    let under = "_";
    let ext = ".json";
    proof {
        reveal_strlit("_");
        reveal_strlit(".json");
    }
    name.append(under);
    push_decimal(&mut name, timestamp);
    name.append(ext);
    assert(name@ =~= hostname@ + seq!['_'] + decimal(timestamp as nat) + seq!['.', 'j', 's', 'o', 'n']);
    name
}

/// The endpoints of the established sockets with a remote port are exactly
/// those sockets' endpoints: one of them appears exactly when some socket
/// is established, has a remote port, and has that endpoint, whatever its
/// address.
proof fn lemma_established_endpoints_contains(es: Seq<SocketEntry>, c: Endpoint)
    ensures
        established_endpoints(es).contains(c) <==> exists|i: int|
            0 <= i < es.len() && (#[trigger] es[i]).established && es[i].remote_port != 0 && (
            es[i].remote_ip@,
            es[i].remote_port,
        ) == c,
    decreases es.len(),
{
    if es.len() > 0 {
        let t = es.drop_last();
        let x = es.last();
        lemma_established_endpoints_contains(t, c);
        let tail = if x.established && x.remote_port != 0 {
            seq![(x.remote_ip@, x.remote_port)]
        } else {
            Seq::<Endpoint>::empty()
        };
        let all = established_endpoints(es);
        assert(all == established_endpoints(t) + tail);
        if all.contains(c) {
            let k = choose|k: int| 0 <= k < all.len() && all[k] == c;
            if k < established_endpoints(t).len() {
                assert(established_endpoints(t)[k] == c);
                assert(established_endpoints(t).contains(c));
                let i = choose|i: int|
                    0 <= i < t.len() && (#[trigger] t[i]).established && t[i].remote_port != 0 && (
                    t[i].remote_ip@,
                    t[i].remote_port,
                ) == c;
                assert(es[i] == t[i]);
            } else {
                assert(es[es.len() - 1] == x);
            }
        }
        if exists|i: int|
            0 <= i < es.len() && (#[trigger] es[i]).established && es[i].remote_port != 0 && (
            es[i].remote_ip@,
            es[i].remote_port,
        ) == c {
            let i = choose|i: int|
                0 <= i < es.len() && (#[trigger] es[i]).established && es[i].remote_port != 0 && (
                es[i].remote_ip@,
                es[i].remote_port,
            ) == c;
            if i < t.len() {
                assert(t[i] == es[i]);
                assert(established_endpoints(t).contains(c));
                let k = choose|k: int|
                    0 <= k < established_endpoints(t).len() && established_endpoints(t)[k] == c;
                assert(all[k] == c);
            } else {
                assert(all[all.len() - 1] == c);
            }
        }
    }
}

/// A capture holds every established socket that has a remote port, whatever
/// its address (loopback and private ones included), and nothing else; each
/// endpoint once.
pub proof fn law_capture_is_established_sockets(es: Seq<SocketEntry>, c: Endpoint)
    ensures
        distinct_in_order(established_endpoints(es)).contains(c) <==> exists|i: int|
            0 <= i < es.len() && (#[trigger] es[i]).established && es[i].remote_port != 0 && (
            es[i].remote_ip@,
            es[i].remote_port,
        ) == c,
        distinct_in_order(established_endpoints(es)).no_duplicates(),
{
    lemma_distinct_contents(established_endpoints(es));
    lemma_established_endpoints_contains(es, c);
}

/// The addresses of the interfaces with a given loopback flag are those
/// interfaces' addresses, in interface order, none left out: splitting the
/// interfaces by the flag loses no address and adds none.
pub proof fn law_addresses_by_flag(ifs: Seq<LocalInterface>, loopback: bool)
    ensures
        addresses_where(ifs, loopback) == ifs.filter(
            |f: LocalInterface| f.is_loopback == loopback,
        ).map_values(|f: LocalInterface| f.ip@),
        addresses_where(ifs, true).len() + addresses_where(ifs, false).len() == ifs.len(),
    decreases ifs.len(),
{
    reveal(Seq::filter);
    if ifs.len() > 0 {
        let t = ifs.drop_last();
        law_addresses_by_flag(t, loopback);
        let p = |f: LocalInterface| f.is_loopback == loopback;
        let m = |f: LocalInterface| f.ip@;
        if p(ifs.last()) {
            assert(ifs.filter(p) == t.filter(p).push(ifs.last()));
            assert(ifs.filter(p).map_values(m) =~= t.filter(p).map_values(m).push(ifs.last().ip@));
        } else {
            assert(ifs.filter(p) == t.filter(p));
        }
        assert(addresses_where(ifs, loopback) =~= addresses_where(t, loopback) + if ifs.last().is_loopback
            == loopback {
            seq![ifs.last().ip@]
        } else {
            Seq::<Seq<char>>::empty()
        });
    }
}

/// Every interface address lands in the list its loopback flag names.
pub proof fn law_every_interface_listed(ifs: Seq<LocalInterface>, i: int)
    requires
        0 <= i < ifs.len(),
    ensures
        addresses_where(ifs, ifs[i].is_loopback).contains(ifs[i].ip@),
{
    let lb = ifs[i].is_loopback;
    let p = |f: LocalInterface| f.is_loopback == lb;
    let m = |f: LocalInterface| f.ip@;
    law_addresses_by_flag(ifs, lb);
    ifs.lemma_filter_contains(p, i);
    let k = choose|k: int| 0 <= k < ifs.filter(p).len() && ifs.filter(p)[k] == ifs[i];
    assert(ifs.filter(p).map_values(m)[k] == ifs[i].ip@);
}

/// The name of a capture file holds its timestamp: the text between the
/// hostname's `_` and `.json` reads back as the timestamp.
pub proof fn law_file_name_holds_timestamp(hostname: Seq<char>, timestamp: u64)
    ensures
        ({
            let name = hostname + seq!['_'] + decimal(timestamp as nat) + seq!['.', 'j', 's', 'o', 'n'];
            &&& name.take(hostname.len() as int) == hostname
            &&& name[hostname.len() as int] == '_'
            &&& parsed_u64(name.subrange(hostname.len() as int + 1, name.len() - 5)) == Some(timestamp)
            &&& name.skip(name.len() - 5) == seq!['.', 'j', 's', 'o', 'n']
        }),
{
    let name = hostname + seq!['_'] + decimal(timestamp as nat) + seq!['.', 'j', 's', 'o', 'n'];
    law_decimal_reads_back(timestamp as nat);
    assert(name.take(hostname.len() as int) =~= hostname);
    assert(name.subrange(hostname.len() as int + 1, name.len() - 5) =~= decimal(timestamp as nat));
    assert(name.skip(name.len() - 5) =~= seq!['.', 'j', 's', 'o', 'n']);
}

} // verus!
