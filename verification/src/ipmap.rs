//! The table from address to the captured host that owns it, together with
//! the names of the captured hosts.

use vstd::prelude::*;
use crate::merge::{MergedModel, MergedServer, merged_views};
use crate::order::str_views;

verus! {

/// The host that owns `ip`: the last server, in server order, that lists it
/// among its addresses or loopback addresses (a later owner overrides an
/// earlier one).
pub open spec fn ip_owner(ms: Seq<MergedModel>, ip: Seq<char>) -> Option<Seq<char>>
    decreases ms.len(),
{
    if ms.len() == 0 {
        None
    } else if ms.last().ips.contains(ip) || ms.last().loopbacks.contains(ip) {
        Some(ms.last().hostname)
    } else {
        ip_owner(ms.drop_last(), ip)
    }
}

/// Every owned address with its owner.
pub open spec fn owners_map(ms: Seq<MergedModel>) -> Map<Seq<char>, Seq<char>> {
    Map::new(|ip: Seq<char>| ip_owner(ms, ip) is Some, |ip: Seq<char>| ip_owner(ms, ip)->0)
}

/// The names of the servers `ms`.
pub open spec fn host_names(ms: Seq<MergedModel>) -> Set<Seq<char>> {
    Set::new(|x: Seq<char>| exists|k: int| 0 <= k < ms.len() && #[trigger] ms[k].hostname == x)
}

/// What resolving a remote address needs: which captured host owns each
/// address, and which names are names of captured hosts.
pub struct AddressBook {
    pub owners: Map<Seq<char>, Seq<char>>,
    pub hosts: Set<Seq<char>>,
}

/// The address book of the servers `ms`.
pub open spec fn address_book(ms: Seq<MergedModel>) -> AddressBook {
    AddressBook { owners: owners_map(ms), hosts: host_names(ms) }
}

/// The value of the last entry for `ip`.
pub open spec fn last_value(entries: Seq<(Seq<char>, Seq<char>)>, ip: Seq<char>) -> Option<
    Seq<char>,
>
    decreases entries.len(),
{
    if entries.len() == 0 {
        None
    } else if entries.last().0 == ip {
        Some(entries.last().1)
    } else {
        last_value(entries.drop_last(), ip)
    }
}

/// A table from address to hostname, and the hostnames themselves. An
/// address entered again is overridden by its last entry.
pub struct IpMap {
    entries: Vec<(String, String)>,
    hosts: Vec<String>,
}

/// The views of the entries.
pub open spec fn pair_views(v: Seq<(String, String)>) -> Seq<(Seq<char>, Seq<char>)> {
    v.map_values(|e: (String, String)| (e.0@, e.1@))
}

impl View for IpMap {
    type V = AddressBook;

    closed spec fn view(&self) -> AddressBook {
        AddressBook {
            owners: Map::new(
                |ip: Seq<char>| last_value(pair_views(self.entries@), ip) is Some,
                |ip: Seq<char>| last_value(pair_views(self.entries@), ip)->0,
            ),
            hosts: str_views(self.hosts@).to_set(),
        }
    }
}

impl IpMap {
    /// The hostname that `ip` maps to, if any.
    pub fn get(&self, ip: &String) -> (r: Option<&String>)
        ensures
            r is Some <==> self@.owners.contains_key(ip@),
            r matches Some(h) ==> self@.owners[ip@] == h@,
    {
        let ghost es = pair_views(self.entries@);
        let mut i = self.entries.len();
        assert(es.take(i as int) =~= es);
        while i > 0
            invariant
                i <= self.entries@.len(),
                es == pair_views(self.entries@),
                last_value(es, ip@) == last_value(es.take(i as int), ip@),
            decreases i,
        {
            assert(es.take(i as int).drop_last() =~= es.take(i - 1));
            if self.entries[i - 1].0 == *ip {
                return Some(&self.entries[i - 1].1);
            }
            i = i - 1;
        }
        None
    }

    /// The same table of owners, knowing no host names: resolving through it
    /// sends an address that no host lists to an external node, even where
    /// it reads like a hostname.
    pub fn forget_hosts(self) -> (m: IpMap)
        ensures
            m@ == (AddressBook { owners: self@.owners, hosts: Set::empty() }),
    {
        let m = IpMap { entries: self.entries, hosts: Vec::new() };
        assert(str_views(m.hosts@).to_set() =~= Set::empty());
        m
    }

    /// Whether `name` is the name of a captured host.
    pub fn is_host(&self, name: &String) -> (r: bool)
        ensures
            r == self@.hosts.contains(name@),
    {
        let mut i: usize = 0;
        while i < self.hosts.len()
            invariant
                i <= self.hosts@.len(),
                forall|m: int| 0 <= m < i ==> #[trigger] str_views(self.hosts@)[m] != name@,
            decreases self.hosts@.len() - i,
        {
            if self.hosts[i] == *name {
                assert(str_views(self.hosts@)[i as int] == name@);
                return true;
            }
            i = i + 1;
        }
        false
    }
}

proof fn lemma_last_value_push(es: Seq<(Seq<char>, Seq<char>)>, e: (Seq<char>, Seq<char>))
    ensures
        forall|ip: Seq<char>|
            #[trigger] last_value(es.push(e), ip) == if e.0 == ip {
                Some(e.1)
            } else {
                last_value(es, ip)
            },
{
    assert(es.push(e).drop_last() =~= es);
}

proof fn lemma_ip_owner_step(ms: Seq<MergedModel>, k: int)
    requires
        0 <= k < ms.len(),
    ensures
        forall|ip: Seq<char>|
            #[trigger] ip_owner(ms.take(k + 1), ip) == if ms[k].ips.contains(ip)
                || ms[k].loopbacks.contains(ip) {
                Some(ms[k].hostname)
            } else {
                ip_owner(ms.take(k), ip)
            },
{
    assert(ms.take(k + 1).drop_last() =~= ms.take(k));
}

/// Appends `(ip, host)` for every address in `ips`.
fn enter_all(
    entries: &mut Vec<(String, String)>,
    ips: &Vec<String>,
    host: &String,
)
    ensures
        forall|ip: Seq<char>|
            #[trigger] last_value(pair_views(final(entries)@), ip) == if str_views(
                ips@,
            ).contains(ip) {
                Some(host@)
            } else {
                last_value(pair_views(old(entries)@), ip)
            },
{
    let mut i: usize = 0;
    while i < ips.len()
        invariant
            i <= ips@.len(),
            forall|ip: Seq<char>|
                #[trigger] last_value(pair_views(entries@), ip) == if str_views(
                    ips@.take(i as int),
                ).contains(ip) {
                    Some(host@)
                } else {
                    last_value(pair_views(old(entries)@), ip)
                },
        decreases ips@.len() - i,
    {
        let ghost before = pair_views(entries@);
        entries.push((ips[i].clone(), host.clone()));
        proof {
            assert(pair_views(entries@) =~= before.push((ips@[i as int]@, host@)));
            lemma_last_value_push(before, (ips@[i as int]@, host@));
            let t = str_views(ips@.take(i as int));
            assert(str_views(ips@.take(i + 1)) =~= t.push(ips@[i as int]@));
            assert forall|ip: Seq<char>| #[trigger] t.push(ips@[i as int]@).contains(ip) <==> (
            t.contains(ip) || ip == ips@[i as int]@) by {
                if t.push(ips@[i as int]@).contains(ip) {
                    let m = choose|m: int| 0 <= m < t.len() + 1 && t.push(ips@[i as int]@)[m] == ip;
                    if m < t.len() {
                        assert(t[m] == ip);
                    }
                }
                if t.contains(ip) {
                    let m = choose|m: int| 0 <= m < t.len() && t[m] == ip;
                    assert(t.push(ips@[i as int]@)[m] == ip);
                }
                if ip == ips@[i as int]@ {
                    assert(t.push(ips@[i as int]@)[t.len() as int] == ip);
                }
            }
        }
        i = i + 1;
    }
    assert(ips@.take(ips@.len() as int) =~= ips@);
}

/// Maps every address and loopback address of every server to the server's
/// hostname, and records the hostnames. Where two servers list the same
/// address, the later server wins.
pub fn build_ip_map(servers: &Vec<MergedServer>) -> (map: IpMap)
    ensures
        map@ == address_book(merged_views(servers@)),
{
    let ghost ms = merged_views(servers@);
    let mut entries: Vec<(String, String)> = Vec::new();
    let mut hosts: Vec<String> = Vec::new();
    let mut k: usize = 0;
    while k < servers.len()
        invariant
            k <= servers@.len(),
            ms == merged_views(servers@),
            forall|ip: Seq<char>|
                #[trigger] last_value(pair_views(entries@), ip) == ip_owner(ms.take(k as int), ip),
            str_views(hosts@) == ms.take(k as int).map_values(|m: MergedModel| m.hostname),
        decreases servers@.len() - k,
    {
        let s = &servers[k];
        let ghost h0 = hosts@;
        hosts.push(s.hostname.clone());
        assert(str_views(hosts@) =~= str_views(h0).push(s.hostname@));
        assert(ms.take(k + 1).map_values(|m: MergedModel| m.hostname) =~= ms.take(k as int).map_values(
            |m: MergedModel| m.hostname,
        ).push(ms[k as int].hostname));
        enter_all(&mut entries, &s.ips, &s.hostname);
        enter_all(&mut entries, &s.loopbacks, &s.hostname);
        proof {
            lemma_ip_owner_step(ms, k as int);
            assert(ms[k as int] == s@);
            assert forall|ip: Seq<char>| #[trigger] str_views(s.ips@).to_set().contains(ip)
                <==> str_views(s.ips@).contains(ip) by {}
            assert forall|ip: Seq<char>| #[trigger] str_views(s.loopbacks@).to_set().contains(ip)
                <==> str_views(s.loopbacks@).contains(ip) by {}
            assert forall|ip: Seq<char>|
                #[trigger] last_value(pair_views(entries@), ip) == ip_owner(
                    ms.take(k + 1),
                    ip,
                ) by {
                assert(ip_owner(ms.take(k + 1), ip) == if ms[k as int].ips.contains(ip)
                    || ms[k as int].loopbacks.contains(ip) {
                    Some(ms[k as int].hostname)
                } else {
                    ip_owner(ms.take(k as int), ip)
                });
            }
        }
        k = k + 1;
    }
    assert(ms.take(servers@.len() as int) =~= ms);
    let map = IpMap { entries, hosts };
    assert(map@.owners =~= owners_map(ms));
    assert forall|x: Seq<char>| map@.hosts.contains(x) <==> host_names(ms).contains(x) by {
        let hv = ms.map_values(|m: MergedModel| m.hostname);
        assert(str_views(map.hosts@) == hv);
        if hv.contains(x) {
            let k = choose|k: int| 0 <= k < hv.len() && hv[k] == x;
            assert(ms[k].hostname == x);
        }
        if host_names(ms).contains(x) {
            let k = choose|k: int| 0 <= k < ms.len() && #[trigger] ms[k].hostname == x;
            assert(hv[k] == x);
        }
    }
    assert(map@.hosts =~= host_names(ms));
    map
}

} // verus!
