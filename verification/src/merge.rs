//! Merging the capture files of each host into one server record.

use vstd::prelude::*;
use crate::model::{Connection, ConnectionsFile, Endpoint, FileView, endpoints, file_views};
use crate::order::{insert_sorted_str, str_views, strictly_sorted};
use crate::seqs::{
    distinct_in_order, lemma_distinct_contents, lemma_distinct_push, lemma_occurrences_bound,
    lemma_occurrences_push, lemma_sum_push, lemma_sum_update, occurrences, sum_nat,
};

verus! {

/// All capture files of one hostname merged: the union of their addresses,
/// their distinct endpoints (in order of first appearance) with the number of
/// times each appeared, and the number of files merged.
pub struct MergedServer {
    pub hostname: String,
    pub ips: Vec<String>,
    pub loopbacks: Vec<String>,
    pub connections: Vec<Connection>,
    pub appearances: Vec<usize>,
    pub snapshot_count: usize,
}

/// The view of a merged server.
#[verifier::ext_equal]
pub struct MergedModel {
    pub hostname: Seq<char>,
    pub ips: Set<Seq<char>>,
    pub loopbacks: Set<Seq<char>>,
    pub connections: Seq<Endpoint>,
    pub appearances: Seq<nat>,
    pub snapshot_count: nat,
}

/// Naturals from machine counters.
pub open spec fn nat_views(v: Seq<usize>) -> Seq<nat> {
    v.map_values(|a: usize| a as nat)
}

impl View for MergedServer {
    type V = MergedModel;

    open spec fn view(&self) -> MergedModel {
        MergedModel {
            hostname: self.hostname@,
            ips: str_views(self.ips@).to_set(),
            loopbacks: str_views(self.loopbacks@).to_set(),
            connections: endpoints(self.connections@),
            appearances: nat_views(self.appearances@),
            snapshot_count: self.snapshot_count as nat,
        }
    }
}

impl MergedServer {
    /// The address lists are sorted sets and every endpoint has its count.
    pub open spec fn wf(&self) -> bool {
        &&& strictly_sorted(str_views(self.ips@))
        &&& strictly_sorted(str_views(self.loopbacks@))
        &&& self.appearances@.len() == self.connections@.len()
    }
}

/// The views of a sequence of merged servers.
pub open spec fn merged_views(v: Seq<MergedServer>) -> Seq<MergedModel> {
    v.map_values(|s: MergedServer| s@)
}

/// The hostname of each file, in file order.
pub open spec fn hostnames(files: Seq<FileView>) -> Seq<Seq<char>> {
    files.map_values(|f: FileView| f.server.hostname)
}

/// The distinct hostnames, in order of first appearance.
pub open spec fn hosts(files: Seq<FileView>) -> Seq<Seq<char>> {
    distinct_in_order(hostnames(files))
}

/// The number of files captured on `h`.
pub open spec fn snapshots_of(files: Seq<FileView>, h: Seq<char>) -> nat
    decreases files.len(),
{
    if files.len() == 0 {
        0
    } else {
        snapshots_of(files.drop_last(), h) + if files.last().server.hostname == h {
            1nat
        } else {
            0nat
        }
    }
}

/// The addresses that some file of `h` lists.
pub open spec fn ips_of(files: Seq<FileView>, h: Seq<char>) -> Set<Seq<char>> {
    Set::new(
        |ip: Seq<char>|
            exists|i: int|
                0 <= i < files.len() && files[i].server.hostname == h
                    && #[trigger] files[i].server.ips.contains(ip),
    )
}

/// The loopback addresses that some file of `h` lists.
pub open spec fn loopbacks_of(files: Seq<FileView>, h: Seq<char>) -> Set<Seq<char>> {
    Set::new(
        |ip: Seq<char>|
            exists|i: int|
                0 <= i < files.len() && files[i].server.hostname == h
                    && #[trigger] files[i].server.loopbacks.contains(ip),
    )
}

/// The endpoints of all files of `h`, file after file, repeats included.
pub open spec fn endpoints_of(files: Seq<FileView>, h: Seq<char>) -> Seq<Endpoint>
    decreases files.len(),
{
    if files.len() == 0 {
        Seq::empty()
    } else {
        endpoints_of(files.drop_last(), h) + if files.last().server.hostname == h {
            files.last().connections
        } else {
            Seq::empty()
        }
    }
}

/// The distinct endpoints of `eps` and how often each occurs there.
pub open spec fn tally(eps: Seq<Endpoint>) -> (Seq<Endpoint>, Seq<nat>) {
    let d = distinct_in_order(eps);
    (d, d.map_values(|c: Endpoint| occurrences(eps, c)))
}

/// What merging the files of `h` gives.
pub open spec fn merged_model(files: Seq<FileView>, h: Seq<char>) -> MergedModel {
    let t = tally(endpoints_of(files, h));
    MergedModel {
        hostname: h,
        ips: ips_of(files, h),
        loopbacks: loopbacks_of(files, h),
        connections: t.0,
        appearances: t.1,
        snapshot_count: snapshots_of(files, h),
    }
}

/// One merged server per distinct hostname, in order of first appearance.
pub open spec fn merged_models(files: Seq<FileView>) -> Seq<MergedModel> {
    hosts(files).map_values(|h: Seq<char>| merged_model(files, h))
}

/// The number of connection records in all files.
pub open spec fn total_connections(files: Seq<FileView>) -> nat
    decreases files.len(),
{
    if files.len() == 0 {
        0
    } else {
        total_connections(files.drop_last()) + files.last().connections.len()
    }
}

/// The sum of all appearance counts.
pub open spec fn total_appearances(ms: Seq<MergedModel>) -> nat
    decreases ms.len(),
{
    if ms.len() == 0 {
        0
    } else {
        total_appearances(ms.drop_last()) + sum_nat(ms.last().appearances)
    }
}

proof fn lemma_total_appearances_push(ms: Seq<MergedModel>, m: MergedModel)
    ensures
        total_appearances(ms.push(m)) == total_appearances(ms) + sum_nat(m.appearances),
{
    assert(ms.push(m).drop_last() =~= ms);
}

proof fn lemma_total_appearances_update(ms: Seq<MergedModel>, k: int, m: MergedModel)
    requires
        0 <= k < ms.len(),
    ensures
        total_appearances(ms.update(k, m)) + sum_nat(ms[k].appearances) == total_appearances(ms)
            + sum_nat(m.appearances),
    decreases ms.len(),
{
    if k < ms.len() - 1 {
        assert(ms.update(k, m).drop_last() =~= ms.drop_last().update(k, m));
        lemma_total_appearances_update(ms.drop_last(), k, m);
    } else {
        assert(ms.update(k, m).drop_last() =~= ms.drop_last());
    }
}

proof fn lemma_total_connections_prefix(files: Seq<FileView>, i: int)
    requires
        0 <= i < files.len(),
    ensures
        total_connections(files.take(i + 1)) == total_connections(files.take(i))
            + files[i].connections.len(),
        total_connections(files.take(i + 1)) <= total_connections(files),
    decreases files.len() - i,
{
    assert(files.take(i + 1).drop_last() =~= files.take(i));
    if i + 1 < files.len() {
        lemma_total_connections_prefix(files, i + 1);
    } else {
        assert(files.take(i + 1) =~= files);
    }
}

proof fn lemma_endpoints_bound(files: Seq<FileView>, h: Seq<char>)
    ensures
        endpoints_of(files, h).len() <= total_connections(files),
        snapshots_of(files, h) <= files.len(),
    decreases files.len(),
{
    if files.len() > 0 {
        lemma_endpoints_bound(files.drop_last(), h);
    }
}

proof fn lemma_absent_host(files: Seq<FileView>, h: Seq<char>)
    requires
        !hostnames(files).contains(h),
    ensures
        endpoints_of(files, h) == Seq::<Endpoint>::empty(),
        snapshots_of(files, h) == 0,
        ips_of(files, h) == Set::<Seq<char>>::empty(),
        loopbacks_of(files, h) == Set::<Seq<char>>::empty(),
    decreases files.len(),
{
    if files.len() > 0 {
        let t = files.drop_last();
        assert(!hostnames(t).contains(h)) by {
            if hostnames(t).contains(h) {
                let i = choose|i: int| 0 <= i < hostnames(t).len() && hostnames(t)[i] == h;
                assert(hostnames(files)[i] == h);
            }
        }
        lemma_absent_host(t, h);
        assert(hostnames(files)[files.len() - 1] == files.last().server.hostname);
        assert(endpoints_of(files, h) =~= Seq::<Endpoint>::empty());
    }
    assert forall|ip: Seq<char>| !ips_of(files, h).contains(ip) by {
        if ips_of(files, h).contains(ip) {
            let i = choose|i: int|
                0 <= i < files.len() && files[i].server.hostname == h
                    && #[trigger] files[i].server.ips.contains(ip);
            assert(hostnames(files)[i] == h);
        }
    }
    assert forall|ip: Seq<char>| !loopbacks_of(files, h).contains(ip) by {
        if loopbacks_of(files, h).contains(ip) {
            let i = choose|i: int|
                0 <= i < files.len() && files[i].server.hostname == h
                    && #[trigger] files[i].server.loopbacks.contains(ip);
            assert(hostnames(files)[i] == h);
        }
    }
    assert(ips_of(files, h) =~= Set::<Seq<char>>::empty());
    assert(loopbacks_of(files, h) =~= Set::<Seq<char>>::empty());
}

/// How the per-host summaries change when one more file is taken in.
proof fn lemma_merge_step(files: Seq<FileView>, i: int, g: Seq<char>)
    requires
        0 <= i < files.len(),
    ensures
        ({
            let pre = files.take(i);
            let post = files.take(i + 1);
            let f = files[i];
            let same = f.server.hostname != g;
            &&& snapshots_of(post, g) == snapshots_of(pre, g) + if same {
                0nat
            } else {
                1nat
            }
            &&& endpoints_of(post, g) == endpoints_of(pre, g) + if same {
                Seq::<Endpoint>::empty()
            } else {
                f.connections
            }
            &&& ips_of(post, g) == if same {
                ips_of(pre, g)
            } else {
                ips_of(pre, g) + f.server.ips.to_set()
            }
            &&& loopbacks_of(post, g) == if same {
                loopbacks_of(pre, g)
            } else {
                loopbacks_of(pre, g) + f.server.loopbacks.to_set()
            }
            &&& hostnames(post) == hostnames(pre).push(f.server.hostname)
        }),
{
    let pre = files.take(i);
    let post = files.take(i + 1);
    let f = files[i];
    assert(post.drop_last() =~= pre);
    assert(hostnames(post) =~= hostnames(pre).push(f.server.hostname));
    if f.server.hostname != g {
        assert(endpoints_of(post, g) =~= endpoints_of(pre, g) + Seq::<Endpoint>::empty());
        assert forall|ip: Seq<char>| ips_of(post, g).contains(ip) <==> ips_of(pre, g).contains(ip) by {
            if ips_of(post, g).contains(ip) {
                let j = choose|j: int|
                    0 <= j < post.len() && post[j].server.hostname == g
                        && #[trigger] post[j].server.ips.contains(ip);
                assert(pre[j] == post[j]);
            }
            if ips_of(pre, g).contains(ip) {
                let j = choose|j: int|
                    0 <= j < pre.len() && pre[j].server.hostname == g
                        && #[trigger] pre[j].server.ips.contains(ip);
                assert(pre[j] == post[j]);
            }
        }
        assert forall|ip: Seq<char>|
            loopbacks_of(post, g).contains(ip) <==> loopbacks_of(pre, g).contains(ip) by {
            if loopbacks_of(post, g).contains(ip) {
                let j = choose|j: int|
                    0 <= j < post.len() && post[j].server.hostname == g
                        && #[trigger] post[j].server.loopbacks.contains(ip);
                assert(pre[j] == post[j]);
            }
            if loopbacks_of(pre, g).contains(ip) {
                let j = choose|j: int|
                    0 <= j < pre.len() && pre[j].server.hostname == g
                        && #[trigger] pre[j].server.loopbacks.contains(ip);
                assert(pre[j] == post[j]);
            }
        }
        assert(ips_of(post, g) =~= ips_of(pre, g));
        assert(loopbacks_of(post, g) =~= loopbacks_of(pre, g));
    } else {
        assert forall|ip: Seq<char>|
            ips_of(post, g).contains(ip) <==> (ips_of(pre, g) + f.server.ips.to_set()).contains(
                ip,
            ) by {
            if ips_of(post, g).contains(ip) {
                let j = choose|j: int|
                    0 <= j < post.len() && post[j].server.hostname == g
                        && #[trigger] post[j].server.ips.contains(ip);
                if j < i {
                    assert(pre[j] == post[j]);
                }
            }
            if ips_of(pre, g).contains(ip) {
                let j = choose|j: int|
                    0 <= j < pre.len() && pre[j].server.hostname == g
                        && #[trigger] pre[j].server.ips.contains(ip);
                assert(pre[j] == post[j]);
            }
            if f.server.ips.to_set().contains(ip) {
                assert(post[i] == f);
            }
        }
        assert forall|ip: Seq<char>|
            loopbacks_of(post, g).contains(ip) <==> (loopbacks_of(pre, g)
                + f.server.loopbacks.to_set()).contains(ip) by {
            if loopbacks_of(post, g).contains(ip) {
                let j = choose|j: int|
                    0 <= j < post.len() && post[j].server.hostname == g
                        && #[trigger] post[j].server.loopbacks.contains(ip);
                if j < i {
                    assert(pre[j] == post[j]);
                }
            }
            if loopbacks_of(pre, g).contains(ip) {
                let j = choose|j: int|
                    0 <= j < pre.len() && pre[j].server.hostname == g
                        && #[trigger] pre[j].server.loopbacks.contains(ip);
                assert(pre[j] == post[j]);
            }
            if f.server.loopbacks.to_set().contains(ip) {
                assert(post[i] == f);
            }
        }
        assert(ips_of(post, g) =~= ips_of(pre, g) + f.server.ips.to_set());
        assert(loopbacks_of(post, g) =~= loopbacks_of(pre, g) + f.server.loopbacks.to_set());
    }
}

/// Counts one more appearance of `c` in the tally `(conns, apps)` of `eps`.
fn tally_endpoint(
    conns: &mut Vec<Connection>,
    apps: &mut Vec<usize>,
    c: &Connection,
    Ghost(eps): Ghost<Seq<Endpoint>>,
)
    requires
        (endpoints(old(conns)@), nat_views(old(apps)@)) == tally(eps),
        eps.len() < usize::MAX,
    ensures
        (endpoints(final(conns)@), nat_views(final(apps)@)) == tally(eps.push(c@)),
        sum_nat(nat_views(final(apps)@)) == sum_nat(nat_views(old(apps)@)) + 1,
{
    let ghost d = distinct_in_order(eps);
    let ghost e2 = eps.push(c@);
    proof {
        lemma_distinct_contents(eps);
        lemma_distinct_push(eps, c@);
    }
    assert(endpoints(conns@) == tally(eps).0);
    assert(nat_views(apps@) == tally(eps).1);
    assert(endpoints(conns@).len() == d.len());
    assert(nat_views(apps@).len() == d.len());
    let mut j: usize = 0;
    while j < conns.len() && !(conns[j].remote_ip == c.remote_ip && conns[j].remote_port
        == c.remote_port)
        invariant
            j <= conns@.len(),
            endpoints(conns@) == d,
            forall|m: int| 0 <= m < j ==> #[trigger] d[m] != c@,
        decreases conns@.len() - j,
    {
        j = j + 1;
    }
    if j < conns.len() {
        assert(d[j as int] == c@);
        assert(d.contains(c@));
        assert(eps.contains(c@));
        proof {
            lemma_occurrences_bound(eps, c@);
        }
        assert(nat_views(apps@)[j as int] == apps@[j as int] as nat);
        assert(tally(eps).1[j as int] == occurrences(eps, d[j as int]));
        assert(apps@[j as int] as nat == occurrences(eps, c@));
        let a = apps[j];
        apps.set(j, a + 1);
        assert(nat_views(apps@) =~= nat_views(old(apps)@).update(j as int, (a + 1) as nat));
        assert(distinct_in_order(e2) == d);
        assert forall|m: int| 0 <= m < d.len() implies #[trigger] nat_views(apps@)[m] == occurrences(
            e2,
            d[m],
        ) by {
            lemma_occurrences_push(eps, c@, d[m]);
            assert(nat_views(old(apps)@)[m] == tally(eps).1[m]);
            if m != j {
                assert(d[m] != d[j as int]);
            }
        }
        assert(nat_views(apps@) =~= tally(e2).1);
        assert(nat_views(apps@) =~= nat_views(old(apps)@).update(j as int, (a + 1) as nat));
        proof {
            lemma_sum_update(nat_views(old(apps)@), j as int, (a + 1) as nat);
        }
    } else {
        assert(!d.contains(c@));
        assert(!eps.contains(c@));
        proof {
            lemma_occurrences_bound(eps, c@);
            lemma_occurrences_push(eps, c@, c@);
        }
        conns.push(Connection { remote_ip: c.remote_ip.clone(), remote_port: c.remote_port });
        apps.push(1);
        assert(nat_views(apps@) =~= nat_views(old(apps)@).push(1));
        assert(distinct_in_order(e2) == d.push(c@));
        assert(endpoints(conns@) =~= d.push(c@));
        assert forall|m: int| 0 <= m < d.len() + 1 implies #[trigger] nat_views(apps@)[m]
            == occurrences(e2, d.push(c@)[m]) by {
            lemma_occurrences_push(eps, c@, d.push(c@)[m]);
            if m < d.len() {
                assert(d.contains(d[m]));
                assert(nat_views(apps@)[m] == nat_views(old(apps)@)[m]);
                assert(nat_views(old(apps)@)[m] == tally(eps).1[m]);
            }
        }
        assert(nat_views(apps@) =~= tally(e2).1);
        assert(nat_views(apps@) =~= nat_views(old(apps)@).push(1));
        proof {
            lemma_sum_push(nat_views(old(apps)@), 1);
        }
    }
}

/// Takes one capture file of the server's host into the server record.
fn absorb_file(server: &mut MergedServer, file: &ConnectionsFile, Ghost(eps): Ghost<Seq<Endpoint>>)
    requires
        old(server).wf(),
        (old(server)@.connections, old(server)@.appearances) == tally(eps),
        old(server).snapshot_count < usize::MAX,
        eps.len() + file.connections@.len() <= usize::MAX,
    ensures
        final(server).wf(),
        final(server)@ == (MergedModel {
            ips: old(server)@.ips + file@.server.ips.to_set(),
            loopbacks: old(server)@.loopbacks + file@.server.loopbacks.to_set(),
            connections: tally(eps + file@.connections).0,
            appearances: tally(eps + file@.connections).1,
            snapshot_count: old(server)@.snapshot_count + 1,
            ..old(server)@
        }),
        sum_nat(final(server)@.appearances) == sum_nat(old(server)@.appearances)
            + file.connections@.len(),
{
    server.snapshot_count = server.snapshot_count + 1;
    let ips = &file.server.ips;
    let mut i: usize = 0;
    assert(str_views(ips@.take(0)).to_set() =~= Set::empty());
    while i < ips.len()
        invariant
            strictly_sorted(str_views(server.ips@)),
            str_views(server.ips@).to_set() == str_views(old(server).ips@).to_set() + str_views(
                ips@.take(i as int),
            ).to_set(),
            i <= ips.len(),
            server.hostname == old(server).hostname,
            server.loopbacks == old(server).loopbacks,
            server.connections == old(server).connections,
            server.appearances == old(server).appearances,
            server.snapshot_count == old(server).snapshot_count + 1,
        decreases ips.len() - i,
    {
        insert_sorted_str(&mut server.ips, &ips[i]);
        assert(str_views(ips@.take(i + 1)) =~= str_views(ips@.take(i as int)).push(ips@[i as int]@));
        proof {
            str_views(ips@.take(i as int)).lemma_push_to_set_commute(ips@[i as int]@);
        }
        i = i + 1;
    }
    assert(ips@.take(ips.len() as int) =~= ips@);
    let lbs = &file.server.loopbacks;
    let mut i: usize = 0;
    assert(str_views(lbs@.take(0)).to_set() =~= Set::empty());
    while i < lbs.len()
        invariant
            strictly_sorted(str_views(server.loopbacks@)),
            str_views(server.loopbacks@).to_set() == str_views(old(server).loopbacks@).to_set()
                + str_views(lbs@.take(i as int)).to_set(),
            i <= lbs.len(),
            strictly_sorted(str_views(server.ips@)),
            str_views(server.ips@).to_set() == str_views(old(server).ips@).to_set() + str_views(
                ips@,
            ).to_set(),
            server.hostname == old(server).hostname,
            server.connections == old(server).connections,
            server.appearances == old(server).appearances,
            server.snapshot_count == old(server).snapshot_count + 1,
        decreases lbs.len() - i,
    {
        insert_sorted_str(&mut server.loopbacks, &lbs[i]);
        assert(str_views(lbs@.take(i + 1)) =~= str_views(lbs@.take(i as int)).push(lbs@[i as int]@));
        proof {
            str_views(lbs@.take(i as int)).lemma_push_to_set_commute(lbs@[i as int]@);
        }
        i = i + 1;
    }
    assert(lbs@.take(lbs.len() as int) =~= lbs@);
    let conns = &file.connections;
    let mut i: usize = 0;
    assert(eps + endpoints(conns@.take(0)) =~= eps);
    while i < conns.len()
        invariant
            i <= conns.len(),
            (endpoints(server.connections@), nat_views(server.appearances@)) == tally(
                eps + endpoints(conns@.take(i as int)),
            ),
            sum_nat(nat_views(server.appearances@)) == sum_nat(old(server)@.appearances) + i,
            eps.len() + conns@.len() <= usize::MAX,
            strictly_sorted(str_views(server.ips@)),
            str_views(server.ips@).to_set() == str_views(old(server).ips@).to_set() + str_views(
                ips@,
            ).to_set(),
            strictly_sorted(str_views(server.loopbacks@)),
            str_views(server.loopbacks@).to_set() == str_views(old(server).loopbacks@).to_set()
                + str_views(lbs@).to_set(),
            server.hostname == old(server).hostname,
            server.snapshot_count == old(server).snapshot_count + 1,
        decreases conns.len() - i,
    {
        assert(eps + endpoints(conns@.take(i + 1)) =~= (eps + endpoints(conns@.take(i as int))).push(
            conns@[i as int]@,
        ));
        tally_endpoint(
            &mut server.connections,
            &mut server.appearances,
            &conns[i],
            Ghost(eps + endpoints(conns@.take(i as int))),
        );
        i = i + 1;
    }
    assert(conns@.take(conns.len() as int) =~= conns@);
    proof {
        lemma_distinct_contents(eps + file@.connections);
    }
}

/// A server record for `hostname` with nothing merged into it yet.
fn empty_server(hostname: &String) -> (s: MergedServer)
    ensures
        s.wf(),
        s@ == (MergedModel {
            hostname: hostname@,
            ips: Set::empty(),
            loopbacks: Set::empty(),
            connections: Seq::empty(),
            appearances: Seq::empty(),
            snapshot_count: 0,
        }),
{
    let s = MergedServer {
        hostname: hostname.clone(),
        ips: Vec::new(),
        loopbacks: Vec::new(),
        connections: Vec::new(),
        appearances: Vec::new(),
        snapshot_count: 0,
    };
    assert(str_views(s.ips@).to_set() =~= Set::empty());
    assert(str_views(s.loopbacks@).to_set() =~= Set::empty());
    assert(endpoints(s.connections@) =~= Seq::empty());
    assert(nat_views(s.appearances@) =~= Seq::empty());
    s
}

/// The index of the server named `h`, or the number of servers if none is.
fn find_server(servers: &Vec<MergedServer>, h: &String) -> (k: usize)
    ensures
        k <= servers@.len(),
        k < servers@.len() ==> servers@[k as int].hostname@ == h@,
        forall|m: int| 0 <= m < k ==> (#[trigger] servers@[m]).hostname@ != h@,
{
    let mut k: usize = 0;
    while k < servers.len()
        invariant
            k <= servers@.len(),
            forall|m: int| 0 <= m < k ==> (#[trigger] servers@[m]).hostname@ != h@,
        decreases servers@.len() - k,
    {
        if servers[k].hostname == *h {
            return k;
        }
        k = k + 1;
    }
    k
}

/// Merges all files with the same hostname into a single server: addresses
/// and loopback addresses are united, each distinct endpoint is kept once
/// with the number of times it appeared over all the host's files, and
/// `snapshot_count` is the number of files merged. Servers come in order of
/// the first file of each host.
pub fn merge_servers(files: &Vec<ConnectionsFile>) -> (servers: Vec<MergedServer>)
    requires
        total_connections(file_views(files@)) <= usize::MAX,
    ensures
        forall|k: int| 0 <= k < servers@.len() ==> (#[trigger] servers@[k]).wf(),
        merged_views(servers@) == merged_models(file_views(files@)),
        total_appearances(merged_views(servers@)) == total_connections(file_views(files@)),
{
    let ghost fs = file_views(files@);
    let mut servers: Vec<MergedServer> = Vec::new();
    let mut i: usize = 0;
    assert(fs.take(0) =~= Seq::<FileView>::empty());
    assert(merged_views(servers@) =~= merged_models(fs.take(0)));
    while i < files.len()
        invariant
            fs == file_views(files@),
            i <= files.len(),
            total_connections(fs) <= usize::MAX,
            forall|k: int| 0 <= k < servers@.len() ==> (#[trigger] servers@[k]).wf(),
            merged_views(servers@) == merged_models(fs.take(i as int)),
            total_appearances(merged_views(servers@)) == total_connections(fs.take(i as int)),
        decreases files.len() - i,
    {
        let f = &files[i];
        let ghost pre = fs.take(i as int);
        let ghost post = fs.take(i + 1);
        let ghost h = f.server.hostname@;
        assert(fs[i as int] == f@);
        proof {
            lemma_total_connections_prefix(fs, i as int);
            lemma_endpoints_bound(pre, h);
            lemma_distinct_contents(hostnames(pre));
            lemma_distinct_push(hostnames(pre), h);
            assert forall|g: Seq<char>| #[trigger] merged_model(post, g).hostname == g by {}
        }
        let ghost hp = hosts(post);
        proof {
            lemma_distinct_contents(hostnames(post));
            lemma_merge_step(fs, i as int, h);
            assert(hostnames(post) == hostnames(pre).push(h));
            assert(hostnames(pre).contains(h) <==> hosts(pre).contains(h));
        }
        assert(merged_views(servers@).len() == hosts(pre).len());
        let k = find_server(&servers, &f.server.hostname);
        assert forall|m: int| 0 <= m < k implies #[trigger] hosts(pre)[m] != h by {
            assert(merged_views(servers@)[m] == merged_models(pre)[m]);
            assert(merged_model(pre, hosts(pre)[m]).hostname == hosts(pre)[m]);
        }
        if k == servers.len() {
            assert(!hosts(pre).contains(h));
            assert(hp == hosts(pre).push(h));
            proof {
                lemma_absent_host(pre, h);
            }
            let fresh = empty_server(&f.server.hostname);
            assert(fresh@ =~= merged_model(pre, h));
            let ghost old_servers = servers@;
            servers.push(fresh);
            proof {
                assert(merged_views(servers@).drop_last() =~= merged_views(old_servers));
                lemma_total_appearances_push(merged_views(old_servers), fresh@);
                assert(merged_views(servers@) =~= merged_views(old_servers).push(fresh@));
                assert(sum_nat(fresh@.appearances) == 0);
            }
            assert forall|m: int| 0 <= m < hp.len() implies #[trigger] merged_views(servers@)[m]
                == merged_model(pre, hp[m]) by {
                if m < old_servers.len() {
                    assert(merged_views(old_servers)[m] == merged_models(pre)[m]);
                }
            }
            assert(merged_views(servers@) =~= hp.map_values(|g: Seq<char>| merged_model(pre, g)));
        } else {
            assert(merged_models(pre)[k as int] == merged_model(pre, hosts(pre)[k as int]));
            assert(merged_views(servers@)[k as int].hostname == servers@[k as int].hostname@);
            assert(hosts(pre)[k as int] == h);
            assert(hosts(pre).contains(h));
            assert(hp == hosts(pre));
            assert(merged_views(servers@) =~= hp.map_values(|g: Seq<char>| merged_model(pre, g)));
        }
        let ghost before = merged_views(servers@);
        assert(hp[k as int] == h);
        assert(before[k as int] == merged_model(pre, h));
        proof {
            lemma_endpoints_bound(pre, h);
        }
        absorb_file(&mut servers[k], f, Ghost(endpoints_of(pre, h)));
        proof {
            assert(f@.connections.len() == f.connections@.len());
            assert(merged_views(servers@)[k as int] == servers@[k as int]@);
            lemma_total_appearances_update(before, k as int, merged_views(servers@)[k as int]);
            assert(merged_views(servers@) =~= before.update(k as int, merged_views(servers@)[k as int]));
            assert(merged_views(servers@)[k as int] =~= merged_model(post, h));
            assert forall|m: int| 0 <= m < hp.len() implies #[trigger] merged_views(
                servers@,
            )[m] == merged_models(post)[m] by {
                let g = hp[m];
                lemma_merge_step(fs, i as int, g);
                if m != k {
                    assert(g != h);
                    assert(before[m] == merged_model(pre, g));
                    assert(merged_model(post, g) =~= merged_model(pre, g));
                }
            }
            assert(merged_views(servers@) =~= merged_models(post));
        }
        i = i + 1;
    }
    assert(fs.take(files.len() as int) =~= fs);
    servers
}

} // verus!
