//! The graph with one node per capture file, without merging files of the
//! same host: every connection record counts once, repeats included.

use vstd::prelude::*;
use crate::edges::{Record, edges_sum_up, record_of, records_of};
use crate::graph::{
    build_edges, clone_strings, external_ids, external_node, external_nodes, external_targets,
};
use crate::laws::{lemma_external_id_origin, lemma_record_origin};
use crate::ipmap::{AddressBook, IpMap, address_book, build_ip_map, host_names, ip_owner, owners_map};
use crate::merge::{
    MergedModel, MergedServer, hostnames, hosts, ips_of, merged_model, merged_models, merged_views,
    nat_views, total_appearances, total_connections,
};
use crate::model::{
    Connection, ConnectionsFile, EdgeView, FileView, GraphEdge, GraphNode, edge_views, endpoints,
    file_views, node_views,
};
use crate::order::{insert_sorted_str, str_views, strictly_sorted};
use crate::seqs::{lemma_distinct_contents, sum_nat};

verus! {

/// A capture file seen as a server of its own: its addresses as sets, its
/// connections as they are, each counted once.
pub open spec fn file_model(f: FileView) -> MergedModel {
    MergedModel {
        hostname: f.server.hostname,
        ips: f.server.ips.to_set(),
        loopbacks: f.server.loopbacks.to_set(),
        connections: f.connections,
        appearances: Seq::new(f.connections.len(), |j: int| 1nat),
        snapshot_count: 1,
    }
}

/// Every capture file as a server of its own, in file order.
pub open spec fn file_models(files: Seq<FileView>) -> Seq<MergedModel> {
    files.map_values(|f: FileView| file_model(f))
}

proof fn lemma_ones_sum(n: nat)
    ensures
        sum_nat(Seq::new(n, |j: int| 1nat)) == n,
    decreases n,
{
    if n > 0 {
        lemma_ones_sum((n - 1) as nat);
        assert(Seq::new(n, |j: int| 1nat).drop_last() =~= Seq::new((n - 1) as nat, |j: int| 1nat));
    }
}

/// The addresses of `v` as a sorted set.
fn sorted_set_of(v: &Vec<String>) -> (out: Vec<String>)
    ensures
        strictly_sorted(str_views(out@)),
        str_views(out@).to_set() == str_views(v@).to_set(),
{
    let mut out: Vec<String> = Vec::new();
    let mut i: usize = 0;
    assert(str_views(out@).to_set() =~= str_views(v@.take(0)).to_set());
    while i < v.len()
        invariant
            i <= v@.len(),
            strictly_sorted(str_views(out@)),
            str_views(out@).to_set() == str_views(v@.take(i as int)).to_set(),
        decreases v@.len() - i,
    {
        insert_sorted_str(&mut out, &v[i]);
        assert(str_views(v@.take(i + 1)) =~= str_views(v@.take(i as int)).push(v@[i as int]@));
        proof {
            str_views(v@.take(i as int)).lemma_push_to_set_commute(v@[i as int]@);
        }
        i = i + 1;
    }
    assert(v@.take(i as int) =~= v@);
    out
}

/// One server record per capture file, in file order, nothing merged.
pub fn file_servers(files: &Vec<ConnectionsFile>) -> (servers: Vec<MergedServer>)
    ensures
        forall|k: int| 0 <= k < servers@.len() ==> (#[trigger] servers@[k]).wf(),
        merged_views(servers@) == file_models(file_views(files@)),
        total_appearances(merged_views(servers@)) == total_connections(file_views(files@)),
{
    let ghost fs = file_views(files@);
    let mut servers: Vec<MergedServer> = Vec::new();
    let mut i: usize = 0;
    assert(fs.take(0) =~= Seq::<FileView>::empty());
    assert(merged_views(servers@) =~= file_models(fs.take(0)));
    while i < files.len()
        invariant
            i <= files@.len(),
            fs == file_views(files@),
            forall|k: int| 0 <= k < servers@.len() ==> (#[trigger] servers@[k]).wf(),
            merged_views(servers@) == file_models(fs.take(i as int)),
            total_appearances(merged_views(servers@)) == total_connections(fs.take(i as int)),
        decreases files@.len() - i,
    {
        let f = &files[i];
        assert(fs[i as int] == f@);
        let mut conns: Vec<Connection> = Vec::new();
        let mut apps: Vec<usize> = Vec::new();
        let mut j: usize = 0;
        while j < f.connections.len()
            invariant
                j <= f.connections@.len(),
                endpoints(conns@) == endpoints(f.connections@).take(j as int),
                nat_views(apps@) == Seq::new(j as nat, |m: int| 1nat),
            decreases f.connections@.len() - j,
        {
            let c = &f.connections[j];
            let ghost c0 = conns@;
            let ghost a0 = apps@;
            conns.push(Connection { remote_ip: c.remote_ip.clone(), remote_port: c.remote_port });
            apps.push(1);
            assert(endpoints(conns@) =~= endpoints(c0).push(c@));
            assert(endpoints(f.connections@).take(j + 1) =~= endpoints(f.connections@).take(
                j as int,
            ).push(c@));
            assert(apps@ =~= a0.push(1));
            assert(nat_views(a0).len() == a0.len());
            assert(a0.len() == j);
            assert forall|m: int| 0 <= m < j + 1 implies #[trigger] nat_views(apps@)[m] == 1nat by {
                if m < j {
                    assert(nat_views(a0)[m] == 1nat);
                    assert(apps@[m] == a0.push(1)[m]);
                    assert(nat_views(apps@)[m] == apps@[m] as nat);
                } else {
                    assert(apps@[m] == 1);
                    assert(nat_views(apps@)[m] == apps@[m] as nat);
                }
            }
            assert(nat_views(apps@) =~= Seq::new((j + 1) as nat, |m: int| 1nat));
            j = j + 1;
        }
        assert(endpoints(f.connections@).take(j as int) =~= endpoints(f.connections@));
        let s = MergedServer {
            hostname: f.server.hostname.clone(),
            ips: sorted_set_of(&f.server.ips),
            loopbacks: sorted_set_of(&f.server.loopbacks),
            connections: conns,
            appearances: apps,
            snapshot_count: 1,
        };
        assert(s@ =~= file_model(f@));
        let ghost before = merged_views(servers@);
        servers.push(s);
        proof {
            assert(merged_views(servers@) =~= before.push(s@));
            assert(fs.take(i + 1) =~= fs.take(i as int).push(fs[i as int]));
            assert(file_models(fs.take(i + 1)) =~= file_models(fs.take(i as int)).push(file_model(fs[i as int])));
            assert(merged_views(servers@).drop_last() =~= before);
            assert(fs.take(i + 1).drop_last() =~= fs.take(i as int));
            lemma_ones_sum(f@.connections.len());
        }
        i = i + 1;
    }
    assert(fs.take(i as int) =~= fs);
    servers
}

/// Maps every address and loopback address of every capture file to the
/// file's hostname. Where two files list the same address, the later file
/// wins.
pub fn build_ip_map_from_files(files: &Vec<ConnectionsFile>) -> (map: IpMap)
    ensures
        map@ == address_book(file_models(file_views(files@))),
{
    let servers = file_servers(files);
    build_ip_map(&servers)
}

/// A node of the unmerged graph: a capture file's host, or an external
/// address. It carries no snapshot count, since nothing is merged.
pub struct FileNode {
    pub id: String,
    pub hostname: String,
    pub ips: Vec<String>,
    pub loopbacks: Vec<String>,
    pub is_external: bool,
}

pub struct FileNodeView {
    pub id: Seq<char>,
    pub hostname: Seq<char>,
    pub ips: Seq<Seq<char>>,
    pub loopbacks: Seq<Seq<char>>,
    pub is_external: bool,
}

impl View for FileNode {
    type V = FileNodeView;

    open spec fn view(&self) -> FileNodeView {
        FileNodeView {
            id: self.id@,
            hostname: self.hostname@,
            ips: str_views(self.ips@),
            loopbacks: str_views(self.loopbacks@),
            is_external: self.is_external,
        }
    }
}

/// The graph with one node per capture file.
pub struct FileGraph {
    pub nodes: Vec<FileNode>,
    pub edges: Vec<GraphEdge>,
}

pub struct FileGraphView {
    pub nodes: Seq<FileNodeView>,
    pub edges: Seq<EdgeView>,
}

/// The views of a sequence of file nodes.
pub open spec fn file_node_views(v: Seq<FileNode>) -> Seq<FileNodeView> {
    v.map_values(|n: FileNode| n@)
}

impl View for FileGraph {
    type V = FileGraphView;

    open spec fn view(&self) -> FileGraphView {
        FileGraphView { nodes: file_node_views(self.nodes@), edges: edge_views(self.edges@) }
    }
}

/// The node of a capture file: named by its hostname, with its address lists
/// as the file gives them.
pub open spec fn file_node_of(n: FileNodeView, f: FileView) -> bool {
    &&& n.id == f.server.hostname
    &&& n.hostname == f.server.hostname
    &&& n.ips == f.server.ips
    &&& n.loopbacks == f.server.loopbacks
    &&& !n.is_external
}

/// The node of an external address in the unmerged graph.
pub open spec fn external_file_node(ip: Seq<char>) -> FileNodeView {
    FileNodeView { id: ip, hostname: ip, ips: seq![ip], loopbacks: Seq::empty(), is_external: true }
}

/// The address book of the unmerged graph: the owners of the addresses,
/// and no host names, so that an address no file lists leads to an external
/// node whatever it reads like.
pub open spec fn file_book(ms: Seq<MergedModel>) -> AddressBook {
    AddressBook { owners: owners_map(ms), hosts: Set::empty() }
}

/// The classified connection records of the capture files, each file a
/// server of its own.
pub open spec fn file_records(fs: Seq<FileView>) -> Seq<Record> {
    records_of(file_models(fs), file_book(file_models(fs)))
}

/// `g` is the unmerged graph of the files `fs`: first one node per file, in
/// file order, then one node per external address, in order of first
/// appearance; and the edges that sum up every connection record, each
/// counted once.
pub open spec fn is_unmerged_graph_of(g: FileGraphView, fs: Seq<FileView>) -> bool {
    let rs = file_records(fs);
    &&& g.nodes.len() == fs.len() + external_ids(rs).len()
    &&& forall|k: int| 0 <= k < fs.len() ==> file_node_of(#[trigger] g.nodes[k], fs[k])
    &&& g.nodes.skip(fs.len() as int) == external_ids(rs).map_values(
        |ip: Seq<char>| external_file_node(ip),
    )
    &&& edges_sum_up(g.edges, rs)
}

/// An external node of the graph, without its snapshot count.
fn external_as_file_node(n: &GraphNode) -> (m: FileNode)
    ensures
        m@ == (FileNodeView {
            id: n@.id,
            hostname: n@.hostname,
            ips: n@.ips,
            loopbacks: n@.loopbacks,
            is_external: n@.is_external,
        }),
{
    FileNode {
        id: n.id.clone(),
        hostname: n.hostname.clone(),
        ips: clone_strings(&n.ips),
        loopbacks: clone_strings(&n.loopbacks),
        is_external: n.is_external,
    }
}

/// Builds the graph without merging: one node per capture file, in file
/// order, then one per external address; every connection record of a file
/// adds one to the count of its edge. A connection leads back to its own
/// host when its address is a loopback one, to the last file that lists its
/// address otherwise, and to an external node when no file lists it (even
/// where the address reads like a file's hostname).
pub fn build_unmerged_graph(files: &Vec<ConnectionsFile>) -> (g: FileGraph)
    requires
        total_connections(file_views(files@)) <= usize::MAX,
    ensures
        is_unmerged_graph_of(g@, file_views(files@)),
{
    let ghost fs = file_views(files@);
    let ghost fms = file_models(fs);
    let servers = file_servers(files);
    let ip_map = build_ip_map(&servers).forget_hosts();
    assert(ip_map@ == file_book(fms));
    let (edges, exts) = build_edges(&servers, &ip_map);
    let ghost ids = external_ids(file_records(fs));
    assert(node_views(exts@) == external_nodes(ids));
    let mut nodes: Vec<FileNode> = Vec::new();
    let mut k: usize = 0;
    while k < files.len()
        invariant
            k <= files@.len(),
            fs == file_views(files@),
            nodes@.len() == k,
            forall|m: int| 0 <= m < k ==> file_node_of(#[trigger] nodes@[m]@, fs[m]),
        decreases files@.len() - k,
    {
        let f = &files[k];
        assert(fs[k as int] == f@);
        nodes.push(
            FileNode {
                id: f.server.hostname.clone(),
                hostname: f.server.hostname.clone(),
                ips: clone_strings(&f.server.ips),
                loopbacks: clone_strings(&f.server.loopbacks),
                is_external: false,
            },
        );
        k = k + 1;
    }
    let ghost internal = nodes@;
    assert(node_views(exts@).len() == external_nodes(ids).len());
    let mut x: usize = 0;
    while x < exts.len()
        invariant
            x <= exts@.len(),
            exts@.len() == ids.len(),
            nodes@.len() == files@.len() + x,
            node_views(exts@) == external_nodes(ids),
            forall|m: int| 0 <= m < files@.len() ==> #[trigger] nodes@[m] == internal[m],
            forall|m: int|
                0 <= m < x ==> #[trigger] nodes@[files@.len() + m]@ == external_file_node(ids[m]),
        decreases exts@.len() - x,
    {
        assert(node_views(exts@)[x as int] == exts@[x as int]@);
        assert(external_nodes(ids)[x as int] == external_node(ids[x as int]));
        let m = external_as_file_node(&exts[x]);
        nodes.push(m);
        x = x + 1;
    }
    let g = FileGraph { nodes, edges };
    assert(file_node_views(g.nodes@).skip(files@.len() as int) =~= ids.map_values(
        |ip: Seq<char>| external_file_node(ip),
    )) by {
        assert forall|m: int| 0 <= m < ids.len() implies #[trigger] file_node_views(g.nodes@).skip(
            files@.len() as int,
        )[m] == external_file_node(ids[m]) by {
            assert(g.nodes@[files@.len() + m]@ == external_file_node(ids[m]));
        }
    }
    assert forall|m: int| 0 <= m < fs.len() implies file_node_of(
        #[trigger] file_node_views(g.nodes@)[m],
        fs[m],
    ) by {
        assert(g.nodes@[m] == internal[m]);
    }
    g
}

/// No connection of any capture file is made to an address that reads like
/// a captured hostname.
pub open spec fn no_hostname_addresses(fs: Seq<FileView>) -> bool {
    forall|a: int, b: int, j: int|
        0 <= a < fs.len() && 0 <= b < fs.len() && 0 <= j < fs[a].connections.len() ==> (
        #[trigger] fs[a].connections[j]).0 != (#[trigger] fs[b]).server.hostname
}

/// In the unmerged graph, where no two capture files share a hostname and no
/// connection is made to an address that reads like a hostname, no two nodes
/// share an id. (Files of the same hostname each keep a node, so their ids
/// repeat: that is what not merging means; and an address no file lists
/// gives an external node named by it, even where a file's host has that
/// name.)
pub proof fn law_unmerged_node_ids_distinct(g: FileGraphView, fs: Seq<FileView>)
    requires
        is_unmerged_graph_of(g, fs),
        forall|a: int, b: int|
            0 <= a < fs.len() && 0 <= b < fs.len() && a != b ==> (#[trigger] fs[a]).server.hostname
                != (#[trigger] fs[b]).server.hostname,
        no_hostname_addresses(fs),
    ensures
        forall|a: int, b: int|
            0 <= a < g.nodes.len() && 0 <= b < g.nodes.len() && a != b ==> (#[trigger] g.nodes[a]).id
                != (#[trigger] g.nodes[b]).id,
{
    let fms = file_models(fs);
    let book = file_book(fms);
    let rs = file_records(fs);
    let ids = external_ids(rs);
    let n = fs.len() as int;
    let ext = g.nodes.skip(n);
    lemma_distinct_contents(external_targets(rs));
    assert forall|a: int, b: int|
        0 <= a < g.nodes.len() && 0 <= b < g.nodes.len() && a != b implies (#[trigger] g.nodes[a]).id
        != (#[trigger] g.nodes[b]).id by {
        if a < n && b < n {
            assert(file_node_of(g.nodes[a], fs[a]));
            assert(file_node_of(g.nodes[b], fs[b]));
        } else if a >= n && b >= n {
            assert(g.nodes[a] == ext[a - n]);
            assert(g.nodes[b] == ext[b - n]);
        } else {
            let (k, x) = if a < n {
                (a, b)
            } else {
                (b, a)
            };
            assert(file_node_of(g.nodes[k], fs[k]));
            assert(g.nodes[x] == ext[x - n]);
            let t = ids[x - n];
            assert(ids.contains(t));
            lemma_external_id_origin(rs, t);
            let i = choose|i: int| 0 <= i < rs.len() && rs[i].is_external && #[trigger] rs[i].target == t;
            lemma_record_origin(fms, book, i);
            let (m, j) = choose|m: int, j: int|
                0 <= m < fms.len() && 0 <= j < fms[m].connections.len() && #[trigger] records_of(
                    fms,
                    book,
                )[i] == record_of(fms[m], j, book);
            assert(fms[m] == file_model(fs[m]));
            assert(fs[m].connections[j].0 != fs[k].server.hostname);
        }
    }
}

/// Whether server `m` lists `ip` among its addresses or loopback addresses.
pub open spec fn lists_address(m: MergedModel, ip: Seq<char>) -> bool {
    m.ips.contains(ip) || m.loopbacks.contains(ip)
}

/// An address has an owner exactly when some server lists it, and the owner
/// is the name of a server that lists it.
proof fn lemma_owner_lists(ms: Seq<MergedModel>, ip: Seq<char>)
    ensures
        (ip_owner(ms, ip) is Some) == (exists|k: int|
            0 <= k < ms.len() && lists_address(#[trigger] ms[k], ip)),
        ip_owner(ms, ip) is Some ==> exists|k: int|
            0 <= k < ms.len() && lists_address(#[trigger] ms[k], ip) && ms[k].hostname == ip_owner(
                ms,
                ip,
            )->0,
    decreases ms.len(),
{
    if ms.len() > 0 {
        let t = ms.drop_last();
        lemma_owner_lists(t, ip);
        if lists_address(ms.last(), ip) {
            assert(lists_address(ms[ms.len() - 1], ip));
        } else {
            if exists|k: int| 0 <= k < ms.len() && lists_address(#[trigger] ms[k], ip) {
                let k = choose|k: int| 0 <= k < ms.len() && lists_address(#[trigger] ms[k], ip);
                assert(k < t.len());
                assert(lists_address(t[k], ip));
            }
            if ip_owner(t, ip) is Some {
                let k = choose|k: int|
                    0 <= k < t.len() && lists_address(#[trigger] t[k], ip) && t[k].hostname
                        == ip_owner(t, ip)->0;
                assert(ms[k] == t[k]);
            }
        }
    }
}

/// Whether capture file `f` lists `ip` among its addresses or loopback
/// addresses.
pub open spec fn file_lists(f: FileView, ip: Seq<char>) -> bool {
    f.server.ips.contains(ip) || f.server.loopbacks.contains(ip)
}

/// No address is listed by capture files of two different hostnames.
pub open spec fn addresses_unshared(files: Seq<FileView>) -> bool {
    forall|a: int, b: int, ip: Seq<char>|
        0 <= a < files.len() && 0 <= b < files.len() && #[trigger] file_lists(files[a], ip)
            && #[trigger] file_lists(files[b], ip) ==> files[a].server.hostname
            == files[b].server.hostname
}

/// A merged server lists an address only where one of its files does.
proof fn lemma_merged_lister(files: Seq<FileView>, h: Seq<char>, ip: Seq<char>)
    requires
        lists_address(merged_model(files, h), ip),
    ensures
        exists|i: int|
            0 <= i < files.len() && files[i].server.hostname == h && #[trigger] file_lists(
                files[i],
                ip,
            ),
{
    if ips_of(files, h).contains(ip) {
        let i = choose|i: int|
            0 <= i < files.len() && files[i].server.hostname == h
                && #[trigger] files[i].server.ips.contains(ip);
        assert(file_lists(files[i], ip));
    } else {
        let i = choose|i: int|
            0 <= i < files.len() && files[i].server.hostname == h
                && #[trigger] files[i].server.loopbacks.contains(ip);
        assert(file_lists(files[i], ip));
    }
}

/// Where no address is listed under two hostnames, the address table built
/// from the capture files one by one is the one built from the servers
/// merged by hostname, and both know the same host names.
pub proof fn law_address_books_agree(files: Seq<FileView>)
    requires
        addresses_unshared(files),
    ensures
        address_book(file_models(files)) == address_book(merged_models(files)),
{
    let fms = file_models(files);
    let mms = merged_models(files);
    let hs = hosts(files);
    lemma_distinct_contents(hostnames(files));
    assert(mms.len() == hs.len());
    assert(fms.len() == files.len());
    assert forall|k: int| 0 <= k < mms.len() implies #[trigger] mms[k] == merged_model(
        files,
        hs[k],
    ) by {}
    assert forall|k: int| 0 <= k < fms.len() implies #[trigger] fms[k] == file_model(files[k]) by {}
    assert forall|x: Seq<char>| host_names(fms).contains(x) == host_names(mms).contains(x) by {
        if host_names(fms).contains(x) {
            let k = choose|k: int| 0 <= k < fms.len() && #[trigger] fms[k].hostname == x;
            assert(hostnames(files)[k] == x);
            assert(hostnames(files).contains(x));
            assert(hs.contains(x));
            let m = choose|m: int| 0 <= m < hs.len() && hs[m] == x;
            assert(mms[m].hostname == x);
        }
        if host_names(mms).contains(x) {
            let m = choose|m: int| 0 <= m < mms.len() && #[trigger] mms[m].hostname == x;
            assert(hs[m] == x);
            assert(hs.contains(x));
            let k = choose|k: int| 0 <= k < hostnames(files).len() && hostnames(files)[k] == x;
            assert(fms[k].hostname == x);
        }
    }
    assert forall|ip: Seq<char>| #[trigger] ip_owner(fms, ip) == ip_owner(mms, ip) by {
        lemma_owner_lists(fms, ip);
        lemma_owner_lists(mms, ip);
        if ip_owner(fms, ip) is Some {
            let a = choose|a: int|
                0 <= a < fms.len() && lists_address(#[trigger] fms[a], ip) && fms[a].hostname
                    == ip_owner(fms, ip)->0;
            let h = files[a].server.hostname;
            assert(files[a].server.ips.contains(ip) || files[a].server.loopbacks.contains(ip));
            assert(hostnames(files)[a] == h);
            assert(hostnames(files).contains(h));
            assert(hs.contains(h));
            let m = choose|m: int| 0 <= m < hs.len() && hs[m] == h;
            assert(mms[m] == merged_model(files, hs[m]));
            if files[a].server.ips.contains(ip) {
                assert(mms[m].ips.contains(ip));
            } else {
                assert(mms[m].loopbacks.contains(ip));
            }
            assert(lists_address(mms[m], ip));
            let b = choose|b: int|
                0 <= b < mms.len() && lists_address(#[trigger] mms[b], ip) && mms[b].hostname
                    == ip_owner(mms, ip)->0;
            assert(mms[b] == merged_model(files, hs[b]));
            lemma_merged_lister(files, hs[b], ip);
            let i = choose|i: int|
                0 <= i < files.len() && files[i].server.hostname == hs[b] && #[trigger] file_lists(
                    files[i],
                    ip,
                );
            assert(fms[a] == file_model(files[a]));
            assert(file_lists(files[a], ip));
            assert(files[i].server.hostname == files[a].server.hostname);
        } else if ip_owner(mms, ip) is Some {
            let b = choose|b: int| 0 <= b < mms.len() && lists_address(#[trigger] mms[b], ip);
            assert(mms[b] == merged_model(files, hs[b]));
            lemma_merged_lister(files, hs[b], ip);
            let i = choose|i: int|
                0 <= i < files.len() && files[i].server.hostname == hs[b] && #[trigger] file_lists(
                    files[i],
                    ip,
                );
            assert(fms[i] == file_model(files[i]));
            assert(lists_address(fms[i], ip));
        }
    }
    assert(owners_map(fms) =~= owners_map(mms));
    assert(host_names(fms) =~= host_names(mms));
}

} // verus!
