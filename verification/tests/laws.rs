use netmap::address::is_loopback_ip;
use netmap::cli::{capture_files, FolderEntry};
use netmap::ipmap::build_ip_map;
use netmap::merge::merge_servers;
use netmap::graph::build_graph;
use netmap::model::{Connection, ConnectionsFile, Graph, ServerInfo};
use netmap::trim::trim_external;
use netmap::unmerged::{build_ip_map_from_files, build_unmerged_graph};

fn file(host: &str, ips: &[&str], lbs: &[&str], conns: &[(&str, u16)]) -> ConnectionsFile {
    ConnectionsFile {
        server: ServerInfo {
            hostname: host.to_string(),
            ips: ips.iter().map(|s| s.to_string()).collect(),
            loopbacks: lbs.iter().map(|s| s.to_string()).collect(),
        },
        connections: conns
            .iter()
            .map(|(ip, p)| Connection { remote_ip: ip.to_string(), remote_port: *p })
            .collect(),
    }
}

fn network() -> Vec<ConnectionsFile> {
    vec![
        file("web", &["10.0.0.1"], &["127.0.0.1"], &[("10.0.0.2", 5432), ("93.184.216.34", 443), ("127.0.0.1", 6379)]),
        file("db", &["10.0.0.2"], &[], &[("10.0.0.1", 40000), ("93.184.216.34", 443), ("151.101.1.1", 80)]),
        file("web", &["10.0.0.1", "10.0.0.3"], &["127.0.0.1"], &[("10.0.0.2", 5432), ("10.0.0.3", 22)]),
    ]
}

fn node_index(g: &Graph, id: &str) -> Option<usize> {
    g.nodes.iter().position(|n| n.id == id)
}

#[test]
fn every_node_is_named_by_its_hostname() {
    let g = build_graph(&network(), false);
    for n in &g.nodes {
        assert_eq!(n.id, n.hostname);
        if n.is_external {
            assert_eq!(n.ips, vec![n.id.clone()]);
            assert_eq!(n.snapshot_count, 0);
        }
    }
}

#[test]
fn one_node_per_hostname_with_its_file_count() {
    let g = build_graph(&network(), false);
    let web: Vec<_> = g.nodes.iter().filter(|n| n.id == "web").collect();
    assert_eq!(web.len(), 1);
    assert_eq!(web[0].snapshot_count, 2);
    assert_eq!(web[0].ips, vec!["10.0.0.1", "10.0.0.3"]);
    let db: Vec<_> = g.nodes.iter().filter(|n| n.id == "db").collect();
    assert_eq!(db.len(), 1);
    assert_eq!(db[0].snapshot_count, 1);
}

#[test]
fn edges_join_nodes_and_flags_agree() {
    let g = build_graph(&network(), false);
    for e in &g.edges {
        let s = node_index(&g, &e.source).expect("source is a node");
        assert!(!g.nodes[s].is_external);
        let t = node_index(&g, &e.target).expect("target is a node");
        assert_eq!(g.nodes[t].is_external, e.is_external);
        if e.is_self_loop {
            assert_eq!(e.source, e.target);
            assert!(!e.is_external);
        }
        if e.source == e.target && !e.is_external {
            assert!(e.is_self_loop);
        }
        let mut sorted = e.ports.clone();
        sorted.sort();
        sorted.dedup();
        assert_eq!(sorted, e.ports);
    }
    for w in g.edges.windows(2) {
        assert!((&w[0].source, &w[0].target) < (&w[1].source, &w[1].target));
    }
}

#[test]
fn connection_counts_add_up_to_all_records() {
    let files = network();
    let records: usize = files.iter().map(|f| f.connections.len()).sum();
    let g = build_graph(&files, false);
    let counted: usize = g.edges.iter().map(|e| e.connection_count).sum();
    assert_eq!(counted, records);
    let web_db = g.edges.iter().find(|e| e.source == "web" && e.target == "db").unwrap();
    assert_eq!(web_db.connection_count, 2);
    assert_eq!(web_db.ports, vec![5432]);
}

#[test]
fn every_connection_shows_as_an_edge() {
    let g = build_graph(&network(), false);
    let has = |s: &str, t: &str, p: u16| g.edges.iter().any(|e| e.source == s && e.target == t && e.ports.contains(&p));
    assert!(has("web", "db", 5432));
    assert!(has("web", "93.184.216.34", 443));
    assert!(has("web", "web", 6379));
    assert!(has("web", "web", 22));
    assert!(has("db", "web", 40000));
    assert!(has("db", "93.184.216.34", 443));
    assert!(has("db", "151.101.1.1", 80));
}

#[test]
fn external_nodes_are_unknown_addresses() {
    let g = build_graph(&network(), false);
    let externals: Vec<&str> = g.nodes.iter().filter(|n| n.is_external).map(|n| n.id.as_str()).collect();
    assert_eq!(externals, vec!["93.184.216.34", "151.101.1.1"]);
    for id in externals {
        assert!(!is_loopback_ip(id));
        assert!(network().iter().all(|f| !f.server.ips.iter().any(|ip| ip == id)));
    }
}

#[test]
fn trimmed_graph_stays_closed() {
    let full = build_graph(&network(), false);
    let internal = full.nodes.iter().filter(|n| !n.is_external).count();
    let g = build_graph(&network(), true);
    assert_eq!(g.nodes.iter().filter(|n| !n.is_external).count(), internal);
    let ids: Vec<&str> = g.nodes.iter().map(|n| n.id.as_str()).collect();
    assert_eq!(ids, vec!["web", "db", "93.184.216.34"]);
    for e in &g.edges {
        assert!(node_index(&g, &e.source).is_some());
        assert!(node_index(&g, &e.target).is_some());
    }
    let (_, _, removed) = trim_external(full.nodes, full.edges);
    assert_eq!(removed, 1);
}

#[test]
fn graph_is_determined_by_its_captures() {
    let a = build_graph(&network(), false);
    let b = build_graph(&network(), false);
    let key = |g: &Graph| {
        (
            g.nodes.iter().map(|n| (n.id.clone(), n.ips.clone(), n.loopbacks.clone(), n.is_external, n.snapshot_count)).collect::<Vec<_>>(),
            g.edges.iter().map(|e| (e.source.clone(), e.target.clone(), e.ports.clone(), e.connection_count, e.is_external, e.is_self_loop)).collect::<Vec<_>>(),
        )
    };
    assert_eq!(key(&a), key(&b));
}

#[test]
fn hostname_equal_to_an_unknown_address() {
    // A host whose name is also an address that no capture lists: the
    // connection goes to that host's own node, so ids stay unique and the
    // edge is a self loop inside the network.
    let files = vec![file("10.0.0.9", &["10.1.1.1"], &[], &[("10.0.0.9", 8080)])];
    let g = build_graph(&files, false);
    let ids: Vec<(&str, bool)> = g.nodes.iter().map(|n| (n.id.as_str(), n.is_external)).collect();
    assert_eq!(ids, vec![("10.0.0.9", false)]);
    assert_eq!(g.edges.len(), 1);
    assert_eq!(g.edges[0].source, "10.0.0.9");
    assert_eq!(g.edges[0].target, "10.0.0.9");
    assert!(!g.edges[0].is_external);
    assert!(g.edges[0].is_self_loop);
}

#[test]
fn hostname_equal_to_an_address_of_another_host() {
    // The address is the name of another captured host: the edge goes to
    // that host, not to an external node.
    let files = vec![
        file("a", &["10.1.1.1"], &[], &[("b", 22)]),
        file("b", &["10.1.1.2"], &[], &[]),
    ];
    let g = build_graph(&files, false);
    let ids: Vec<(&str, bool)> = g.nodes.iter().map(|n| (n.id.as_str(), n.is_external)).collect();
    assert_eq!(ids, vec![("a", false), ("b", false)]);
    assert_eq!(g.edges.len(), 1);
    assert_eq!(g.edges[0].target, "b");
    assert!(!g.edges[0].is_external);
    assert!(!g.edges[0].is_self_loop);
}

#[test]
fn unmerged_graph_keeps_a_hostname_address_external() {
    // Per file, an address that no file lists is an external node even where
    // it reads like a file's hostname.
    let files = vec![file("10.0.0.9", &["10.1.1.1"], &[], &[("10.0.0.9", 8080)])];
    let g = build_unmerged_graph(&files);
    let ids: Vec<(&str, bool)> = g.nodes.iter().map(|n| (n.id.as_str(), n.is_external)).collect();
    assert_eq!(ids, vec![("10.0.0.9", false), ("10.0.0.9", true)]);
    assert_eq!(g.edges.len(), 1);
    assert_eq!(g.edges[0].source, "10.0.0.9");
    assert_eq!(g.edges[0].target, "10.0.0.9");
    assert!(g.edges[0].is_external);
    assert!(!g.edges[0].is_self_loop);
}

fn graph_key(g: &Graph) -> (Vec<(String, bool, usize)>, Vec<(String, String, Vec<u16>, usize, bool, bool)>) {
    (
        g.nodes.iter().map(|n| (n.id.clone(), n.is_external, n.snapshot_count)).collect(),
        g.edges
            .iter()
            .map(|e| (e.source.clone(), e.target.clone(), e.ports.clone(), e.connection_count, e.is_external, e.is_self_loop))
            .collect(),
    )
}

#[test]
fn edges_list_ports_within_their_count() {
    for trim in [false, true] {
        let g = build_graph(&network(), trim);
        for e in &g.edges {
            assert!(!e.ports.is_empty());
            assert!(e.connection_count >= e.ports.len());
        }
    }
    let g = build_graph(&network(), false);
    let e = g.edges.iter().find(|e| e.source == "web" && e.target == "db").unwrap();
    assert_eq!(e.ports, vec![5432]);
    assert_eq!(e.connection_count, 2);
}

#[test]
fn trim_removes_external_nodes_reached_fewer_than_twice() {
    let full = build_graph(&network(), false);
    let g = build_graph(&network(), true);
    for n in full.nodes.iter().filter(|n| n.is_external) {
        let reaching = full.edges.iter().filter(|e| e.is_external && e.target == n.id).count();
        assert!(reaching >= 1);
        assert_eq!(node_index(&g, &n.id).is_some(), reaching >= 2);
    }
    let kept: Vec<&str> = g.edges.iter().filter(|e| e.is_external).map(|e| e.target.as_str()).collect();
    assert_eq!(kept, vec!["93.184.216.34", "93.184.216.34"]);
}

#[test]
fn node_ids_are_unique() {
    for trim in [false, true] {
        let g = build_graph(&network(), trim);
        let mut ids: Vec<&str> = g.nodes.iter().map(|n| n.id.as_str()).collect();
        let before = ids.len();
        ids.sort();
        ids.dedup();
        assert_eq!(ids.len(), before);
    }
    let files = vec![
        file("web", &["10.0.0.1"], &[], &[("10.0.0.2", 5432), ("8.8.8.8", 53)]),
        file("db", &["10.0.0.2"], &[], &[("8.8.8.8", 53), ("10.0.0.1", 80)]),
    ];
    let g = build_unmerged_graph(&files);
    let ids: Vec<&str> = g.nodes.iter().map(|n| n.id.as_str()).collect();
    assert_eq!(ids, vec!["web", "db", "8.8.8.8"]);
}

#[test]
fn address_tables_agree_without_shared_addresses() {
    let files = network();
    let per_file = build_ip_map_from_files(&files);
    let merged = build_ip_map(&merge_servers(&files));
    for ip in ["10.0.0.1", "10.0.0.2", "10.0.0.3", "127.0.0.1", "93.184.216.34", "web", "db"] {
        let ip = ip.to_string();
        assert_eq!(per_file.get(&ip), merged.get(&ip));
        assert_eq!(per_file.is_host(&ip), merged.is_host(&ip));
    }
    assert_eq!(per_file.get(&"10.0.0.3".to_string()).map(|s| s.as_str()), Some("web"));
    assert!(per_file.is_host(&"db".to_string()));
    assert!(!per_file.is_host(&"10.0.0.2".to_string()));
}

fn entry(name: &str, contents: Option<ConnectionsFile>) -> FolderEntry {
    FolderEntry { name: name.to_string(), contents }
}

#[test]
fn only_parsed_capture_files_are_read() {
    let entries = vec![
        entry("web_1.json", Some(file("web", &["10.0.0.1"], &[], &[("10.0.0.2", 5432)]))),
        entry("graph.json", Some(file("ghost", &[], &[], &[]))),
        entry("notes.txt", Some(file("other", &[], &[], &[]))),
        entry("broken.json", None),
        entry("db_1.json", Some(file("db", &["10.0.0.2"], &[], &[]))),
    ];
    let files = capture_files(entries);
    let hosts: Vec<&str> = files.iter().map(|f| f.server.hostname.as_str()).collect();
    assert_eq!(hosts, vec!["web", "db"]);
}

#[test]
fn an_unread_file_leaves_the_graph_unchanged() {
    let make = |extra: Option<(usize, FolderEntry)>| {
        let mut entries: Vec<FolderEntry> =
            network().into_iter().enumerate().map(|(i, f)| entry(&format!("cap{}.json", i), Some(f))).collect();
        if let Some((pos, e)) = extra {
            entries.insert(pos, e);
        }
        capture_files(entries)
    };
    for trim in [false, true] {
        let base = graph_key(&build_graph(&make(None), trim));
        let extras = vec![
            (0, entry("graph.json", Some(file("x", &["1.2.3.4"], &[], &[("5.6.7.8", 1)])))),
            (1, entry("readme.md", Some(file("y", &[], &[], &[("5.6.7.8", 1)])))),
            (3, entry("bad.json", None)),
        ];
        for extra in extras {
            assert_eq!(graph_key(&build_graph(&make(Some(extra)), trim)), base);
        }
    }
}

#[test]
fn edges_to_one_address_come_from_different_hosts() {
    let g = build_graph(&network(), false);
    for (i, a) in g.edges.iter().enumerate() {
        for (j, b) in g.edges.iter().enumerate() {
            if i != j && a.target == b.target {
                assert_ne!(a.source, b.source);
            }
        }
    }
    let sources: Vec<&str> =
        g.edges.iter().filter(|e| e.target == "93.184.216.34").map(|e| e.source.as_str()).collect();
    assert_eq!(sources, vec!["db", "web"]);
}

#[test]
fn trimmed_edges_stay_sorted() {
    let g = build_graph(&network(), true);
    for w in g.edges.windows(2) {
        assert!((w[0].source.as_str(), w[0].target.as_str()) < (w[1].source.as_str(), w[1].target.as_str()));
    }
}
