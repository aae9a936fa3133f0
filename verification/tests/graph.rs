use netmap::edges::classify_target;
use netmap::graph::{build_edges, build_graph, graph_from_servers, internal_nodes};
use netmap::ipmap::build_ip_map;
use netmap::merge::merge_servers;
use netmap::model::{Connection, ConnectionsFile, Graph, GraphEdge, ServerInfo};
use netmap::report::{connection_total, count_external_nodes, merged_hosts};
use netmap::trim::trim_external;
use netmap::unmerged::{build_ip_map_from_files, build_unmerged_graph};

fn file(host: &str, ips: &[&str], lbs: &[&str], conns: &[(&str, u16)]) -> ConnectionsFile {
    ConnectionsFile {
        server: ServerInfo {
            hostname: host.to_string(),
            ips: ips.iter().map(|s| s.to_string()).collect(),
            loopbacks: lbs.iter().map(|s| s.to_string()).collect(),
        },
        connections: conns
            .iter()
            .map(|(ip, p)| Connection { remote_ip: ip.to_string(), remote_port: *p })
            .collect(),
    }
}

fn sample() -> Vec<ConnectionsFile> {
    vec![
        file(
            "host-a",
            &["192.168.1.10"],
            &["127.0.0.1"],
            &[
                ("192.168.1.20", 443),
                ("192.168.1.20", 8080),
                ("127.0.0.1", 5432),
                ("8.8.8.8", 53),
                ("192.168.1.20", 443),
            ],
        ),
        file("host-b", &["192.168.1.20"], &[], &[("192.168.1.10", 22), ("1.1.1.1", 443)]),
        file(
            "host-a",
            &["10.0.0.1"],
            &["127.0.0.1"],
            &[("192.168.1.20", 443), ("10.0.0.1", 9000), ("8.8.8.8", 53)],
        ),
    ]
}

fn edge_tuple(e: &GraphEdge) -> (String, String, Vec<u16>, usize, bool, bool) {
    (
        e.source.clone(),
        e.target.clone(),
        e.ports.clone(),
        e.connection_count,
        e.is_external,
        e.is_self_loop,
    )
}

fn t(s: &str, d: &str, ports: &[u16], n: usize, ext: bool, lp: bool) -> (String, String, Vec<u16>, usize, bool, bool) {
    (s.to_string(), d.to_string(), ports.to_vec(), n, ext, lp)
}

#[test]
fn files_of_one_host_are_merged() {
    let servers = merge_servers(&sample());
    assert_eq!(servers.len(), 2);
    let a = &servers[0];
    assert_eq!(a.hostname, "host-a");
    assert_eq!(a.snapshot_count, 2);
    assert_eq!(a.ips, vec!["10.0.0.1", "192.168.1.10"]);
    assert_eq!(a.loopbacks, vec!["127.0.0.1"]);
    let conns: Vec<(String, u16)> =
        a.connections.iter().map(|c| (c.remote_ip.clone(), c.remote_port)).collect();
    assert_eq!(
        conns,
        vec![
            ("192.168.1.20".to_string(), 443),
            ("192.168.1.20".to_string(), 8080),
            ("127.0.0.1".to_string(), 5432),
            ("8.8.8.8".to_string(), 53),
            ("10.0.0.1".to_string(), 9000),
        ]
    );
    assert_eq!(a.appearances, vec![3, 1, 1, 2, 1]);
    let b = &servers[1];
    assert_eq!(b.hostname, "host-b");
    assert_eq!(b.snapshot_count, 1);
    assert_eq!(b.appearances, vec![1, 1]);
    let summary = merged_hosts(&servers);
    assert_eq!(summary, vec![("host-a".to_string(), 2)]);
}

#[test]
fn address_table_and_classification() {
    let servers = merge_servers(&sample());
    let map = build_ip_map(&servers);
    assert_eq!(map.get(&"10.0.0.1".to_string()).map(|s| s.as_str()), Some("host-a"));
    assert_eq!(map.get(&"192.168.1.20".to_string()).map(|s| s.as_str()), Some("host-b"));
    assert_eq!(map.get(&"127.0.0.1".to_string()).map(|s| s.as_str()), Some("host-a"));
    assert!(map.get(&"8.8.8.8".to_string()).is_none());
    let h = "host-a".to_string();
    let to_b = classify_target(&h, &"192.168.1.20".to_string(), &map);
    assert_eq!((to_b.id.as_str(), to_b.is_external, to_b.is_self_loop), ("host-b", false, false));
    let lo = classify_target(&h, &"127.9.9.9".to_string(), &map);
    assert_eq!((lo.id.as_str(), lo.is_external, lo.is_self_loop), ("host-a", false, true));
    let own = classify_target(&h, &"10.0.0.1".to_string(), &map);
    assert_eq!((own.id.as_str(), own.is_external, own.is_self_loop), ("host-a", false, true));
    let ext = classify_target(&h, &"8.8.8.8".to_string(), &map);
    assert_eq!((ext.id.as_str(), ext.is_external, ext.is_self_loop), ("8.8.8.8", true, false));
}

#[test]
fn later_owner_wins_in_address_table() {
    let files = vec![
        file("x", &["10.9.9.9"], &[], &[]),
        file("y", &["10.9.9.9"], &[], &[]),
    ];
    let servers = merge_servers(&files);
    let map = build_ip_map(&servers);
    assert_eq!(map.get(&"10.9.9.9".to_string()).map(|s| s.as_str()), Some("y"));
}

fn assert_sample_graph(g: &Graph) {
    let ids: Vec<&str> = g.nodes.iter().map(|n| n.id.as_str()).collect();
    assert_eq!(ids, vec!["host-a", "host-b", "8.8.8.8", "1.1.1.1"]);
    let a = &g.nodes[0];
    assert_eq!(a.hostname, "host-a");
    assert_eq!(a.ips, vec!["10.0.0.1", "192.168.1.10"]);
    assert_eq!(a.loopbacks, vec!["127.0.0.1"]);
    assert!(!a.is_external);
    assert_eq!(a.snapshot_count, 2);
    let ext = &g.nodes[2];
    assert_eq!(ext.hostname, "8.8.8.8");
    assert_eq!(ext.ips, vec!["8.8.8.8"]);
    assert!(ext.loopbacks.is_empty());
    assert!(ext.is_external);
    assert_eq!(ext.snapshot_count, 0);
    let edges: Vec<_> = g.edges.iter().map(edge_tuple).collect();
    assert_eq!(
        edges,
        vec![
            t("host-a", "8.8.8.8", &[53], 2, true, false),
            t("host-a", "host-a", &[5432, 9000], 2, false, true),
            t("host-a", "host-b", &[443, 8080], 4, false, false),
            t("host-b", "1.1.1.1", &[443], 1, true, false),
            t("host-b", "host-a", &[22], 1, false, false),
        ]
    );
}

#[test]
fn graph_of_sample_captures() {
    let g = build_graph(&sample(), false);
    assert_sample_graph(&g);
    let total: usize = g.edges.iter().map(|e| e.connection_count).sum();
    assert_eq!(Some(total), connection_total(&sample()));
    assert_eq!(count_external_nodes(&g.nodes), 2);
}

#[test]
fn graph_stages_agree_with_whole() {
    let servers = merge_servers(&sample());
    let g = graph_from_servers(&servers);
    assert_sample_graph(&g);
    let map = build_ip_map(&servers);
    let (edges, exts) = build_edges(&servers, &map);
    assert_eq!(edges.len(), 5);
    assert_eq!(exts.len(), 2);
    assert_eq!(internal_nodes(&servers).len(), 2);
}

#[test]
fn trim_removes_externals_with_one_edge() {
    let g = build_graph(&sample(), true);
    let ids: Vec<&str> = g.nodes.iter().map(|n| n.id.as_str()).collect();
    assert_eq!(ids, vec!["host-a", "host-b"]);
    let edges: Vec<_> = g.edges.iter().map(edge_tuple).collect();
    assert_eq!(
        edges,
        vec![
            t("host-a", "host-a", &[5432, 9000], 2, false, true),
            t("host-a", "host-b", &[443, 8080], 4, false, false),
            t("host-b", "host-a", &[22], 1, false, false),
        ]
    );
}

#[test]
fn trim_keeps_externals_reached_twice() {
    let mut files = sample();
    files[1].connections.push(Connection { remote_ip: "8.8.8.8".into(), remote_port: 53 });
    let full = build_graph(&files, false);
    let (nodes, edges, removed) = trim_external(full.nodes, full.edges);
    assert_eq!(removed, 1);
    let ids: Vec<&str> = nodes.iter().map(|n| n.id.as_str()).collect();
    assert_eq!(ids, vec!["host-a", "host-b", "8.8.8.8"]);
    assert!(edges.iter().all(|e| e.target != "1.1.1.1"));
    assert_eq!(edges.iter().filter(|e| e.target == "8.8.8.8").count(), 2);
}

#[test]
fn empty_input_gives_empty_graph() {
    let g = build_graph(&vec![], true);
    assert!(g.nodes.is_empty());
    assert!(g.edges.is_empty());
    assert_eq!(connection_total(&vec![]), Some(0));
}

#[test]
fn loopback_connection_is_a_self_loop() {
    let files = vec![file("solo", &["10.1.1.1"], &[], &[("::1", 631), ("127.0.0.1", 631), ("0.0.0.0", 80)])];
    let g = build_graph(&files, false);
    assert_eq!(g.nodes.len(), 1);
    let edges: Vec<_> = g.edges.iter().map(edge_tuple).collect();
    assert_eq!(edges, vec![t("solo", "solo", &[80, 631], 3, false, true)]);
}

#[test]
fn unmerged_graph_keeps_one_node_per_file() {
    let files = sample();
    let g = build_unmerged_graph(&files);
    let ids: Vec<&str> = g.nodes.iter().map(|n| n.id.as_str()).collect();
    assert_eq!(ids, vec!["host-a", "host-b", "host-a", "8.8.8.8", "1.1.1.1"]);
    assert_eq!(g.nodes[0].ips, vec!["192.168.1.10"]);
    assert_eq!(g.nodes[2].ips, vec!["10.0.0.1"]);
    let edges: Vec<_> = g.edges.iter().map(edge_tuple).collect();
    assert_eq!(
        edges,
        vec![
            t("host-a", "8.8.8.8", &[53], 2, true, false),
            t("host-a", "host-a", &[5432, 9000], 2, false, true),
            t("host-a", "host-b", &[443, 8080], 4, false, false),
            t("host-b", "1.1.1.1", &[443], 1, true, false),
            t("host-b", "host-a", &[22], 1, false, false),
        ]
    );
    let map = build_ip_map_from_files(&files);
    assert_eq!(map.get(&"10.0.0.1".to_string()).map(|s| s.as_str()), Some("host-a"));
    assert_eq!(map.get(&"192.168.1.20".to_string()).map(|s| s.as_str()), Some("host-b"));
}
