use netmap::capture::{
    capture_file_name, established_connections, make_capture,
    remote_connections, sleep_steps, split_local_ips, ConnectionSet, LocalInterface, SocketEntry,
    WatchState,
};
use netmap::model::Connection;

fn iface(ip: &str, lb: bool) -> LocalInterface {
    LocalInterface { ip: ip.to_string(), is_loopback: lb }
}

fn conn(ip: &str, port: u16) -> Connection {
    Connection { remote_ip: ip.to_string(), remote_port: port }
}

fn pairs(v: &[Connection]) -> Vec<(String, u16)> {
    v.iter().map(|c| (c.remote_ip.clone(), c.remote_port)).collect()
}

#[test]
fn local_ips_split_by_loopback_flag() {
    let (ips, lbs) = split_local_ips(&vec![
        iface("192.168.1.10", false),
        iface("127.0.0.1", true),
        iface("10.0.0.5", false),
        iface("::1", true),
    ]);
    assert_eq!(ips, vec!["192.168.1.10", "10.0.0.5"]);
    assert_eq!(lbs, vec!["127.0.0.1", "::1"]);
}

#[test]
fn local_ips_never_empty() {
    let (ips, lbs) = split_local_ips(&vec![iface("127.0.0.1", true)]);
    assert_eq!(ips, vec!["127.0.0.1"]);
    assert_eq!(lbs, vec!["127.0.0.1"]);
    let (ips, lbs) = split_local_ips(&vec![]);
    assert_eq!(ips, vec!["127.0.0.1"]);
    assert!(lbs.is_empty());
}

#[test]
fn established_sockets_with_remote_port_only() {
    let entries = vec![
        SocketEntry { established: true, remote_ip: "10.0.0.2".into(), remote_port: 443 },
        SocketEntry { established: false, remote_ip: "10.0.0.3".into(), remote_port: 80 },
        SocketEntry { established: true, remote_ip: "0.0.0.0".into(), remote_port: 0 },
        SocketEntry { established: true, remote_ip: "10.0.0.2".into(), remote_port: 443 },
        SocketEntry { established: true, remote_ip: "10.0.0.2".into(), remote_port: 22 },
    ];
    let s = established_connections(&entries);
    assert_eq!(s.len(), 2);
    assert_eq!(pairs(&s.connections()), vec![("10.0.0.2".to_string(), 443), ("10.0.0.2".to_string(), 22)]);
}

#[test]
fn remote_sockets_keep_repeats() {
    let entries = vec![conn("10.0.0.2", 443), conn("0.0.0.0", 0), conn("10.0.0.2", 443), conn("10.0.0.9", 5432)];
    let v = remote_connections(&entries);
    assert_eq!(
        pairs(&v),
        vec![("10.0.0.2".to_string(), 443), ("10.0.0.2".to_string(), 443), ("10.0.0.9".to_string(), 5432)]
    );
}

#[test]
fn connection_set_insert_and_extend() {
    let mut a = ConnectionSet::new();
    assert!(a.insert("1.1.1.1".into(), 53));
    assert!(!a.insert("1.1.1.1".into(), 53));
    assert!(a.insert("1.1.1.1".into(), 443));
    assert!(a.contains(&"1.1.1.1".to_string(), 443));
    assert!(!a.contains(&"1.1.1.1".to_string(), 80));
    let mut b = ConnectionSet::new();
    b.insert("8.8.8.8".into(), 53);
    b.insert("1.1.1.1".into(), 53);
    let added = a.extend_from(&b);
    assert_eq!(added, 1);
    assert_eq!(a.len(), 3);
    assert_eq!(
        pairs(&a.connections()),
        vec![("1.1.1.1".to_string(), 53), ("1.1.1.1".to_string(), 443), ("8.8.8.8".to_string(), 53)]
    );
}

#[test]
fn watch_mode_accumulates_scans() {
    let mut w = WatchState::new();
    let mut s1 = ConnectionSet::new();
    s1.insert("10.0.0.2".into(), 443);
    let r1 = w.record_scan(&s1);
    assert_eq!((r1.scan, r1.accumulated, r1.added), (1, 1, 1));
    let mut s2 = ConnectionSet::new();
    s2.insert("10.0.0.2".into(), 443);
    s2.insert("10.0.0.3".into(), 22);
    let r2 = w.record_scan(&s2);
    assert_eq!((r2.scan, r2.accumulated, r2.added), (2, 2, 1));
    let r3 = w.record_scan(&ConnectionSet::new());
    assert_eq!((r3.scan, r3.accumulated, r3.added), (3, 2, 0));
}

#[test]
fn sleep_steps_are_tenths_of_seconds() {
    assert_eq!(sleep_steps(2), 20);
    assert_eq!(sleep_steps(0), 0);
}

#[test]
fn capture_file_contents_and_name() {
    let mut seen = ConnectionSet::new();
    seen.insert("192.168.1.20".into(), 443);
    let f = make_capture("host-a", vec!["192.168.1.10".into()], vec!["127.0.0.1".into()], &seen);
    assert_eq!(f.server.hostname, "host-a");
    assert_eq!(f.server.ips, vec!["192.168.1.10"]);
    assert_eq!(f.server.loopbacks, vec!["127.0.0.1"]);
    assert_eq!(pairs(&f.connections), vec![("192.168.1.20".to_string(), 443)]);
    assert_eq!(capture_file_name("host-a", 1700000000), "host-a_1700000000.json");
    assert_eq!(capture_file_name("h", 0), "h_0.json");
}
