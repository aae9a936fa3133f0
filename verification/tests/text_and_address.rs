use netmap::address::is_loopback_ip;
use netmap::cli::{is_capture_file_name, parse_command, parse_options, positional_folder, Command};
use netmap::order::{insert_sorted_port, insert_sorted_str, str_less};
use netmap::text::{parse_u64, push_decimal, trimmed_chars};

#[test]
fn loopback_ipv4_range() {
    assert!(is_loopback_ip("127.0.0.1"));
    assert!(is_loopback_ip("127.255.3.9"));
    assert!(!is_loopback_ip("128.0.0.1"));
    assert!(!is_loopback_ip("10.0.0.1"));
    assert!(!is_loopback_ip("127"));
    assert!(!is_loopback_ip(""));
}

#[test]
fn loopback_unspecified_and_ipv6() {
    assert!(is_loopback_ip("0.0.0.0"));
    assert!(is_loopback_ip("::"));
    assert!(is_loopback_ip("::1"));
    assert!(!is_loopback_ip("::2"));
    assert!(!is_loopback_ip("0.0.0.1"));
    assert!(!is_loopback_ip("fe80::1"));
}

#[test]
fn loopback_ipv4_mapped() {
    assert!(is_loopback_ip("::ffff:127.0.0.1"));
    assert!(!is_loopback_ip("::ffff:10.1.2.3"));
    assert!(!is_loopback_ip("::ffff:"));
}

#[test]
fn loopback_ignores_surrounding_whitespace() {
    assert!(is_loopback_ip("  127.0.0.1\n"));
    assert!(is_loopback_ip("\t::1 "));
    assert!(is_loopback_ip("\u{3000}::\u{2003}"));
    assert!(!is_loopback_ip(" 1 27.0.0.1"));
}

#[test]
fn trimming_matches_str_trim() {
    for s in ["", "  ", " a b ", "\u{85}x\u{a0}", "\u{200b}y", "z"] {
        let t: String = trimmed_chars(s).into_iter().collect();
        assert_eq!(t, s.trim());
    }
}

#[test]
fn parse_u64_matches_from_str() {
    for s in [
        "5",
        "+7",
        "+",
        "",
        "-5",
        "007",
        "12a",
        " 3",
        "18446744073709551615",
        "18446744073709551616",
        "99999999999999999999",
        "0",
    ] {
        assert_eq!(parse_u64(s), s.parse::<u64>().ok(), "input {:?}", s);
    }
}

#[test]
fn decimal_text() {
    for n in [0u64, 7, 10, 1700000000, u64::MAX] {
        let mut s = String::from("x");
        push_decimal(&mut s, n);
        assert_eq!(s, format!("x{}", n));
    }
}

#[test]
fn string_order_matches_std() {
    let words = ["", "a", "ab", "b", "B", "10.0.0.2", "10.0.0.10", "é", "z"];
    for a in words {
        for b in words {
            assert_eq!(str_less(a, b), a < b, "{:?} < {:?}", a, b);
        }
    }
}

#[test]
fn sorted_insertion() {
    let mut v: Vec<String> = Vec::new();
    for s in ["b", "a", "c", "a", "b"] {
        insert_sorted_str(&mut v, &s.to_string());
    }
    assert_eq!(v, vec!["a", "b", "c"]);
    let mut p: Vec<u16> = Vec::new();
    for x in [443u16, 80, 8080, 80, 22] {
        insert_sorted_port(&mut p, x);
    }
    assert_eq!(p, vec![22, 80, 443, 8080]);
}

fn args(list: &[&str]) -> Vec<String> {
    list.iter().map(|s| s.to_string()).collect()
}

#[test]
fn command_selection() {
    assert!(matches!(parse_command(&args(&["netmap"])), Command::Help));
    assert!(matches!(parse_command(&args(&["netmap", "graph", "--help"])), Command::Help));
    assert!(matches!(parse_command(&args(&["netmap", "-h"])), Command::Help));
    assert!(matches!(parse_command(&args(&["netmap", "capture"])), Command::Capture));
    assert!(matches!(parse_command(&args(&["netmap", "graph"])), Command::Graph));
    assert!(matches!(parse_command(&args(&["netmap", "run", "--watch"])), Command::Run));
    match parse_command(&args(&["netmap", "draw"])) {
        Command::Unknown(s) => assert_eq!(s, "draw"),
        _ => panic!("expected an unknown subcommand"),
    }
}

#[test]
fn option_defaults() {
    let o = parse_options(&args(&["netmap", "graph"]));
    assert!(!o.trim_external);
    assert!(!o.watch);
    assert_eq!(o.folder, ".");
    assert_eq!(o.output_dir, ".");
    assert_eq!(o.interval_secs, 2);
}

#[test]
fn option_values() {
    let o = parse_options(&args(&[
        "netmap",
        "run",
        "--watch",
        "--interval",
        "3",
        "--folder",
        "/data/snapshots",
        "--trim-external",
    ]));
    assert!(o.trim_external);
    assert!(o.watch);
    assert_eq!(o.folder, "/data/snapshots");
    assert_eq!(o.output_dir, "/data/snapshots");
    assert_eq!(o.interval_secs, 3);
    let o = parse_options(&args(&["netmap", "capture", "--output-dir", "out", "--interval", "x"]));
    assert_eq!(o.folder, ".");
    assert_eq!(o.output_dir, "out");
    assert_eq!(o.interval_secs, 2);
    let o = parse_options(&args(&["netmap", "capture", "--interval"]));
    assert_eq!(o.interval_secs, 2);
    let o = parse_options(&args(&["netmap", "--folder", "a", "--folder", "b"]));
    assert_eq!(o.folder, "a");
}

#[test]
fn capture_file_names() {
    assert!(is_capture_file_name("host-a_1700000000.json"));
    assert!(is_capture_file_name("x.tar.json"));
    assert!(!is_capture_file_name("graph.json"));
    assert!(!is_capture_file_name(".json"));
    assert!(!is_capture_file_name("json"));
    assert!(!is_capture_file_name("a.JSON"));
    assert!(!is_capture_file_name("a.json.bak"));
    assert!(!is_capture_file_name(".."));
    assert!(!is_capture_file_name(""));
    for name in ["a.json", "graph.json", ".json", "b.txt", "c.", "..json", "graph.json.json"] {
        let p = std::path::Path::new(name);
        let expected = p.extension().and_then(|e| e.to_str()) == Some("json") && name != "graph.json";
        assert_eq!(is_capture_file_name(name), expected, "{:?}", name);
    }
}

#[test]
fn positional_folder_is_the_first_non_flag_argument() {
    let args = |v: &[&str]| v.iter().map(|s| s.to_string()).collect::<Vec<String>>();
    assert_eq!(positional_folder(&args(&["net-graph-builder"])), ".");
    assert_eq!(positional_folder(&args(&["net-graph-builder", "--trim-external", "/data"])), "/data");
    assert_eq!(positional_folder(&args(&["net-graph-builder", "snaps", "--trim-external"])), "snaps");
    assert_eq!(positional_folder(&args(&["net-graph-builder", "--trim-external"])), ".");
    assert_eq!(positional_folder(&args(&["net-graph-builder", "-x", "other"])), "-x");
    assert_eq!(positional_folder(&args(&[])), ".");
}
