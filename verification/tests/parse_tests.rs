use work_ports::config::Config;
use work_ports::config::PortEntry;
use work_ports::inspect::extract_address;
use work_ports::inspect::extract_port;
use work_ports::inspect::parse_socket_line;
use work_ports::inspect::split_fields;
use work_ports::text::parse_u16;
use work_ports::text::trim_str;

fn entry(ports: &str) -> PortEntry {
    PortEntry { ports: ports.to_string(), name: None }
}

#[test]
fn extract_port_takes_text_after_last_colon() {
    assert_eq!(extract_port("127.0.0.1:8080"), Some("8080"));
    assert_eq!(extract_port("*:3000"), Some("3000"));
    assert_eq!(extract_port("[::1]:443"), Some("443"));
    assert_eq!(extract_port("localhost"), Some("localhost"));
    assert_eq!(extract_port("a:b:c"), Some("c"));
    assert_eq!(extract_port(""), Some(""));
}

#[test]
fn parse_u16_accepts_plain_and_signed_digits() {
    assert_eq!(parse_u16("3000"), Some(3000));
    assert_eq!(parse_u16("+3000"), Some(3000));
    assert_eq!(parse_u16("0"), Some(0));
    assert_eq!(parse_u16("65535"), Some(65535));
    assert_eq!(parse_u16("65536"), None);
    assert_eq!(parse_u16("123456789"), None);
    assert_eq!(parse_u16(""), None);
    assert_eq!(parse_u16("+"), None);
    assert_eq!(parse_u16("30a0"), None);
    assert_eq!(parse_u16("-1"), None);
}

#[test]
fn trim_removes_surrounding_whitespace_only() {
    assert_eq!(trim_str("  3000 \t"), "3000");
    assert_eq!(trim_str("a b"), "a b");
    assert_eq!(trim_str("   "), "");
    assert_eq!(trim_str(""), "");
}

#[test]
fn split_fields_ignores_runs_of_whitespace() {
    let fields = split_fields("node   111\tuser  TCP");
    assert_eq!(fields, vec!["node", "111", "user", "TCP"]);
    let empty = split_fields("   \t  ");
    assert_eq!(empty.len(), 0);
}

#[test]
fn extract_address_takes_text_before_last_colon() {
    assert_eq!(extract_address("127.0.0.1:8080"), "127.0.0.1");
    assert_eq!(extract_address("*:3000"), "*");
    assert_eq!(extract_address("[::1]:443"), "[::1]");
    assert_eq!(extract_address("localhost"), "localhost");
}

#[test]
fn parse_socket_line_reads_process_pid_port_and_address() {
    let line = "node      111 user   23u  IPv4 0x0      0t0  TCP 127.0.0.1:3000 (LISTEN)";
    let parsed = parse_socket_line(line);
    assert!(parsed.is_some());
    let (process, pid, port, address) = parsed.unwrap();
    assert_eq!(process, "node");
    assert_eq!(pid, "111");
    assert_eq!(port, 3000);
    assert_eq!(address, "127.0.0.1");
}

#[test]
fn parse_socket_line_rejects_short_or_portless_lines() {
    assert!(parse_socket_line("too short").is_none());
    let named_port = "cupsd 200 root 8u IPv4 0x0 0t0 TCP localhost:ipp (LISTEN)";
    assert!(parse_socket_line(named_port).is_none());
}

#[test]
fn single_port_pattern_matches_exactly() {
    let e = entry("3000");
    assert!(e.matches(3000));
    assert!(!e.matches(3001));
}

#[test]
fn range_pattern_matches_inclusively() {
    let e = entry("3000-3100");
    assert!(e.matches(3000));
    assert!(e.matches(3050));
    assert!(e.matches(3100));
    assert!(!e.matches(2999));
    assert!(!e.matches(3101));
}

#[test]
fn mixed_pattern_matches_every_piece() {
    let e = entry("3000-3010,4000,5000-5100");
    assert!(e.matches(3005));
    assert!(e.matches(4000));
    assert!(e.matches(5100));
    assert!(!e.matches(4500));
}

#[test]
fn pattern_pieces_may_carry_whitespace() {
    let e = entry(" 8080 , 9090 - 9095 ");
    assert!(e.matches(8080));
    assert!(e.matches(9092));
    assert!(!e.matches(8081));
}

#[test]
fn unparsable_pieces_match_nothing() {
    assert!(!entry("abc").matches(3000));
    assert!(!entry("70000").matches(3000));
    assert!(!entry("").matches(0));
    assert!(!entry("-500").matches(500));
}

#[test]
fn config_monitors_port_when_any_entry_matches() {
    let config = Config { ports: vec![entry("3000"), entry("8000-8999")] };
    assert!(config.is_monitored(3000));
    assert!(config.is_monitored(8500));
    assert!(!config.is_monitored(4000));
    let empty = Config { ports: Vec::new() };
    assert!(!empty.is_monitored(3000));
}
