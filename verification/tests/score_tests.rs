use work_ports::records::RuleSet;
use work_ports::score::score;

fn rules(
    dev_process_names: &[&str],
    dev_keywords: &[&str],
    exclude_process_names: &[&str],
) -> RuleSet {
    RuleSet {
        dev_process_names: dev_process_names.iter().map(|s| s.to_string()).collect(),
        dev_keywords: dev_keywords.iter().map(|s| s.to_string()).collect(),
        exclude_process_names: exclude_process_names.iter().map(|s| s.to_string()).collect(),
        score_threshold: 30,
    }
}

#[test]
fn score_is_deterministic() {
    let rs = rules(&["node"], &["dev"], &[]);
    let first = score("node", "vite dev", 3000, "127.0.0.1", &rs);
    let second = score("node", "vite dev", 3000, "127.0.0.1", &rs);
    assert_eq!(first, second);
}

#[test]
fn exclusion_dominates_all_other_signals() {
    let rs = rules(&["node"], &["dev"], &["code helper"]);
    let s = score("Code Helper", "node webpack dev", 3000, "127.0.0.1", &rs);
    assert_eq!(s, 0);
}

#[test]
fn exclusion_matches_command_line_too() {
    let rs = rules(&["node"], &["dev"], &["updater"]);
    let s = score("node", "node Updater.js dev", 3000, "127.0.0.1", &rs);
    assert_eq!(s, 0);
}

#[test]
fn all_four_signals_sum_to_eighty() {
    let rs = rules(&["node"], &["vite", "dev"], &[]);
    let s = score("node", "vite dev --port 3000", 3000, "127.0.0.1", &rs);
    assert_eq!(s, 80);
}

#[test]
fn name_match_is_case_insensitive_substring() {
    let rs = rules(&["node"], &[], &[]);
    assert_eq!(score("NodeJS-Worker", "", 80, "example.com", &rs), 30);
    assert_eq!(score("postgres", "", 80, "example.com", &rs), 0);
}

#[test]
fn keyword_match_is_case_insensitive_substring() {
    let rs = rules(&[], &["serve"], &[]);
    assert_eq!(score("x", "python -m http.SERVER", 80, "example.com", &rs), 25);
    assert_eq!(score("x", "postgres -D /data", 80, "example.com", &rs), 0);
}

#[test]
fn every_local_address_form_scores_ten() {
    let rs = rules(&[], &[], &[]);
    for addr in ["127.0.0.1", "localhost", "0.0.0.0", "*", "[::1]", "[::]"] {
        assert_eq!(score("x", "y", 80, addr, &rs), 10);
    }
    assert_eq!(score("x", "y", 80, "192.168.1.5", &rs), 0);
}

#[test]
fn dev_port_ranges_score_fifteen() {
    let rs = rules(&[], &[], &[]);
    for port in [3000u16, 3999, 4000, 4999, 5000, 5999, 8000, 8999, 9000, 9999] {
        assert_eq!(score("x", "y", port, "example.com", &rs), 15);
    }
    for port in [80u16, 443, 2999, 6000, 7999, 10000, 65535] {
        assert_eq!(score("x", "y", port, "example.com", &rs), 0);
    }
}
