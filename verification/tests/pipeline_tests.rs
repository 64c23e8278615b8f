use work_ports::pipeline::SortMode;
use work_ports::pipeline::classify;
use work_ports::records::ListenerRecord;
use work_ports::records::RuleSet;

fn record(port: u16, process: &str, pid: &str, command: &str, start: &str, addr: &str) -> ListenerRecord {
    ListenerRecord {
        port,
        process_name: process.to_string(),
        pid: pid.to_string(),
        command_line: command.to_string(),
        start_time: start.to_string(),
        address: addr.to_string(),
    }
}

fn default_rules() -> RuleSet {
    RuleSet {
        dev_process_names: ["node", "vite", "webpack", "python", "cargo", "npm", "deno", "bun"]
            .iter()
            .map(|s| s.to_string())
            .collect(),
        dev_keywords: ["dev", "serve", "watch", "hot"].iter().map(|s| s.to_string()).collect(),
        exclude_process_names: Vec::new(),
        score_threshold: 30,
    }
}

#[test]
fn dev_server_lands_in_the_dev_tier_and_service_is_hidden() {
    let records = vec![
        record(3000, "node", "111", "vite dev", "t1", "127.0.0.1"),
        record(5432, "postgres", "222", "postgres -D /data", "t2", "*"),
    ];
    let r = classify(records, &default_rules(), false, SortMode::Standard, 0);
    assert_eq!(r.dev_tier.len(), 1);
    assert_eq!(r.dev_tier[0].port, 3000);
    assert!(r.dev_tier[0].dev_score >= 30);
    assert_eq!(r.others_tier.len(), 0);
    assert_eq!(r.multis_tier.len(), 0);
    assert_eq!(r.process_groups.len(), 0);
    assert_eq!(r.total_count, 1);
}

#[test]
fn empty_input_yields_four_empty_tiers() {
    let r = classify(Vec::new(), &default_rules(), true, SortMode::Standard, 0);
    assert_eq!(r.dev_tier.len(), 0);
    assert_eq!(r.others_tier.len(), 0);
    assert_eq!(r.multis_tier.len(), 0);
    assert_eq!(r.process_groups.len(), 0);
    assert_eq!(r.total_count, 0);
}

#[test]
fn each_tier_is_capped_independently() {
    let records = vec![
        record(3000, "node", "1", "vite dev", "t", "127.0.0.1"),
        record(3001, "node", "1", "vite dev", "t", "127.0.0.1"),
        record(3002, "node", "1", "vite dev", "t", "127.0.0.1"),
        record(80, "nginx", "2", "nginx", "t", "203.0.113.9"),
    ];
    let r = classify(records, &default_rules(), true, SortMode::Standard, 2);
    assert_eq!(r.dev_tier.len(), 2);
    assert_eq!(r.others_tier.len(), 1);
    assert_eq!(r.total_count, 3);
}

#[test]
fn full_pipeline_routes_each_kind_of_listener() {
    let records = vec![
        record(3000, "node", "1", "vite dev", "t4", "127.0.0.1"),
        record(81, "postgres", "2", "postgres", "t3", "198.51.100.4"),
        record(82, "nginx", "3", "nginx", "t2", "198.51.100.4"),
        record(82, "nginx", "4", "nginx", "t1", "198.51.100.4"),
        record(7001, "redis", "5", "redis", "t5", "198.51.100.4"),
        record(7002, "redis", "6", "redis", "t6", "198.51.100.4"),
    ];
    let r = classify(records, &default_rules(), true, SortMode::Standard, 0);
    assert_eq!(r.dev_tier.len(), 1);
    assert_eq!(r.dev_tier[0].port, 3000);
    assert_eq!(r.others_tier.len(), 1);
    assert_eq!(r.others_tier[0].port, 81);
    assert_eq!(r.multis_tier.len(), 1);
    assert_eq!(r.multis_tier[0].port, 82);
    assert_eq!(r.multis_tier[0].pids.len(), 2);
    assert_eq!(r.process_groups.len(), 1);
    assert_eq!(r.process_groups[0].process_name, "redis");
    assert_eq!(r.process_groups[0].port_pid_pairs.len(), 2);
    assert_eq!(r.total_count, 4);
}

#[test]
fn recent_mode_orders_by_start_time_across_tiers() {
    let records = vec![
        record(3000, "node", "1", "vite dev", "2024-02", "127.0.0.1"),
        record(3001, "node", "2", "vite dev", "2024-09", "127.0.0.1"),
        record(3002, "node", "3", "vite dev", "2024-05", "127.0.0.1"),
    ];
    let r = classify(records, &default_rules(), false, SortMode::Recent, 0);
    let starts: Vec<&str> = r.dev_tier.iter().map(|g| g.representative_start_time.as_str()).collect();
    assert_eq!(starts, vec!["2024-09", "2024-05", "2024-02"]);
}
