use work_ports::aggregate::deduplicate_pids;
use work_ports::aggregate::group_by_port;
use work_ports::config::Config;
use work_ports::config::PortEntry;
use work_ports::filter::filter_port_infos;
use work_ports::records::ListenerRecord;
use work_ports::records::RuleSet;

fn record(port: u16, process: &str, pid: &str, command: &str, start: &str, addr: &str) -> ListenerRecord {
    ListenerRecord {
        port,
        process_name: process.to_string(),
        pid: pid.to_string(),
        command_line: command.to_string(),
        start_time: start.to_string(),
        address: addr.to_string(),
    }
}

fn no_rules() -> RuleSet {
    RuleSet {
        dev_process_names: Vec::new(),
        dev_keywords: Vec::new(),
        exclude_process_names: Vec::new(),
        score_threshold: 30,
    }
}

#[test]
fn same_pid_on_one_port_is_kept_once() {
    let records = vec![
        record(5000, "alpha", "42", "alpha --x", "t1", "127.0.0.1"),
        record(5000, "beta", "42", "beta --y", "t2", "127.0.0.1"),
    ];
    let groups = group_by_port(records, &no_rules());
    assert_eq!(groups.len(), 1);
    assert_eq!(groups[0].pids, vec!["42"]);
    assert_eq!(groups[0].process_names, vec!["alpha", "beta"]);
}

#[test]
fn first_record_supplies_representative_fields() {
    let records = vec![
        record(5000, "alpha", "1", "alpha --first", "early", "127.0.0.1"),
        record(5000, "beta", "2", "beta --second", "late", "10.0.0.9"),
    ];
    let groups = group_by_port(records, &no_rules());
    assert_eq!(groups.len(), 1);
    assert_eq!(groups[0].representative_command, "alpha --first");
    assert_eq!(groups[0].representative_start_time, "early");
    assert!(groups[0].is_local);
    assert_eq!(groups[0].pids, vec!["1", "2"]);
}

#[test]
fn groups_come_out_in_first_seen_port_order() {
    let records = vec![
        record(9000, "c", "3", "c", "t", "*"),
        record(3000, "a", "1", "a", "t", "*"),
        record(9000, "c2", "4", "c2", "t", "*"),
        record(5432, "b", "2", "b", "t", "*"),
    ];
    let groups = group_by_port(records, &no_rules());
    let ports: Vec<u16> = groups.iter().map(|g| g.port).collect();
    assert_eq!(ports, vec![9000, 3000, 5432]);
}

#[test]
fn dev_score_is_computed_from_the_first_record() {
    let rules = RuleSet {
        dev_process_names: vec!["node".to_string()],
        dev_keywords: vec!["dev".to_string()],
        exclude_process_names: Vec::new(),
        score_threshold: 30,
    };
    let records = vec![
        record(3000, "node", "1", "vite dev", "t", "127.0.0.1"),
        record(5432, "postgres", "2", "postgres -D /data", "t", "192.168.0.7"),
    ];
    let groups = group_by_port(records, &rules);
    assert_eq!(groups[0].dev_score, 80);
    // 5432 sits in the 5000-5999 development range; nothing else matches.
    assert_eq!(groups[1].dev_score, 15);
    assert!(groups[0].is_local);
    assert!(!groups[1].is_local);
}

#[test]
fn deduplicate_pids_keeps_first_occurrences() {
    let records = vec![
        record(1, "a", "9", "a", "t", "*"),
        record(2, "b", "7", "b", "t", "*"),
        record(3, "c", "9", "c", "t", "*"),
        record(4, "d", "8", "d", "t", "*"),
        record(5, "e", "7", "e", "t", "*"),
    ];
    let pids = deduplicate_pids(&records);
    assert_eq!(pids, vec!["9", "7", "8"]);
}

#[test]
fn filter_applies_port_process_and_monitoring() {
    let records = vec![
        record(3000, "node", "1", "vite", "t", "*"),
        record(5432, "postgres", "2", "pg", "t", "*"),
        record(8080, "NodeHelper", "3", "helper", "t", "*"),
    ];
    let config = Config { ports: vec![PortEntry { ports: "3000,8080".to_string(), name: None }] };

    let by_port = filter_port_infos(clone_records(&records), Some(5432), None, true, &config);
    assert_eq!(by_port.len(), 1);
    assert_eq!(by_port[0].process_name, "postgres");

    let by_process = filter_port_infos(clone_records(&records), None, Some("node"), true, &config);
    assert_eq!(by_process.len(), 2);

    let monitored_only = filter_port_infos(clone_records(&records), None, None, false, &config);
    let ports: Vec<u16> = monitored_only.iter().map(|r| r.port).collect();
    assert_eq!(ports, vec![3000, 8080]);
}

fn clone_records(records: &[ListenerRecord]) -> Vec<ListenerRecord> {
    records
        .iter()
        .map(|r| ListenerRecord {
            port: r.port,
            process_name: r.process_name.clone(),
            pid: r.pid.clone(),
            command_line: r.command_line.clone(),
            start_time: r.start_time.clone(),
            address: r.address.clone(),
        })
        .collect()
}
