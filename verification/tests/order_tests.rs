use work_ports::order::PortOrder;
use work_ports::order::ProcessOrder;
use work_ports::order::sort_and_limit_ports;
use work_ports::order::sort_and_limit_procs;
use work_ports::order::sort_port_groups;
use work_ports::order::sort_process_groups;
use work_ports::records::PortGroup;
use work_ports::records::ProcessGroup;

fn group(port: u16, score: u32, start: &str) -> PortGroup {
    PortGroup {
        port,
        process_names: vec!["p".to_string()],
        pids: vec!["1".to_string()],
        representative_command: String::new(),
        representative_start_time: start.to_string(),
        is_local: true,
        dev_score: score,
    }
}

fn pgroup(name: &str, start: &str) -> ProcessGroup {
    ProcessGroup {
        process_name: name.to_string(),
        port_pid_pairs: Vec::new(),
        representative_command: String::new(),
        representative_start_time: start.to_string(),
        is_local: true,
    }
}

#[test]
fn dev_tier_sorts_by_score_descending_then_port_ascending() {
    let tier = vec![
        group(4000, 55, "t"),
        group(3000, 80, "t"),
        group(3500, 55, "t"),
        group(9000, 80, "t"),
    ];
    let sorted = sort_port_groups(tier, PortOrder::ScoreThenPort);
    let keys: Vec<(u32, u16)> = sorted.iter().map(|g| (g.dev_score, g.port)).collect();
    assert_eq!(keys, vec![(80, 3000), (80, 9000), (55, 3500), (55, 4000)]);
}

#[test]
fn plain_tiers_sort_by_port_ascending() {
    let tier = vec![group(9000, 0, "t"), group(80, 0, "t"), group(5432, 0, "t")];
    let sorted = sort_port_groups(tier, PortOrder::PortAscending);
    let ports: Vec<u16> = sorted.iter().map(|g| g.port).collect();
    assert_eq!(ports, vec![80, 5432, 9000]);
}

#[test]
fn recent_mode_sorts_by_start_time_descending() {
    let tier = vec![
        group(1, 0, "2024-01-03 08:00"),
        group(2, 0, "2024-01-01 09:00"),
        group(3, 0, "2024-01-02 10:00"),
    ];
    let sorted = sort_port_groups(tier, PortOrder::RecentFirst);
    let ports: Vec<u16> = sorted.iter().map(|g| g.port).collect();
    assert_eq!(ports, vec![1, 3, 2]);
}

#[test]
fn process_groups_sort_by_name_ascending() {
    let tier = vec![pgroup("redis", "t"), pgroup("java", "t"), pgroup("nginx", "t")];
    let sorted = sort_process_groups(tier, ProcessOrder::NameAscending);
    let names: Vec<&str> = sorted.iter().map(|g| g.process_name.as_str()).collect();
    assert_eq!(names, vec!["java", "nginx", "redis"]);
}

#[test]
fn process_groups_sort_by_recent_start_first() {
    let tier = vec![pgroup("a", "2024-05-01"), pgroup("b", "2024-07-01")];
    let sorted = sort_process_groups(tier, ProcessOrder::RecentFirst);
    let names: Vec<&str> = sorted.iter().map(|g| g.process_name.as_str()).collect();
    assert_eq!(names, vec!["b", "a"]);
}

#[test]
fn limit_keeps_exactly_the_first_entries_after_sorting() {
    let tier = vec![
        group(5, 0, "t"),
        group(3, 0, "t"),
        group(1, 0, "t"),
        group(4, 0, "t"),
        group(2, 0, "t"),
    ];
    let limited = sort_and_limit_ports(tier, PortOrder::PortAscending, 2);
    let ports: Vec<u16> = limited.iter().map(|g| g.port).collect();
    assert_eq!(ports, vec![1, 2]);
}

#[test]
fn limit_zero_keeps_everything() {
    let tier = vec![group(5, 0, "t"), group(3, 0, "t"), group(1, 0, "t")];
    let all = sort_and_limit_ports(tier, PortOrder::PortAscending, 0);
    assert_eq!(all.len(), 3);
}

#[test]
fn limit_beyond_the_length_keeps_everything() {
    let tier = vec![pgroup("b", "t"), pgroup("a", "t")];
    let all = sort_and_limit_procs(tier, ProcessOrder::NameAscending, 10);
    assert_eq!(all.len(), 2);
}
