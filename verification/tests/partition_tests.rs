use work_ports::partition::partition;
use work_ports::records::PortGroup;
use work_ports::regroup::group_by_process;

fn group(port: u16, names: &[&str], pids: &[&str], score: u32) -> PortGroup {
    PortGroup {
        port,
        process_names: names.iter().map(|s| s.to_string()).collect(),
        pids: pids.iter().map(|s| s.to_string()).collect(),
        representative_command: format!("cmd-{}", port),
        representative_start_time: format!("start-{}", port),
        is_local: true,
        dev_score: score,
    }
}

#[test]
fn tiers_cover_every_group_exactly_once_when_showing_all() {
    let groups = vec![
        group(3000, &["node"], &["1"], 80),
        group(5432, &["postgres"], &["2"], 0),
        group(6000, &["nginx"], &["3", "4"], 0),
        group(7001, &["redis"], &["5"], 0),
        group(7002, &["redis"], &["6"], 0),
    ];
    let (dev, others, multis, seed) = partition(groups, 30, true);
    let mut all_ports: Vec<u16> = Vec::new();
    all_ports.extend(dev.iter().map(|g| g.port));
    all_ports.extend(others.iter().map(|g| g.port));
    all_ports.extend(multis.iter().map(|g| g.port));
    all_ports.extend(seed.iter().map(|g| g.port));
    all_ports.sort();
    assert_eq!(all_ports, vec![3000, 5432, 6000, 7001, 7002]);

    assert_eq!(dev.len(), 1);
    assert_eq!(dev[0].port, 3000);
    assert_eq!(others.len(), 1);
    assert_eq!(others[0].port, 5432);
    assert_eq!(multis.len(), 1);
    assert_eq!(multis[0].port, 6000);
    assert_eq!(seed.len(), 2);
}

#[test]
fn hiding_the_remainder_leaves_only_the_dev_tier() {
    let groups = vec![
        group(3000, &["node"], &["1"], 80),
        group(5432, &["postgres"], &["2"], 0),
        group(7001, &["redis"], &["5"], 0),
        group(7002, &["redis"], &["6"], 0),
    ];
    let (dev, others, multis, seed) = partition(groups, 30, false);
    assert_eq!(dev.len(), 1);
    assert_eq!(others.len(), 0);
    assert_eq!(multis.len(), 0);
    assert_eq!(seed.len(), 0);
}

#[test]
fn threshold_is_inclusive() {
    let groups = vec![group(80, &["a"], &["1"], 30), group(81, &["b"], &["2"], 29)];
    let (dev, others, _multis, _seed) = partition(groups, 30, true);
    assert_eq!(dev.len(), 1);
    assert_eq!(dev[0].port, 80);
    assert_eq!(others.len(), 1);
    assert_eq!(others[0].port, 81);
}

#[test]
fn bucket_with_one_group_and_many_pids_is_contended() {
    let groups = vec![group(6000, &["nginx", "nginx"], &["3", "4"], 0)];
    let (_dev, others, multis, seed) = partition(groups, 30, true);
    assert_eq!(others.len(), 0);
    assert_eq!(multis.len(), 1);
    assert_eq!(seed.len(), 0);
}

#[test]
fn regroup_collects_every_port_pid_pair_exactly_once() {
    let seed = vec![
        group(7001, &["redis"], &["5", "7"], 0),
        group(7002, &["redis"], &["6"], 0),
        group(8001, &["java"], &["9"], 0),
    ];
    let out = group_by_process(seed);
    assert_eq!(out.len(), 2);
    assert_eq!(out[0].process_name, "redis");
    assert_eq!(
        out[0].port_pid_pairs,
        vec![(7001, "5".to_string()), (7001, "7".to_string()), (7002, "6".to_string())]
    );
    assert_eq!(out[1].process_name, "java");
    assert_eq!(out[1].port_pid_pairs, vec![(8001, "9".to_string())]);
}

#[test]
fn regroup_takes_representatives_from_the_first_group() {
    let seed = vec![group(7001, &["redis"], &["5"], 0), group(7002, &["redis"], &["6"], 0)];
    let out = group_by_process(seed);
    assert_eq!(out.len(), 1);
    assert_eq!(out[0].representative_command, "cmd-7001");
    assert_eq!(out[0].representative_start_time, "start-7001");
    assert!(out[0].is_local);
}

#[test]
fn regroup_keys_by_first_process_name() {
    let seed = vec![
        group(1, &["web", "helper"], &["1"], 0),
        group(2, &["web"], &["2"], 0),
        group(3, &["helper", "web"], &["3"], 0),
    ];
    let out = group_by_process(seed);
    assert_eq!(out.len(), 2);
    assert_eq!(out[0].process_name, "web");
    assert_eq!(out[0].port_pid_pairs.len(), 2);
    assert_eq!(out[1].process_name, "helper");
    assert_eq!(out[1].port_pid_pairs.len(), 1);
}
