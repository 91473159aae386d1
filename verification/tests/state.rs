use resource_monitor::state::{AppState, NetworkConfig, NetworkGradeCount, NetworkUsersSnapshot, MAX_HISTORY};

fn config() -> NetworkConfig {
    NetworkConfig { subnet_prefix: "172.20.10".to_string(), mac_user_csv: None }
}

#[test]
fn new_state_is_empty() {
    let s: AppState<u64> = AppState::new(config());
    assert!(s.get_latest_metrics().is_empty());
    assert_eq!(s.get_machine_latest("a"), None);
    assert_eq!(s.network_config().subnet_prefix, "172.20.10");
    assert!(s.network_snapshot().grade_counts.is_empty());
}

#[test]
fn latest_is_last_added() {
    let mut s: AppState<u64> = AppState::new(config());
    s.add_metrics("a".to_string(), 1);
    s.add_metrics("b".to_string(), 10);
    s.add_metrics("a".to_string(), 2);
    assert_eq!(s.get_machine_latest("a"), Some(2));
    assert_eq!(s.get_machine_latest("b"), Some(10));
    assert_eq!(s.get_machine_latest("c"), None);
    assert_eq!(s.get_latest_metrics(), vec![2, 10]);
}

#[test]
fn history_is_bounded() {
    let mut s: AppState<u64> = AppState::new(config());
    for i in 0..(MAX_HISTORY as u64 + 50) {
        s.add_metrics("m".to_string(), i);
    }
    assert_eq!(s.get_machine_latest("m"), Some(MAX_HISTORY as u64 + 49));
    assert_eq!(s.get_latest_metrics().len(), 1);
    assert_eq!(MAX_HISTORY, 288);
}

#[test]
fn snapshot_roundtrip() {
    let mut s: AppState<u64> = AppState::new(config());
    let snap = NetworkUsersSnapshot {
        grade_counts: vec![NetworkGradeCount { grade: "M1".to_string(), online: 1, offline: 2, total: 3 }],
    };
    s.set_network_snapshot(snap);
    let got = s.network_snapshot();
    assert_eq!(got.grade_counts.len(), 1);
    assert_eq!(got.grade_counts[0].grade, "M1");
    assert_eq!(got.grade_counts[0].total, 3);
}

#[test]
fn default_snapshot_is_empty() {
    assert!(NetworkUsersSnapshot::default().grade_counts.is_empty());
}

#[test]
fn reports_in_sequence_leave_each_machines_last() {
    let reports = [("a", 1u64), ("b", 2), ("a", 3), ("c", 4), ("b", 5), ("a", 6)];
    let mut s: AppState<u64> = AppState::new(config());
    for (id, m) in reports.iter() {
        s.add_metrics(id.to_string(), *m);
        assert_eq!(s.get_machine_latest(id), Some(*m));
    }
    assert_eq!(s.get_latest_metrics(), vec![6, 5, 4]);
    assert_eq!(s.get_machine_latest("d"), None);
}
