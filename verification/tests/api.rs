use resource_monitor::api::{get_latest, get_machine, list_machines, list_users, report};
use resource_monitor::shared::{ApiResponse, ResourceMonitorError, UtcTime};
use resource_monitor::state::{AppState, NetworkConfig};

const NOW: UtcTime = UtcTime { secs: 1_700_000_000, nanos: 5 };

fn state() -> AppState<u64> {
    AppState::new(NetworkConfig { subnet_prefix: "10.0.0".to_string(), mac_user_csv: None })
}

#[test]
fn report_then_query() {
    let mut s = state();
    let r = report(&mut s, "a".to_string(), 5, NOW);
    assert_eq!(r.timestamp, NOW);
    assert!(r.success);
    assert_eq!(r.data.as_deref(), Some("Metrics received"));
    assert_eq!(r.error, None);
    let latest = get_latest(&s, NOW);
    assert!(latest.success);
    assert_eq!(latest.timestamp, NOW);
    let agg = latest.data.unwrap();
    assert_eq!(agg.machines, vec![5]);
    assert_eq!(agg.last_updated, NOW);
    assert_eq!(list_machines(&s, NOW).data, Some(vec![5]));
    let m = get_machine(&s, "a", NOW).ok().unwrap();
    assert_eq!(m.data, Some(5));
}

#[test]
fn unknown_machine_is_not_found() {
    let s = state();
    let e = get_machine(&s, "nope", NOW).err().unwrap();
    assert!(!e.success);
    assert_eq!(e.data, None);
    assert_eq!(e.error.as_deref(), Some("Machine not found"));
}

#[test]
fn list_users_returns_snapshot() {
    let s = state();
    let r = list_users(&s, NOW);
    assert!(r.success);
    assert!(r.data.unwrap().grade_counts.is_empty());
}

#[test]
fn responses_are_stamped() {
    let ok: ApiResponse<u8> = ApiResponse::success(1, NOW);
    assert!(ok.success);
    assert_eq!(ok.data, Some(1));
    assert_eq!(ok.timestamp, NOW);
    let later = UtcTime { secs: 1_700_000_001, nanos: 0 };
    let err: ApiResponse<u8> = ApiResponse::error("boom", later);
    assert!(!err.success);
    assert_eq!(err.timestamp, later);
    assert_eq!(err.error.as_deref(), Some("boom"));
}

#[test]
fn json_errors_convert() {
    let e = serde_json::from_str::<u8>("x").unwrap_err();
    let m: ResourceMonitorError = e.into();
    assert!(matches!(m, ResourceMonitorError::SerializationError(_)));
    let others = [
        ResourceMonitorError::NetworkError("n".to_string()),
        ResourceMonitorError::SystemError("s".to_string()),
        ResourceMonitorError::ConfigError("c".to_string()),
    ];
    assert_eq!(others.len(), 3);
}
