use resource_monitor::agent::{machine_id_for, parse_uid_repr, username_or_id};

#[test]
fn uid_repr_parses() {
    assert_eq!(parse_uid_repr("Uid(1000)"), Some(1000));
    assert_eq!(parse_uid_repr("Uid(+7)"), Some(7));
    assert_eq!(parse_uid_repr("Uid(abc)"), Some(u32::MAX));
    assert_eq!(parse_uid_repr("Uid()"), Some(u32::MAX));
    assert_eq!(parse_uid_repr("Uid(4294967296)"), Some(u32::MAX));
    assert_eq!(parse_uid_repr("Uid(4294967295)"), Some(4294967295));
    assert_eq!(parse_uid_repr("1000"), None);
    assert_eq!(parse_uid_repr("Uid(12"), None);
}

#[test]
fn machine_id_prefers_given_then_hostname() {
    let fresh = "123e4567-e89b-42d3-a456-426614174000";
    assert_eq!(machine_id_for(Some("m1".to_string()), "host", fresh.to_string()), "m1");
    assert_eq!(machine_id_for(None, "host", fresh.to_string()), "host");
    assert_eq!(machine_id_for(None, "", fresh.to_string()), fresh);
}

#[test]
fn username_falls_back_to_id() {
    assert_eq!(username_or_id(1000, Some("alice".to_string())), "alice");
    assert_eq!(username_or_id(1000, None), "1000");
    assert_eq!(username_or_id(0, None), "0");
}
