use resource_monitor::network::{load_mac_user_map, build_csv_users, read_arp_ip_mac_map};
use resource_monitor::presence::{
    ip_in_subnet, next_probe, subnet_ips, subnet_probe_targets, PresenceTracker, ProbeOutcome, ProbeStep,
};

const ROSTER: &str = "mac,username,grade\n\
                      aa:aa:aa:aa:aa:01,alice,M1\n\
                      aa:aa:aa:aa:aa:02,bob,B4\n\
                      aa:aa:aa:aa:aa:03,carol,\n";

const ARP: &str = "IP address HW type Flags HW address Mask Device\n\
                   172.20.10.5 0x1 0x2 AA:AA:AA:AA:AA:01 * wlan0\n\
                   172.20.10.6 0x1 0x2 aa-aa-aa-aa-aa-02 * wlan0\n\
                   192.168.1.9 0x1 0x2 aa:aa:aa:aa:aa:03 * eth0\n\
                   172.20.10.7 0x1 0x2 bb:bb:bb:bb:bb:bb * wlan0\n";

#[test]
fn ip_in_subnet_needs_prefix_and_dot() {
    assert!(ip_in_subnet("172.20.10.5", "172.20.10"));
    assert!(!ip_in_subnet("172.20.100.5", "172.20.10"));
    assert!(!ip_in_subnet("172.20.10", "172.20.10"));
    assert!(!ip_in_subnet("10.0.0.1", "172.20.10"));
}

#[test]
fn subnet_ips_keeps_table_order() {
    let arp = read_arp_ip_mac_map(ARP);
    assert_eq!(subnet_ips(&arp, "172.20.10"), vec!["172.20.10.5", "172.20.10.6", "172.20.10.7"]);
}

#[test]
fn probe_targets_cover_hosts_2_to_254() {
    let t = subnet_probe_targets("10.1.2");
    assert_eq!(t.len(), 253);
    assert_eq!(t[0], "10.1.2.2");
    assert_eq!(t[8], "10.1.2.10");
    assert_eq!(t[252], "10.1.2.254");
}

#[test]
fn observe_learns_and_counts() {
    let roster = load_mac_user_map(ROSTER);
    let arp = read_arp_ip_mac_map(ARP);
    let mut tracker = PresenceTracker::new();
    tracker.observe("172.20.10", &arp, &roster, &["172.20.10.5".to_string()]);
    let known = tracker.known_ip_to_user();
    assert_eq!(known.len(), 2);
    assert_eq!(known.get("172.20.10.5").unwrap().username, "alice");
    assert_eq!(known.get("172.20.10.6").unwrap().username, "bob");
    assert!(known.get("192.168.1.9").is_none());
    assert_eq!(*tracker.fail_counts().get("172.20.10.5").unwrap(), 0);
    assert_eq!(*tracker.fail_counts().get("172.20.10.6").unwrap(), 4);
}

#[test]
fn device_goes_offline_on_third_silent_scan() {
    let roster = load_mac_user_map(ROSTER);
    let csv_users = build_csv_users(&roster);
    let arp = read_arp_ip_mac_map(ARP);
    let mut tracker = PresenceTracker::new();
    tracker.observe("172.20.10", &arp, &roster, &["172.20.10.5".to_string()]);
    let online_of_m1 = |t: &PresenceTracker| {
        let snap = t.snapshot(&csv_users);
        snap.grade_counts.iter().find(|g| g.grade == "M1").map(|g| g.online).unwrap()
    };
    assert_eq!(online_of_m1(&tracker), 1);
    tracker.observe("172.20.10", &arp, &roster, &[]);
    assert_eq!(online_of_m1(&tracker), 1);
    tracker.observe("172.20.10", &arp, &roster, &[]);
    assert_eq!(online_of_m1(&tracker), 1);
    tracker.observe("172.20.10", &arp, &roster, &[]);
    assert_eq!(online_of_m1(&tracker), 0);
    assert_eq!(*tracker.fail_counts().get("172.20.10.5").unwrap(), 3);
}

#[test]
fn snapshot_counts_every_roster_user() {
    let roster = load_mac_user_map(ROSTER);
    let csv_users = build_csv_users(&roster);
    let arp = read_arp_ip_mac_map(ARP);
    let mut tracker = PresenceTracker::new();
    tracker.observe("172.20.10", &arp, &roster, &["172.20.10.6".to_string()]);
    let snap = tracker.snapshot(&csv_users);
    let grades: Vec<(&str, usize, usize, usize)> = snap
        .grade_counts
        .iter()
        .map(|g| (g.grade.as_str(), g.online, g.offline, g.total))
        .collect();
    assert_eq!(grades, vec![("B4", 1, 0, 1), ("M1", 0, 1, 1), ("未設定", 0, 1, 1)]);
}

#[test]
fn online_exactly_when_answered_in_last_three_scans() {
    let roster = load_mac_user_map(ROSTER);
    let arp = read_arp_ip_mac_map(ARP);
    let mut tracker = PresenceTracker::new();
    let bob = "172.20.10.6".to_string();
    let answered = [false, true, false, false, true, false, false, false];
    for (n, a) in answered.iter().enumerate() {
        let active: Vec<String> = if *a { vec![bob.clone()] } else { vec![] };
        assert!(tracker.observe_checked("172.20.10", &arp, &roster, &active));
        let count = *tracker.fail_counts().get("172.20.10.6").unwrap();
        let recent = (n.saturating_sub(2)..=n).any(|j| answered[j]);
        assert_eq!(count < 3, recent, "scan {}", n);
    }
}

#[test]
fn addresses_outside_the_subnet_change_nothing() {
    let roster = load_mac_user_map(ROSTER);
    let csv_users = build_csv_users(&roster);
    let inside = read_arp_ip_mac_map(
        "IP address HW type Flags HW address Mask Device\n\
         172.20.10.5 0x1 0x2 aa:aa:aa:aa:aa:01 * wlan0\n",
    );
    let with_outside = read_arp_ip_mac_map(
        "IP address HW type Flags HW address Mask Device\n\
         172.20.100.5 0x1 0x2 aa:aa:aa:aa:aa:02 * wlan0\n\
         172.20.10.5 0x1 0x2 aa:aa:aa:aa:aa:01 * wlan0\n\
         10.0.0.9 0x1 0x2 aa:aa:aa:aa:aa:03 * eth0\n",
    );
    assert_eq!(subnet_ips(&with_outside, "172.20.10"), subnet_ips(&inside, "172.20.10"));
    let mut t1 = PresenceTracker::new();
    let mut t2 = PresenceTracker::new();
    for active in [vec!["172.20.10.5".to_string()], vec![], vec![]] {
        t1.observe("172.20.10", &inside, &roster, &active);
        t2.observe("172.20.10", &with_outside, &roster, &active);
        let s1: Vec<_> = t1.snapshot(&csv_users).grade_counts.into_iter().map(|g| (g.grade, g.online, g.offline)).collect();
        let s2: Vec<_> = t2.snapshot(&csv_users).grade_counts.into_iter().map(|g| (g.grade, g.online, g.offline)).collect();
        assert_eq!(s1, s2);
    }
    assert_eq!(t2.known_ip_to_user().len(), 1);
}

#[test]
fn liveness_probe_tries_ports_in_turn() {
    let ports = [22u16, 53, 80, 123, 443, 445, 631, 62078];
    assert_eq!(next_probe(0, None), ProbeStep::Try(22));
    for (i, p) in ports.iter().enumerate().skip(1) {
        assert_eq!(next_probe(i, Some(ProbeOutcome::Silent)), ProbeStep::Try(*p));
    }
    assert_eq!(next_probe(8, Some(ProbeOutcome::Silent)), ProbeStep::Dead);
    assert_eq!(next_probe(3, Some(ProbeOutcome::Refused)), ProbeStep::Live);
    assert_eq!(next_probe(8, Some(ProbeOutcome::Connected)), ProbeStep::Live);
}
