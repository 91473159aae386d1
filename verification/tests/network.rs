use resource_monitor::network::{
    build_csv_users, build_grade_counts, build_user_presence, load_mac_user_map, normalize_mac,
    read_arp_ip_mac_map, roundup_to_word, CsvUserEntry, UserPresence, OFFLINE_FAIL_THRESHOLD,
};
use resource_monitor::table::StrTable;

fn entry(user: &str, grade: Option<&str>) -> CsvUserEntry {
    CsvUserEntry { username: user.to_string(), grade: grade.map(|g| g.to_string()) }
}

fn presence(grade: Option<&str>, status: &str) -> UserPresence {
    UserPresence { grade: grade.map(|g| g.to_string()), status: status.to_string() }
}

#[test]
fn normalize_mac_trims_and_lowers_and_replaces_dashes() {
    assert_eq!(normalize_mac("  AA-BB-CC-dd-EE-ff \t"), "aa:bb:cc:dd:ee:ff");
    assert_eq!(normalize_mac("aa:bb:cc:dd:ee:ff"), "aa:bb:cc:dd:ee:ff");
    assert_eq!(normalize_mac(""), "");
    assert_eq!(normalize_mac(" \n "), "");
}

#[test]
fn normalize_mac_is_idempotent_on_concrete_values() {
    for raw in ["AA-BB-CC-DD-EE-FF", " 0a:1B:2c:3D:4e:5F ", "x-Y"] {
        let once = normalize_mac(raw);
        assert_eq!(normalize_mac(&once), once);
    }
}

#[test]
fn normalize_mac_uses_unicode_whitespace_and_lowercase() {
    assert_eq!(normalize_mac("\u{3000}ÄB-C\u{A0}"), "äb:c");
}

#[test]
fn load_mac_user_map_reads_rows() {
    let csv = "mac,username,grade\n\
               # a comment\n\
               \n\
               AA-BB-CC-DD-EE-FF, alice , M \n\
               11:22:33:44:55:66,bob\n\
               22:22:22:22:22:22,carol,  \n\
               only-one-column\n\
               33:33:33:33:33:33,,B4\n";
    let t = load_mac_user_map(csv);
    assert_eq!(t.len(), 3);
    let a = t.get("aa:bb:cc:dd:ee:ff").unwrap();
    assert_eq!(a.username, "alice");
    assert_eq!(a.grade.as_deref(), Some("M"));
    let b = t.get("11:22:33:44:55:66").unwrap();
    assert_eq!(b.username, "bob");
    assert_eq!(b.grade, None);
    let c = t.get("22:22:22:22:22:22").unwrap();
    assert_eq!(c.grade, None);
    assert!(t.get("33:33:33:33:33:33").is_none());
    let (k0, _) = t.entry(0);
    assert_eq!(k0, "aa:bb:cc:dd:ee:ff");
}

#[test]
fn load_mac_user_map_skips_headers_in_any_case() {
    let t = load_mac_user_map("MAC,UserName,grade\nmac,x\nff:ff:ff:ff:ff:ff,USERNAME\nff:ff:ff:ff:ff:ff,dave,D\r\n");
    assert_eq!(t.len(), 1);
    assert_eq!(t.get("ff:ff:ff:ff:ff:ff").unwrap().username, "dave");
    assert_eq!(t.get("ff:ff:ff:ff:ff:ff").unwrap().grade.as_deref(), Some("D"));
}

#[test]
fn load_mac_user_map_later_row_replaces_earlier() {
    let t = load_mac_user_map("aa:aa:aa:aa:aa:aa,alice,M\nAA-AA-AA-AA-AA-AA,bob,B1\n");
    assert_eq!(t.len(), 1);
    assert_eq!(t.get("aa:aa:aa:aa:aa:aa").unwrap().username, "bob");
}

#[test]
fn read_arp_ip_mac_map_parses_proc_net_arp() {
    let arp = "IP address       HW type     Flags       HW address            Mask     Device\n\
               172.20.10.2      0x1         0x2         AA:BB:CC:DD:EE:01     *        wlan0\n\
               172.20.10.3      0x1         0x0         00:00:00:00:00:00     *        wlan0\n\
               172.20.10.4      0x1\n\
               10.0.0.1         0x1         0x2         aa-bb-cc-dd-ee-02     *        eth0\n";
    let t = read_arp_ip_mac_map(arp);
    assert_eq!(t.len(), 2);
    assert_eq!(t.get("172.20.10.2").unwrap(), "aa:bb:cc:dd:ee:01");
    assert_eq!(t.get("10.0.0.1").unwrap(), "aa:bb:cc:dd:ee:02");
    assert!(t.get("172.20.10.3").is_none());
    assert!(t.get("IP").is_none());
    assert_eq!(read_arp_ip_mac_map("").len(), 0);
    assert_eq!(read_arp_ip_mac_map("header only\n").len(), 0);
}

#[test]
fn build_csv_users_sorts_and_keeps_first_grade() {
    let mut m: StrTable<CsvUserEntry> = StrTable::new();
    m.insert("m1".to_string(), entry("zoe", None));
    m.insert("m2".to_string(), entry("adam", Some("B2")));
    m.insert("m3".to_string(), entry("zoe", Some("M1")));
    m.insert("m4".to_string(), entry("zoe", Some("D1")));
    m.insert("m5".to_string(), entry("adam", Some("B3")));
    let u = build_csv_users(&m);
    assert_eq!(u.len(), 2);
    let (k0, g0) = u.entry(0);
    let (k1, g1) = u.entry(1);
    assert_eq!(k0, "adam");
    assert_eq!(g0.as_deref(), Some("B2"));
    assert_eq!(k1, "zoe");
    assert_eq!(g1.as_deref(), Some("M1"));
}

#[test]
fn build_user_presence_marks_online_users() {
    let mut csv_users: StrTable<Option<String>> = StrTable::new();
    csv_users.insert_sorted("carol".to_string(), Some("B4".to_string()));
    csv_users.insert_sorted("alice".to_string(), None);
    let mut known: StrTable<CsvUserEntry> = StrTable::new();
    known.insert("10.0.0.1".to_string(), entry("alice", Some("M1")));
    known.insert("10.0.0.2".to_string(), entry("bob", None));
    known.insert("10.0.0.3".to_string(), entry("bob", Some("D2")));
    known.insert("10.0.0.4".to_string(), entry("carol", Some("X")));
    let mut fails: StrTable<u32> = StrTable::new();
    fails.insert("10.0.0.1".to_string(), 2);
    fails.insert("10.0.0.2".to_string(), 3);
    fails.insert("10.0.0.4".to_string(), 7);
    let p = build_user_presence(&known, &fails, &csv_users, OFFLINE_FAIL_THRESHOLD);
    assert_eq!(p.len(), 3);
    assert_eq!(p[0].grade.as_deref(), Some("M1"));
    assert_eq!(p[0].status, "online");
    assert_eq!(p[1].grade.as_deref(), Some("D2"));
    assert_eq!(p[1].status, "offline");
    assert_eq!(p[2].grade.as_deref(), Some("B4"));
    assert_eq!(p[2].status, "offline");
}

#[test]
fn build_user_presence_empty() {
    let p = build_user_presence(&StrTable::new(), &StrTable::new(), &StrTable::new(), 3);
    assert!(p.is_empty());
}

#[test]
fn build_grade_counts_counts_per_grade() {
    let users = vec![
        presence(Some(" M1 "), "online"),
        presence(Some("M1"), "offline"),
        presence(None, "online"),
        presence(Some("  "), "offline"),
        presence(Some("B4"), "offline"),
        presence(Some("B4"), "away"),
    ];
    let c = build_grade_counts(&users);
    assert_eq!(c.len(), 3);
    assert_eq!(c[0].grade, "B4");
    assert_eq!((c[0].online, c[0].offline, c[0].total), (0, 2, 2));
    assert_eq!(c[1].grade, "M1");
    assert_eq!((c[1].online, c[1].offline, c[1].total), (1, 1, 2));
    assert_eq!(c[2].grade, "未設定");
    assert_eq!((c[2].online, c[2].offline, c[2].total), (1, 1, 2));
    let sum: usize = c.iter().map(|g| g.total).sum();
    assert_eq!(sum, users.len());
}

#[test]
fn build_grade_counts_of_nobody_is_empty() {
    assert!(build_grade_counts(&[]).is_empty());
}

#[test]
fn roundup_to_word_rounds_to_word_size() {
    let w = std::mem::size_of::<usize>();
    assert_eq!(roundup_to_word(0), 0);
    assert_eq!(roundup_to_word(1), w);
    assert_eq!(roundup_to_word(w), w);
    assert_eq!(roundup_to_word(w + 1), 2 * w);
    assert_eq!(roundup_to_word(16), 16);
    assert_eq!(roundup_to_word(17), if w == 8 { 24 } else { 20 });
}

#[test]
fn roundup_to_word_reaches_the_largest_multiple() {
    let w = std::mem::size_of::<usize>();
    let top = usize::MAX - (w - 1);
    assert_eq!(roundup_to_word(top), top);
    assert_eq!(roundup_to_word(top - 1), top);
    for x in [0usize, 1, 5, 8, 9, 100] {
        let r = roundup_to_word(x);
        assert_eq!(roundup_to_word(r), r);
        assert!(r <= roundup_to_word(x + 1));
    }
}

#[test]
fn higher_threshold_never_turns_users_offline() {
    let mut csv_users: StrTable<Option<String>> = StrTable::new();
    csv_users.insert_sorted("alice".to_string(), Some("M1".to_string()));
    csv_users.insert_sorted("bob".to_string(), Some("B4".to_string()));
    let mut known: StrTable<CsvUserEntry> = StrTable::new();
    known.insert("10.0.0.1".to_string(), entry("alice", None));
    known.insert("10.0.0.2".to_string(), entry("bob", None));
    let mut fails: StrTable<u32> = StrTable::new();
    fails.insert("10.0.0.1".to_string(), 0);
    fails.insert("10.0.0.2".to_string(), 4);
    let at = |t: u32| -> Vec<(Option<String>, String)> {
        build_user_presence(&known, &fails, &csv_users, t)
            .into_iter()
            .map(|p| (p.grade, p.status))
            .collect()
    };
    let none = at(0);
    assert!(none.iter().all(|(_, s)| s == "offline"));
    let three = at(3);
    let five = at(5);
    assert_eq!(three.len(), five.len());
    for (a, b) in three.iter().zip(five.iter()) {
        assert_eq!(a.0, b.0);
        if a.1 == "online" {
            assert_eq!(b.1, "online");
        }
    }
    assert_eq!(three[0].1, "online");
    assert_eq!(three[1].1, "offline");
    assert_eq!(five[1].1, "online");
}

#[test]
fn grade_counts_of_joined_lists_add_up() {
    let a = || vec![presence(Some("M1"), "online"), presence(Some("B4"), "offline")];
    let b = || vec![presence(Some("M1"), "offline"), presence(None, "online")];
    let mut joined: Vec<UserPresence> = a();
    joined.extend(b());
    let c = build_grade_counts(&joined);
    let ca = build_grade_counts(&a());
    let cb = build_grade_counts(&b());
    let count = |cs: &[resource_monitor::state::NetworkGradeCount], g: &str| {
        cs.iter().find(|x| x.grade == g).map(|x| (x.online, x.offline)).unwrap_or((0, 0))
    };
    for g in &c {
        let (ao, af) = count(&ca, &g.grade);
        let (bo, bf) = count(&cb, &g.grade);
        assert_eq!(g.online, ao + bo);
        assert_eq!(g.offline, af + bf);
        assert_eq!(g.total, g.online + g.offline);
    }
    let grades: Vec<&str> = c.iter().map(|x| x.grade.as_str()).collect();
    assert_eq!(grades, vec!["B4", "M1", "未設定"]);
}
