use resource_monitor::network::normalize_mac;
use resource_monitor::route::arp_map_from_route_table;

fn message(ip: [u8; 4], mac: [u8; 6], with_mac: bool) -> Vec<u8> {
    let mut m = vec![0u8; 92];
    m[12] = 0b11;
    let mut sin = vec![0u8; 16];
    sin[0] = 16;
    sin[1] = 2;
    sin[4..8].copy_from_slice(&ip);
    let mut sdl = vec![0u8; 20];
    sdl[0] = 20;
    sdl[1] = 18;
    sdl[5] = 3;
    sdl[6] = if with_mac { 6 } else { 0 };
    sdl[8..11].copy_from_slice(b"en0");
    sdl[11..17].copy_from_slice(&mac);
    m.extend_from_slice(&sin);
    m.extend_from_slice(&sdl);
    let w = std::mem::size_of::<usize>();
    while (m.len() - 92 - 16) % w != 0 {
        m.push(0);
    }
    let len = m.len() as u16;
    m[0] = (len & 0xff) as u8;
    m[1] = (len >> 8) as u8;
    m
}

#[test]
fn route_table_gives_ip_and_mac() {
    let mut buf = message([192, 168, 1, 10], [0xAA, 0x0B, 0xCC, 0x01, 0x02, 0xFF], true);
    buf.extend(message([10, 0, 0, 1], [1, 2, 3, 4, 5, 6], false));
    buf.extend(message([10, 0, 0, 2], [0x10, 0x20, 0x30, 0x40, 0x50, 0x60], true));
    let t = arp_map_from_route_table(&buf);
    assert_eq!(t.len(), 2);
    assert_eq!(t.get("192.168.1.10").unwrap(), "aa:0b:cc:01:02:ff");
    assert_eq!(t.get("10.0.0.2").unwrap(), "10:20:30:40:50:60");
    assert!(t.get("10.0.0.1").is_none());
}

#[test]
fn route_table_stops_at_bad_length() {
    let mut buf = message([1, 2, 3, 4], [1, 1, 1, 1, 1, 1], true);
    let mut bad = message([5, 6, 7, 8], [2, 2, 2, 2, 2, 2], true);
    bad[0] = 0;
    bad[1] = 0;
    buf.extend(bad);
    buf.extend(message([9, 9, 9, 9], [3, 3, 3, 3, 3, 3], true));
    let t = arp_map_from_route_table(&buf);
    assert_eq!(t.len(), 1);
    assert_eq!(t.get("1.2.3.4").unwrap(), "01:01:01:01:01:01");
    assert_eq!(arp_map_from_route_table(&[]).len(), 0);
    assert_eq!(arp_map_from_route_table(&[0u8; 91]).len(), 0);
}

#[test]
fn route_table_macs_are_canonical() {
    let mut buf = message([172, 20, 10, 3], [0xDE, 0xAD, 0xBE, 0xEF, 0x00, 0x9A], true);
    buf.extend(message([172, 20, 10, 4], [0xFF; 6], true));
    let t = arp_map_from_route_table(&buf);
    assert_eq!(t.len(), 2);
    for i in 0..t.len() {
        let (_, mac) = t.entry(i);
        assert_eq!(mac.len(), 17);
        assert!(mac.chars().enumerate().all(|(k, c)| if k % 3 == 2 {
            c == ':'
        } else {
            c.is_ascii_hexdigit() && !c.is_ascii_uppercase()
        }));
        assert_eq!(&normalize_mac(mac), mac);
    }
}
