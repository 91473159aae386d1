//! The ARP entries of a macOS routing table dump (`sysctl` with
//! `NET_RT_FLAGS`/`RTF_LLINFO`): a sequence of routing messages, each a
//! fixed header followed by the socket addresses its address mask announces.

use vstd::prelude::*;
use crate::network::{dash_to_colon, normalize_mac, normalized_mac, round_up_word, roundup_to_word, word_size};
use crate::table::{pairs_insert, StrTable};
use crate::text::{
    ascii_lower_code, decimal, decimal_chars, is_ascii_lowering_of, is_white_space, string_from_chars, trim,
    trim_end, trim_start,
};
use vstd::utf8::is_ascii_chars;

verus! {

/// The size of a routing message header (`rt_msghdr`).
pub const RT_MSGHDR_SIZE: usize = 92;

/// The size of a generic socket address (`sockaddr`), taken where an address
/// gives a length of zero.
pub const SOCKADDR_SIZE: usize = 16;

/// The address family of IPv4 addresses (`AF_INET`).
pub const AF_INET: u8 = 2;

/// The address family of link-layer addresses (`AF_LINK`).
pub const AF_LINK: u8 = 18;

/// The number of address slots a message can announce (`RTAX_MAX`).
pub const RTAX_MAX: u32 = 8;

/// Byte `k` of `b`, and zero past its end.
pub open spec fn byte_at(b: Seq<u8>, k: int) -> u8 {
    if 0 <= k < b.len() {
        b[k]
    } else {
        0
    }
}

/// The little-endian 16-bit number at `k`.
pub open spec fn u16_le(b: Seq<u8>, k: int) -> int {
    byte_at(b, k) as int + 256 * byte_at(b, k + 1) as int
}

/// Bit `i` of `x` is set.
pub open spec fn bit_set(x: u8, i: u32) -> bool {
    (x >> i) & 1u8 == 1u8
}

/// The length of the socket address at `sa`: its length byte, or a generic
/// address's size where that byte is zero.
pub open spec fn sockaddr_len(b: Seq<u8>, sa: int) -> int {
    if byte_at(b, sa) == 0 {
        SOCKADDR_SIZE as int
    } else {
        byte_at(b, sa) as int
    }
}

/// The dotted-decimal text of the IPv4 address in the four bytes at `k`.
pub open spec fn ipv4_text(b: Seq<u8>, k: int) -> Seq<char> {
    decimal(byte_at(b, k) as nat) + seq!['.'] + decimal(byte_at(b, k + 1) as nat) + seq!['.']
        + decimal(byte_at(b, k + 2) as nat) + seq!['.'] + decimal(byte_at(b, k + 3) as nat)
}

/// The lower-case hexadecimal digit of `d`.
pub open spec fn hex_digit(d: u8) -> char {
    if d < 10 {
        (48 + d) as char
    } else {
        (87 + d) as char
    }
}

/// The two-digit lower-case hexadecimal text of `x`.
pub open spec fn hex2(x: u8) -> Seq<char> {
    seq![hex_digit(x / 16), hex_digit(x % 16)]
}

/// The value of the hexadecimal digit `c` (`'0'..='9'`, `'a'..='f'`); -1 for
/// any other character.
pub open spec fn hex_value(c: char) -> int {
    match c {
        '0' => 0,
        '1' => 1,
        '2' => 2,
        '3' => 3,
        '4' => 4,
        '5' => 5,
        '6' => 6,
        '7' => 7,
        '8' => 8,
        '9' => 9,
        'a' => 10,
        'b' => 11,
        'c' => 12,
        'd' => 13,
        'e' => 14,
        'f' => 15,
        _ => -1,
    }
}

/// The digit written for `d` reads back as `d`.
pub proof fn lemma_hex_digit_value(d: u8)
    requires
        d < 16,
    ensures
        hex_value(hex_digit(d)) == d,
{
    if d == 0 {
        assert(hex_digit(d) == '0');
    } else if d == 1 {
        assert(hex_digit(d) == '1');
    } else if d == 2 {
        assert(hex_digit(d) == '2');
    } else if d == 3 {
        assert(hex_digit(d) == '3');
    } else if d == 4 {
        assert(hex_digit(d) == '4');
    } else if d == 5 {
        assert(hex_digit(d) == '5');
    } else if d == 6 {
        assert(hex_digit(d) == '6');
    } else if d == 7 {
        assert(hex_digit(d) == '7');
    } else if d == 8 {
        assert(hex_digit(d) == '8');
    } else if d == 9 {
        assert(hex_digit(d) == '9');
    } else if d == 10 {
        assert(hex_digit(d) == 'a');
    } else if d == 11 {
        assert(hex_digit(d) == 'b');
    } else if d == 12 {
        assert(hex_digit(d) == 'c');
    } else if d == 13 {
        assert(hex_digit(d) == 'd');
    } else if d == 14 {
        assert(hex_digit(d) == 'e');
    } else {
        assert(hex_digit(d) == 'f');
    }
}

/// Each two-digit group of a hardware address's text, read as a
/// hexadecimal number, is the byte it was written from.
pub proof fn lemma_mac_text_bytes(b: Seq<u8>, k: int)
    ensures
        forall|j: int|
            0 <= j < 6 ==> hex_value(#[trigger] mac_text(b, k)[3 * j]) * 16 + hex_value(mac_text(b, k)[3 * j + 1])
                == byte_at(b, k + j),
{
    let s = mac_text(b, k);
    assert forall|j: int| 0 <= j < 6 implies hex_value(#[trigger] s[3 * j]) * 16 + hex_value(s[3 * j + 1])
        == byte_at(b, k + j) by {
        let x = byte_at(b, k + j);
        lemma_hex_digit_value(x / 16);
        lemma_hex_digit_value(x % 16);
        assert(s[3 * j] == hex2(x)[0] && s[3 * j + 1] == hex2(x)[1]);
    }
}


/// The colon-separated text of the six-byte hardware address at `k`.
pub open spec fn mac_text(b: Seq<u8>, k: int) -> Seq<char> {
    hex2(byte_at(b, k)) + seq![':'] + hex2(byte_at(b, k + 1)) + seq![':'] + hex2(byte_at(b, k + 2))
        + seq![':'] + hex2(byte_at(b, k + 3)) + seq![':'] + hex2(byte_at(b, k + 4)) + seq![':']
        + hex2(byte_at(b, k + 5))
}

/// `c` is a lower-case hexadecimal digit.
pub open spec fn is_lower_hex(c: char) -> bool {
    ('0' <= c <= '9') || ('a' <= c <= 'f')
}

/// `s` is a hardware address in the form [`mac_text`] writes: six two-digit
/// lower-case hexadecimal numbers joined by `':'`, 17 characters in all.
pub open spec fn is_mac_text(s: Seq<char>) -> bool {
    &&& s.len() == 17
    &&& forall|i: int|
        0 <= i < 17 ==> if i % 3 == 2 {
            #[trigger] s[i] == ':'
        } else {
            is_lower_hex(s[i])
        }
}

proof fn lemma_hex2(x: u8)
    ensures
        hex2(x).len() == 2,
        is_lower_hex(hex2(x)[0]),
        is_lower_hex(hex2(x)[1]),
{
    let hi = x / 16;
    let lo = x % 16;
    assert(hi < 16 && lo < 16);
    assert(is_lower_hex(hex_digit(hi)));
    assert(is_lower_hex(hex_digit(lo)));
}

/// The text of a six-byte hardware address has the form [`is_mac_text`].
pub proof fn lemma_mac_text_shape(b: Seq<u8>, k: int)
    ensures
        is_mac_text(mac_text(b, k)),
{
    let h = |j: int| hex2(byte_at(b, k + j));
    lemma_hex2(byte_at(b, k));
    lemma_hex2(byte_at(b, k + 1));
    lemma_hex2(byte_at(b, k + 2));
    lemma_hex2(byte_at(b, k + 3));
    lemma_hex2(byte_at(b, k + 4));
    lemma_hex2(byte_at(b, k + 5));
    let s = mac_text(b, k);
    assert(s =~= seq![
        h(0)[0], h(0)[1], ':', h(1)[0], h(1)[1], ':', h(2)[0], h(2)[1], ':',
        h(3)[0], h(3)[1], ':', h(4)[0], h(4)[1], ':', h(5)[0], h(5)[1]
    ]);
}

/// A hardware address of the form [`is_mac_text`] is ASCII, has no
/// surrounding whitespace and no `'-'`, and ASCII lowering keeps it as it is:
/// normalizing it gives it back.
pub proof fn lemma_mac_text_normal(s: Seq<char>, r: Seq<char>)
    requires
        is_mac_text(s),
    ensures
        is_ascii_chars(s),
        trim(s) == s,
        dash_to_colon(s) == s,
        is_ascii_lowering_of(r, dash_to_colon(trim(s))) ==> r == s,
{
    assert forall|i: int| 0 <= i < s.len() implies '\0' <= #[trigger] s[i] <= '\u{7f}' && !is_white_space(s[i])
        && s[i] != '-' && ascii_lower_code(s[i]) == s[i] as int by {
        if i % 3 == 2 {
            assert(s[i] == ':');
        } else {
            assert(is_lower_hex(s[i]));
        }
    }
    assert(trim_start(s) == s);
    assert(trim_end(s) == s);
    assert(dash_to_colon(s) =~= s);
    if is_ascii_lowering_of(r, dash_to_colon(trim(s))) {
        assert forall|i: int| 0 <= i < s.len() implies r[i] == s[i] by {
            assert(r[i] as int == ascii_lower_code(s[i]));
        }
        assert(r =~= s);
    }
}

/// The IP and hardware address that the socket addresses of one message give:
/// the addresses from `sa` up to the message end `end` fill the slots that
/// `addrs` announces, from slot `i` on; the destination slot holds the IP of
/// an `AF_INET` address, the gateway slot the hardware address of an
/// `AF_LINK` address of six bytes.
pub open spec fn scan_addrs(
    b: Seq<u8>,
    sa: int,
    end: int,
    addrs: u8,
    i: u32,
    ip: Option<Seq<char>>,
    mac: Option<Seq<char>>,
) -> (Option<Seq<char>>, Option<Seq<char>>)
    decreases RTAX_MAX - i,
{
    if i >= RTAX_MAX {
        (ip, mac)
    } else if !bit_set(addrs, i) {
        scan_addrs(b, sa, end, addrs, (i + 1) as u32, ip, mac)
    } else if sa >= end {
        (ip, mac)
    } else {
        let l = sockaddr_len(b, sa);
        if sa + l > end {
            (ip, mac)
        } else {
            let fam = byte_at(b, sa + 1);
            let ip2 = if i == 0 && fam == AF_INET {
                Some(ipv4_text(b, sa + 4))
            } else {
                ip
            };
            let mac2 = if i == 1 && fam == AF_LINK && byte_at(b, sa + 6) == 6 {
                Some(mac_text(b, sa + 8 + byte_at(b, sa + 5)))
            } else {
                mac
            };
            scan_addrs(b, sa + round_up_word(l), end, addrs, (i + 1) as u32, ip2, mac2)
        }
    }
}

/// The IP-to-MAC pairs of the messages from `offset` on, added to `acc`: the
/// walk stops at a message that does not fit; a message giving both an IP and
/// a hardware address stores that address under the IP.
pub open spec fn route_pairs(
    b: Seq<u8>,
    offset: int,
    acc: Seq<(Seq<char>, Seq<char>)>,
) -> Seq<(Seq<char>, Seq<char>)>
    decreases b.len() - offset,
{
    if offset < 0 || offset + RT_MSGHDR_SIZE > b.len() {
        acc
    } else {
        let ml = u16_le(b, offset);
        if ml == 0 || offset + ml > b.len() {
            acc
        } else {
            let found = scan_addrs(b, offset + RT_MSGHDR_SIZE, offset + ml, byte_at(b, offset + 12), 0, None, None);
            let acc2 = match found {
                (Some(ip), Some(mac)) => pairs_insert(acc, ip, mac),
                _ => acc,
            };
            route_pairs(b, offset + ml, acc2)
        }
    }
}

proof fn lemma_scan_mac_shape(
    b: Seq<u8>,
    sa: int,
    end: int,
    addrs: u8,
    i: u32,
    ip: Option<Seq<char>>,
    mac: Option<Seq<char>>,
)
    requires
        mac is Some ==> is_mac_text(mac->0),
    ensures
        scan_addrs(b, sa, end, addrs, i, ip, mac).1 is Some ==> is_mac_text(
            scan_addrs(b, sa, end, addrs, i, ip, mac).1->0,
        ),
    decreases RTAX_MAX - i,
{
    if i < RTAX_MAX {
        if !bit_set(addrs, i) {
            lemma_scan_mac_shape(b, sa, end, addrs, (i + 1) as u32, ip, mac);
        } else if sa < end {
            let l = sockaddr_len(b, sa);
            if sa + l <= end {
                let fam = byte_at(b, sa + 1);
                let ip2 = if i == 0 && fam == AF_INET {
                    Some(ipv4_text(b, sa + 4))
                } else {
                    ip
                };
                let mac2 = if i == 1 && fam == AF_LINK && byte_at(b, sa + 6) == 6 {
                    Some(mac_text(b, sa + 8 + byte_at(b, sa + 5)))
                } else {
                    mac
                };
                lemma_mac_text_shape(b, sa + 8 + byte_at(b, sa + 5));
                lemma_scan_mac_shape(b, sa + round_up_word(l), end, addrs, (i + 1) as u32, ip2, mac2);
            }
        }
    }
}

/// The character view of an optional character vector.
pub open spec fn opt_vec_view(o: Option<Vec<char>>) -> Option<Seq<char>> {
    match o {
        Some(v) => Some(v@),
        None => None,
    }
}

/// Byte `base + add` of `b`, and zero past its end.
fn byte_at_sum(b: &[u8], base: usize, add: usize) -> (r: u8)
    ensures
        r == byte_at(b@, base + add),
{
    if base < b.len() && add < b.len() - base {
        b[base + add]
    } else {
        0
    }
}

fn hex_digit_char(d: u8) -> (c: char)
    requires
        d < 16,
    ensures
        c == hex_digit(d),
        hex_value(c) == d,
{
    proof {
        lemma_hex_digit_value(d);
    }
    if d < 10 {
        (48u8 + d) as char
    } else {
        (87u8 + d) as char
    }
}

fn push_hex2(v: &mut Vec<char>, x: u8)
    ensures
        final(v)@ == old(v)@ + hex2(x),
{
    let ghost before = v@;
    v.push(hex_digit_char(x / 16));
    v.push(hex_digit_char(x % 16));
    assert(v@ =~= before + hex2(x));
}

fn push_decimal(v: &mut Vec<char>, x: u8)
    ensures
        final(v)@ == old(v)@ + decimal(x as nat),
{
    let ds = decimal_chars(x as u32);
    let ghost before = v@;
    let mut j: usize = 0;
    while j < ds.len()
        invariant
            j <= ds@.len(),
            v@ == before + ds@.take(j as int),
        decreases ds@.len() - j,
    {
        v.push(ds[j]);
        j = j + 1;
        assert(v@ =~= before + ds@.take(j as int));
    }
    assert(ds@.take(ds@.len() as int) =~= ds@);
}

/// Byte `base + add + extra` of `b`, and zero past its end.
fn byte_at_sum3(b: &[u8], base: usize, add: usize, extra: usize) -> (r: u8)
    ensures
        r == byte_at(b@, base + add + extra),
{
    let n = b.len();
    if base < n && add < n - base && extra < n - base - add {
        b[base + add + extra]
    } else {
        0
    }
}

fn ipv4_chars(b: &[u8], base: usize, add: usize) -> (r: Vec<char>)
    ensures
        r@ == ipv4_text(b@, base + add),
{
    let mut v: Vec<char> = Vec::new();
    push_decimal(&mut v, byte_at_sum3(b, base, add, 0));
    v.push('.');
    push_decimal(&mut v, byte_at_sum3(b, base, add, 1));
    v.push('.');
    push_decimal(&mut v, byte_at_sum3(b, base, add, 2));
    v.push('.');
    push_decimal(&mut v, byte_at_sum3(b, base, add, 3));
    assert(v@ =~= ipv4_text(b@, base + add));
    v
}

fn mac_chars(b: &[u8], base: usize, add: usize) -> (r: Vec<char>)
    ensures
        r@ == mac_text(b@, base + add),
{
    let mut v: Vec<char> = Vec::new();
    push_hex2(&mut v, byte_at_sum3(b, base, add, 0));
    v.push(':');
    push_hex2(&mut v, byte_at_sum3(b, base, add, 1));
    v.push(':');
    push_hex2(&mut v, byte_at_sum3(b, base, add, 2));
    v.push(':');
    push_hex2(&mut v, byte_at_sum3(b, base, add, 3));
    v.push(':');
    push_hex2(&mut v, byte_at_sum3(b, base, add, 4));
    v.push(':');
    push_hex2(&mut v, byte_at_sum3(b, base, add, 5));
    assert(v@ =~= mac_text(b@, base + add));
    v
}

proof fn lemma_scan_past_end(
    b: Seq<u8>,
    sa1: int,
    sa2: int,
    end: int,
    addrs: u8,
    i: u32,
    ip: Option<Seq<char>>,
    mac: Option<Seq<char>>,
)
    requires
        sa1 >= end,
        sa2 >= end,
    ensures
        scan_addrs(b, sa1, end, addrs, i, ip, mac) == scan_addrs(b, sa2, end, addrs, i, ip, mac),
    decreases RTAX_MAX - i,
{
    if i < RTAX_MAX && !bit_set(addrs, i) {
        lemma_scan_past_end(b, sa1, sa2, end, addrs, (i + 1) as u32, ip, mac);
    }
}

fn opt_chars_view(o: &Option<Vec<char>>) -> (r: Option<String>)
    ensures
        match (o, r) {
            (Some(v), Some(s)) => s@ == v@,
            (None, None) => true,
            _ => false,
        },
{
    match o {
        Some(v) => Some(string_from_chars(v)),
        None => None,
    }
}

/// The IP and hardware address of the routing message of length `ml` at `offset`.
fn scan_message(b: &[u8], offset: usize, ml: usize) -> (r: (Option<String>, Option<String>))
    requires
        offset + ml <= b@.len(),
    ensures
        ({
            let s = scan_addrs(
                b@,
                offset + RT_MSGHDR_SIZE,
                offset + ml,
                byte_at(b@, offset + 12),
                0,
                None,
                None,
            );
            &&& (r.0 is Some <==> s.0 is Some)
            &&& (r.0 is Some ==> r.0->0@ == s.0->0)
            &&& (r.1 is Some <==> s.1 is Some)
            &&& (r.1 is Some ==> r.1->0@ == s.1->0)
        }),
{
    let ghost total = scan_addrs(
        b@,
        offset + RT_MSGHDR_SIZE,
        offset + ml,
        byte_at(b@, offset + 12),
        0,
        None,
        None,
    );
    let n = b.len();
    let end: usize = offset + ml;
    let addrs = byte_at_sum(b, offset, 12);
    let mut sa: usize = if ml > RT_MSGHDR_SIZE {
        offset + RT_MSGHDR_SIZE
    } else {
        end
    };
    proof {
        if ml <= RT_MSGHDR_SIZE {
            lemma_scan_past_end(b@, offset + RT_MSGHDR_SIZE, end as int, end as int, addrs, 0, None, None);
        }
    }
    let mut ip: Option<Vec<char>> = None;
    let mut mac: Option<Vec<char>> = None;
    let mut i: u32 = 0;
    while i < RTAX_MAX
        invariant
            end == offset + ml,
            end <= b@.len(),
            sa <= end,
            i <= RTAX_MAX,
            addrs == byte_at(b@, offset + 12),
            scan_addrs(
                b@,
                sa as int,
                end as int,
                addrs,
                i,
                opt_vec_view(ip),
                opt_vec_view(mac),
            ) == total,
        ensures
            (opt_vec_view(ip), opt_vec_view(mac)) == total,
        decreases RTAX_MAX - i,
    {
        if (addrs >> i) & 1u8 == 1u8 {
            if sa >= end {
                break;
            }
            let raw = byte_at_sum(b, sa, 0);
            let l: usize = if raw == 0 {
                SOCKADDR_SIZE
            } else {
                raw as usize
            };
            if l > end - sa {
                break;
            }
            let fam = byte_at_sum(b, sa, 1);
            if i == 0 && fam == AF_INET {
                ip = Some(ipv4_chars(b, sa, 4));
            } else if i == 1 && fam == AF_LINK {
                let alen = byte_at_sum(b, sa, 6);
                if alen == 6 {
                    let nlen = byte_at_sum(b, sa, 5);
                    mac = Some(mac_chars(b, sa, 8 + nlen as usize));
                }
            }
            let step = roundup_to_word(l);
            let ghost next = sa + round_up_word(l as int);
            if step > end - sa {
                proof {
                    lemma_scan_past_end(b@, next, end as int, end as int, addrs, (i + 1) as u32,
                        opt_vec_view(ip),
                        opt_vec_view(mac));
                }
                sa = end;
            } else {
                sa = sa + step;
            }
        }
        i = i + 1;
    }
    (opt_chars_view(&ip), opt_chars_view(&mac))
}

/// Reads the IP-to-MAC table from a macOS routing table dump (the bytes that
/// `sysctl` wrote): see [`route_pairs`]. Every MAC in it is 17 lower-case
/// hexadecimal characters and colons (see [`is_mac_text`]), which
/// [`normalize_mac`] leaves as they are.
pub fn arp_map_from_route_table(buf: &[u8]) -> (t: StrTable<String>)
    ensures
        t.wf(),
        t.pairs() == route_pairs(buf@, 0, Seq::empty()),
        forall|ip: Seq<char>| #[trigger]
            t.map().dom().contains(ip) ==> is_mac_text(t.map()[ip]) && normalized_mac(t.map()[ip])
                == t.map()[ip],
{
    let n = buf.len();
    let mut t: StrTable<String> = StrTable::new();
    let mut offset: usize = 0;
    while offset <= n && n - offset >= RT_MSGHDR_SIZE
        invariant
            n == buf@.len(),
            offset <= n,
            t.wf(),
            route_pairs(buf@, offset as int, t.pairs()) == route_pairs(buf@, 0, Seq::empty()),
            forall|ip: Seq<char>| #[trigger]
                t.map().dom().contains(ip) ==> is_mac_text(t.map()[ip]) && normalized_mac(t.map()[ip])
                    == t.map()[ip],
        ensures
            t.wf(),
            t.pairs() == route_pairs(buf@, 0, Seq::empty()),
            forall|ip: Seq<char>| #[trigger]
                t.map().dom().contains(ip) ==> is_mac_text(t.map()[ip]) && normalized_mac(t.map()[ip])
                    == t.map()[ip],
        decreases n - offset,
    {
        let lo = byte_at_sum(buf, offset, 0);
        let hi = byte_at_sum(buf, offset, 1);
        let ml: usize = lo as usize + 256 * hi as usize;
        if ml == 0 || ml > n - offset {
            break;
        }
        let (ip, mac) = scan_message(buf, offset, ml);
        proof {
            lemma_scan_mac_shape(
                buf@,
                offset + RT_MSGHDR_SIZE,
                offset + ml,
                byte_at(buf@, offset + 12),
                0,
                None,
                None,
            );
        }
        match (ip, mac) {
            (Some(ip), Some(mac)) => {
                let norm = normalize_mac(mac.as_str());
                proof {
                    lemma_mac_text_normal(mac@, norm@);
                }
                t.insert(ip, norm);
            },
            _ => {},
        }
        offset = offset + ml;
    }
    t
}

} // verus!
