//! The network roster: MAC addresses mapped to users, the ARP table, and the
//! bookkeeping that turns liveness probes into per-grade presence counts.

use vstd::prelude::*;
use crate::table::{distinct_keys, lemma_pairs_insert, keys_sorted, lemma_pairs_map_dom, lemma_pairs_map_index, lemma_sorted_distinct, pairs_map, pairs_insert, StrTable};
use crate::text::{lemma_str_lt_irreflexive, lemma_str_lt_transitive, str_lt};
use vstd::utf8::is_ascii_chars;
use crate::state::NetworkGradeCount;
use crate::text::{
    ascii_lower_code, is_ascii_lowering_of, is_white_space, lemma_trim_chars_from, lemma_trim_ends,
    lemma_trim_fixed,
    chars_eq, chars_eq_ignore_ascii_case, chars_of, eq_ignore_ascii_case, lines, lines_of,
    opt_view, seq_views, split_chars, split_on, str_lowercase, string_from_chars, to_lowercase,
    split_whitespace_chars, trim, trim_chars, words,
};

verus! {

/// Seconds between two network scans.
pub const NETWORK_SCAN_INTERVAL_SECS: u64 = 10;

/// Failed probes after which an address counts as offline.
pub const OFFLINE_FAIL_THRESHOLD: u32 = 3;

/// A roster row: the user that a MAC address belongs to, with their grade if
/// the roster gives one.
#[derive(Debug)]
pub struct CsvUserEntry {
    pub username: String,
    pub grade: Option<String>,
}

impl View for CsvUserEntry {
    type V = (Seq<char>, Option<Seq<char>>);

    open spec fn view(&self) -> (Seq<char>, Option<Seq<char>>) {
        (self.username@, opt_view(self.grade))
    }
}

impl DeepView for CsvUserEntry {
    type V = (Seq<char>, Option<Seq<char>>);

    open spec fn deep_view(&self) -> (Seq<char>, Option<Seq<char>>) {
        self@
    }
}

impl Clone for CsvUserEntry {
    fn clone(&self) -> (r: Self)
        ensures
            r@ == self@,
    {
        CsvUserEntry { username: self.username.clone(), grade: clone_opt_string(&self.grade) }
    }
}

/// A copy of an optional string.
pub fn clone_opt_string(o: &Option<String>) -> (r: Option<String>)
    ensures
        opt_view(r) == opt_view(*o),
{
    match o {
        Some(s) => Some(s.clone()),
        None => None,
    }
}

/// `s` with every `'-'` replaced by `':'`.
pub open spec fn dash_to_colon(s: Seq<char>) -> Seq<char> {
    s.map_values(|c: char| if c == '-' { ':' } else { c })
}

/// The canonical form of a MAC address: trimmed, `'-'` separators turned into
/// `':'`, and lower-cased.
pub open spec fn normalized_mac(s: Seq<char>) -> Seq<char> {
    str_lowercase(dash_to_colon(trim(s)))
}

fn normalize_mac_chars(mac: &[char]) -> (r: String)
    ensures
        r@ == normalized_mac(mac@),
        is_ascii_chars(mac@) ==> is_ascii_lowering_of(r@, dash_to_colon(trim(mac@))),
{
    let t = trim_chars(mac);
    let mut u: Vec<char> = Vec::new();
    let mut i: usize = 0;
    while i < t.len()
        invariant
            i <= t@.len(),
            u@ == dash_to_colon(t@.take(i as int)),
        decreases t@.len() - i,
    {
        let c = t[i];
        if c == '-' {
            u.push(':');
        } else {
            u.push(c);
        }
        i = i + 1;
        assert(u@ =~= dash_to_colon(t@.take(i as int)));
    }
    assert(t@.take(t@.len() as int) =~= t@);
    let joined = string_from_chars(&u);
    proof {
        if is_ascii_chars(mac@) {
            lemma_trim_chars_from(mac@);
            assert forall|i: int| 0 <= i < u@.len() implies '\0' <= #[trigger] u@[i] <= '\u{7f}' by {
                let j = choose|j: int| 0 <= j < mac@.len() && mac@[j] == trim(mac@)[i];
                assert(mac@[j] == t@[i]);
            }
        }
    }
    to_lowercase(joined.as_str())
}

/// Puts a MAC address into canonical form (see [`normalized_mac`]); for an
/// ASCII address the lower-casing is ASCII lowering.
pub fn normalize_mac(mac: &str) -> (r: String)
    ensures
        r@ == normalized_mac(mac@),
        is_ascii_chars(mac@) ==> is_ascii_lowering_of(r@, dash_to_colon(trim(mac@))),
{
    let cs = chars_of(mac);
    normalize_mac_chars(&cs)
}

/// Normalizing an ASCII MAC address a second time changes nothing: the
/// result has no surrounding whitespace, no `'-'` and no upper-case letter.
pub proof fn lemma_normalize_mac_idempotent(s: Seq<char>, t: Seq<char>, u: Seq<char>)
    requires
        is_ascii_chars(s),
        is_ascii_lowering_of(t, dash_to_colon(trim(s))),
        is_ascii_lowering_of(u, dash_to_colon(trim(t))),
    ensures
        u == t,
        is_ascii_chars(t),
{
    let d = dash_to_colon(trim(s));
    lemma_trim_ends(s);
    lemma_trim_chars_from(s);
    assert forall|i: int| 0 <= i < t.len() implies !is_white_space(#[trigger] t[i]) || (i != 0
        && i != t.len() - 1) by {
        if i == 0 || i == t.len() - 1 {
            assert(!is_white_space(trim(s)[i]));
        }
    }
    assert forall|i: int| 0 <= i < t.len() implies '\0' <= #[trigger] t[i] <= '\u{7f}' by {
        let j = choose|j: int| 0 <= j < s.len() && s[j] == trim(s)[i];
        assert(s[j] == trim(s)[i]);
        let c = trim(s)[i];
        assert(d[i] == (if c == '-' { ':' } else { c }));
        assert(d[i] <= '\u{7f}');
        assert(t[i] as int == ascii_lower_code(d[i]));
    }
    if t.len() > 0 {
        assert(!is_white_space(t[0]));
        assert(!is_white_space(t[t.len() - 1]));
    }
    lemma_trim_fixed(t);
    assert forall|i: int| 0 <= i < t.len() implies #[trigger] t[i] != '-' && !('A' <= t[i] <= 'Z') by {
        assert(t[i] as int == ascii_lower_code(d[i]));
    }
    assert(dash_to_colon(t) =~= t);
    assert forall|i: int| 0 <= i < t.len() implies u[i] == t[i] by {
        assert(u[i] as int == ascii_lower_code(t[i]));
    }
    assert(u =~= t);
}

/// The roster row that a line of the MAC/user CSV gives, keyed by the
/// normalized MAC: `None` for blank lines, `#` comments, lines of fewer than
/// two columns, the header line, and rows with an empty MAC or user name.
pub open spec fn csv_row(line: Seq<char>) -> Option<(Seq<char>, (Seq<char>, Option<Seq<char>>))> {
    let t = trim(line);
    if t.len() == 0 || t[0] == '#' {
        None
    } else {
        let cols = split_on(t, ',').map_values(|c: Seq<char>| trim(c));
        if cols.len() < 2 {
            None
        } else {
            let mac = normalized_mac(cols[0]);
            let user = cols[1];
            let grade = if cols.len() > 2 && trim(cols[2]).len() > 0 {
                Some(trim(cols[2]))
            } else {
                None
            };
            if mac == seq!['m', 'a', 'c'] || eq_ignore_ascii_case(
                user,
                seq!['u', 's', 'e', 'r', 'n', 'a', 'm', 'e'],
            ) {
                None
            } else if mac.len() > 0 && user.len() > 0 {
                Some((mac, (user, grade)))
            } else {
                None
            }
        }
    }
}

/// The roster's row for a MAC is the last line that gives one: a row for MAC
/// `k` at line `i` stands when no later line gives a row for `k`.
pub proof fn lemma_roster_last_row_wins(ls: Seq<Seq<char>>, i: int)
    requires
        0 <= i < ls.len(),
        csv_row(ls[i]) is Some,
        forall|j: int| i < j < ls.len() ==> csv_row(#[trigger] ls[j]) is None || csv_row(ls[j]).unwrap().0
            != csv_row(ls[i]).unwrap().0,
    ensures
        distinct_keys(mac_user_pairs(ls)),
        pairs_map(mac_user_pairs(ls)).dom().contains(csv_row(ls[i]).unwrap().0),
        pairs_map(mac_user_pairs(ls))[csv_row(ls[i]).unwrap().0] == csv_row(ls[i]).unwrap().1,
    decreases ls.len(),
{
    let prev = ls.drop_last();
    lemma_roster_pairs_distinct(prev);
    let p = mac_user_pairs(prev);
    if i == ls.len() - 1 {
        let r = csv_row(ls.last())->0;
        lemma_pairs_insert(p, r.0, r.1);
    } else {
        assert forall|j: int| i < j < prev.len() implies csv_row(#[trigger] prev[j]) is None || csv_row(prev[j]).unwrap().0
            != csv_row(prev[i]).unwrap().0 by {
            assert(prev[j] == ls[j]);
        }
        assert(prev[i] == ls[i]);
        lemma_roster_last_row_wins(prev, i);
        let last = ls[ls.len() - 1];
        assert(ls.last() == last);
        match csv_row(ls.last()) {
            Some(r) => {
                lemma_pairs_insert(p, r.0, r.1);
            },
            None => {},
        }
    }
}

/// The grade of a roster row is its third column, trimmed, whatever columns
/// follow; a row whose third column is missing or blank has no grade.
pub proof fn lemma_roster_grade_column(line: Seq<char>)
    requires
        csv_row(line) is Some,
    ensures
        split_on(trim(line), ',').len() >= 3 && trim(split_on(trim(line), ',')[2]).len() > 0 ==> (csv_row(
            line,
        ) matches Some((_, (_, g))) && g == Some(trim(split_on(trim(line), ',')[2]))),
        split_on(trim(line), ',').len() < 3 || trim(split_on(trim(line), ',')[2]).len() == 0 ==> (csv_row(
            line,
        ) matches Some((_, (_, g))) && g is None),
{
    let sp = split_on(trim(line), ',');
    if sp.len() >= 3 {
        let c = trim(sp[2]);
        lemma_trim_ends(sp[2]);
        lemma_trim_fixed(c);
    }
}

/// Every row of the roster has a non-empty MAC and a non-empty user name.
pub proof fn lemma_roster_keys_nonempty(ls: Seq<Seq<char>>)
    ensures
        forall|k: Seq<char>| #[trigger]
            pairs_map(mac_user_pairs(ls)).dom().contains(k) ==> k.len() > 0 && pairs_map(
                mac_user_pairs(ls),
            )[k].0.len() > 0,
    decreases ls.len(),
{
    if ls.len() > 0 {
        let prev = ls.drop_last();
        lemma_roster_keys_nonempty(prev);
        lemma_roster_pairs_distinct(prev);
        match csv_row(ls.last()) {
            Some(r) => {
                lemma_pairs_insert(mac_user_pairs(prev), r.0, r.1);
            },
            None => {},
        }
    }
}


proof fn lemma_roster_pairs_distinct(ls: Seq<Seq<char>>)
    ensures
        distinct_keys(mac_user_pairs(ls)),
    decreases ls.len(),
{
    if ls.len() > 0 {
        lemma_roster_pairs_distinct(ls.drop_last());
        match csv_row(ls.last()) {
            Some(r) => {
                lemma_pairs_insert(mac_user_pairs(ls.drop_last()), r.0, r.1);
            },
            None => {},
        }
    }
}

/// The roster that the CSV lines `ls` describe: each row in turn stored under
/// its MAC, a later row for the same MAC replacing the earlier one.
pub open spec fn mac_user_pairs(ls: Seq<Seq<char>>) -> Seq<(Seq<char>, (Seq<char>, Option<Seq<char>>))>
    decreases ls.len(),
{
    if ls.len() == 0 {
        Seq::empty()
    } else {
        let p = mac_user_pairs(ls.drop_last());
        match csv_row(ls.last()) {
            Some(r) => pairs_insert(p, r.0, r.1),
            None => p,
        }
    }
}

fn csv_row_of(line: &[char]) -> (r: Option<(String, CsvUserEntry)>)
    ensures
        match r {
            Some(e) => csv_row(line@) == Some((e.0@, e.1@)),
            None => csv_row(line@) is None,
        },
{
    let t = trim_chars(line);
    if t.len() == 0 || t[0] == '#' {
        return None;
    }
    let raw = split_chars(&t, ',');
    let mut cols: Vec<Vec<char>> = Vec::new();
    let mut i: usize = 0;
    while i < raw.len()
        invariant
            i <= raw@.len(),
            seq_views(cols@) == seq_views(raw@.take(i as int)).map_values(|c: Seq<char>| trim(c)),
        decreases raw@.len() - i,
    {
        let c = trim_chars(&raw[i]);
        let ghost before = seq_views(cols@);
        cols.push(c);
        assert(seq_views(cols@) =~= before.push(trim(raw@[i as int]@)));
        assert(raw@.take(i + 1) =~= raw@.take(i as int).push(raw@[i as int]));
        i = i + 1;
        assert(seq_views(cols@) =~= seq_views(raw@.take(i as int)).map_values(
            |c: Seq<char>| trim(c),
        ));
    }
    assert(raw@.take(raw@.len() as int) =~= raw@);
    let ghost colv = split_on(t@, ',').map_values(|c: Seq<char>| trim(c));
    assert(seq_views(cols@) =~= colv);
    if cols.len() < 2 {
        return None;
    }
    assert(cols[0]@ == colv[0] && cols[1]@ == colv[1]);
    let mac = normalize_mac_chars(&cols[0]);
    let grade: Option<String> = if cols.len() > 2 {
        assert(cols[2]@ == colv[2]);
        let g = trim_chars(&cols[2]);
        if g.len() > 0 {
            Some(string_from_chars(&g))
        } else {
            None
        }
    } else {
        None
    };
    let mac_chars = chars_of(mac.as_str());
    let header = vec!['m', 'a', 'c'];
    let user_word = vec!['u', 's', 'e', 'r', 'n', 'a', 'm', 'e'];
    assert(header@ =~= seq!['m', 'a', 'c']);
    assert(user_word@ =~= seq!['u', 's', 'e', 'r', 'n', 'a', 'm', 'e']);
    if chars_eq(&mac_chars, &header) || chars_eq_ignore_ascii_case(&cols[1], &user_word) {
        return None;
    }
    if mac_chars.len() > 0 && cols[1].len() > 0 {
        let username = string_from_chars(&cols[1]);
        Some((mac, CsvUserEntry { username, grade }))
    } else {
        None
    }
}

/// Reads the MAC/user roster from the text of its CSV file (lines of
/// `mac,username[,grade]`; see [`csv_row`] for the lines that are skipped).
pub fn load_mac_user_map(content: &str) -> (t: StrTable<CsvUserEntry>)
    ensures
        t.wf(),
        t.pairs() == mac_user_pairs(lines(content@)),
        forall|k: Seq<char>| #[trigger] t.map().dom().contains(k) ==> k.len() > 0 && t.map()[k].0.len() > 0,
{
    let cs = chars_of(content);
    let ls = lines_of(&cs);
    let ghost lv = lines(content@);
    let mut t: StrTable<CsvUserEntry> = StrTable::new();
    let mut i: usize = 0;
    assert(lv.take(0) =~= Seq::<Seq<char>>::empty());
    while i < ls.len()
        invariant
            i <= ls@.len(),
            seq_views(ls@) == lv,
            t.wf(),
            t.pairs() == mac_user_pairs(lv.take(i as int)),
        decreases ls@.len() - i,
    {
        assert(lv.take(i + 1).drop_last() =~= lv.take(i as int));
        assert(ls[i as int]@ == lv[i as int]);
        match csv_row_of(&ls[i]) {
            Some(e) => {
                t.insert(e.0, e.1);
            },
            None => {},
        }
        i = i + 1;
    }
    assert(lv.take(lv.len() as int) =~= lv);
    proof {
        lemma_roster_keys_nonempty(lv);
    }
    t
}

/// The MAC address that the ARP table shows for an incomplete entry.
pub open spec fn zero_mac() -> Seq<char> {
    seq!['0', '0', ':', '0', '0', ':', '0', '0', ':', '0', '0', ':', '0', '0', ':', '0', '0']
}

/// The (IP, MAC) pair that a line of `/proc/net/arp` gives: its first field
/// and its normalized fourth field; `None` for lines of fewer than four
/// fields and for incomplete entries.
pub open spec fn arp_row(line: Seq<char>) -> Option<(Seq<char>, Seq<char>)> {
    let parts = words(line);
    if parts.len() < 4 {
        None
    } else {
        let mac = normalized_mac(parts[3]);
        if mac == zero_mac() {
            None
        } else {
            Some((parts[0], mac))
        }
    }
}

/// The lines of the ARP table after its header line.
pub open spec fn arp_body(ls: Seq<Seq<char>>) -> Seq<Seq<char>> {
    if ls.len() == 0 {
        ls
    } else {
        ls.drop_first()
    }
}

/// The IP-to-MAC table that the ARP lines `ls` describe, a later line for the
/// same IP replacing an earlier one.
pub open spec fn arp_pairs(ls: Seq<Seq<char>>) -> Seq<(Seq<char>, Seq<char>)>
    decreases ls.len(),
{
    if ls.len() == 0 {
        Seq::empty()
    } else {
        let p = arp_pairs(ls.drop_last());
        match arp_row(ls.last()) {
            Some(r) => pairs_insert(p, r.0, r.1),
            None => p,
        }
    }
}

fn arp_row_of(line: &[char]) -> (r: Option<(String, String)>)
    ensures
        match r {
            Some(e) => arp_row(line@) == Some((e.0@, e.1@)),
            None => arp_row(line@) is None,
        },
{
    let parts = split_whitespace_chars(line);
    if parts.len() < 4 {
        return None;
    }
    assert(parts[3]@ == words(line@)[3] && parts[0]@ == words(line@)[0]);
    let mac = normalize_mac_chars(&parts[3]);
    let mac_chars = chars_of(mac.as_str());
    let zero = vec!['0', '0', ':', '0', '0', ':', '0', '0', ':', '0', '0', ':', '0', '0', ':', '0', '0'];
    assert(zero@ =~= zero_mac());
    if chars_eq(&mac_chars, &zero) {
        None
    } else {
        Some((string_from_chars(&parts[0]), mac))
    }
}

/// Reads the IP-to-MAC table from the text of `/proc/net/arp`: the header
/// line is skipped, and each later line gives a pair as [`arp_row`] says.
pub fn read_arp_ip_mac_map(arp_table: &str) -> (t: StrTable<String>)
    ensures
        t.wf(),
        t.pairs() == arp_pairs(arp_body(lines(arp_table@))),
{
    let cs = chars_of(arp_table);
    let ls = lines_of(&cs);
    let ghost lv = arp_body(lines(arp_table@));
    let mut t: StrTable<String> = StrTable::new();
    let mut i: usize = if ls.len() == 0 {
        0
    } else {
        1
    };
    let start = i;
    assert(lv =~= seq_views(ls@).skip(start as int));
    assert(lv.take(0) =~= Seq::<Seq<char>>::empty());
    while i < ls.len()
        invariant
            start <= i <= ls@.len(),
            lv == seq_views(ls@).skip(start as int),
            t.wf(),
            t.pairs() == arp_pairs(lv.take(i - start)),
        decreases ls@.len() - i,
    {
        assert(lv.take(i - start + 1).drop_last() =~= lv.take(i - start));
        assert(ls[i as int]@ == lv[i - start]);
        match arp_row_of(&ls[i]) {
            Some(e) => {
                t.insert(e.0, e.1);
            },
            None => {},
        }
        i = i + 1;
    }
    assert(lv.take(lv.len() as int) =~= lv);
    t
}

/// The first grade that one of the rows `es` of user `u` gives.
pub open spec fn first_grade(es: Seq<(Seq<char>, Option<Seq<char>>)>, u: Seq<char>) -> Option<Seq<char>>
    decreases es.len(),
{
    if es.len() == 0 {
        None
    } else {
        let f = first_grade(es.drop_last(), u);
        if f is Some {
            f
        } else if es.last().0 == u {
            es.last().1
        } else {
            None
        }
    }
}

/// The roster's users are exactly the users of its rows, and each has the
/// first grade that one of their rows gives.
pub proof fn lemma_roster_users_first_grade(es: Seq<(Seq<char>, Option<Seq<char>>)>)
    ensures
        forall|u: Seq<char>| #[trigger]
            csv_users_map(es).dom().contains(u) <==> exists|i: int| 0 <= i < es.len() && es[i].0 == u,
        forall|u: Seq<char>| #[trigger]
            csv_users_map(es).dom().contains(u) ==> csv_users_map(es)[u] == first_grade(es, u),
    decreases es.len(),
{
    if es.len() > 0 {
        let prev = es.drop_last();
        lemma_roster_users_first_grade(prev);
        assert forall|u: Seq<char>| #[trigger]
            csv_users_map(es).dom().contains(u) <==> exists|i: int| 0 <= i < es.len() && es[i].0 == u by {
            if exists|i: int| 0 <= i < es.len() && es[i].0 == u {
                let i = choose|i: int| 0 <= i < es.len() && es[i].0 == u;
                if i < prev.len() {
                    assert(prev[i].0 == u);
                }
            }
            if csv_users_map(prev).dom().contains(u) {
                let i = choose|i: int| 0 <= i < prev.len() && prev[i].0 == u;
                assert(es[i].0 == u);
            }
            if u == es.last().0 {
                assert(es[es.len() - 1].0 == u);
            }
        }
        assert forall|u: Seq<char>| #[trigger]
            csv_users_map(es).dom().contains(u) implies csv_users_map(es)[u] == first_grade(es, u) by {
            if !csv_users_map(prev).dom().contains(u) && u == es.last().0 {
                assert(first_grade(prev, u) is None) by {
                    lemma_first_grade_absent(prev, u);
                }
            }
        }
    }
}

proof fn lemma_first_grade_absent(es: Seq<(Seq<char>, Option<Seq<char>>)>, u: Seq<char>)
    requires
        !csv_users_map(es).dom().contains(u),
    ensures
        first_grade(es, u) is None,
    decreases es.len(),
{
    if es.len() > 0 {
        lemma_first_grade_absent(es.drop_last(), u);
    }
}

/// The user-to-grade table that roster rows `es` give, taken in order: each
/// user once, with the first grade that one of their rows gives.
pub open spec fn csv_users_map(es: Seq<(Seq<char>, Option<Seq<char>>)>) -> Map<
    Seq<char>,
    Option<Seq<char>>,
>
    decreases es.len(),
{
    if es.len() == 0 {
        Map::empty()
    } else {
        let m = csv_users_map(es.drop_last());
        let u = es.last().0;
        let g = es.last().1;
        if m.dom().contains(u) {
            if m[u] is None && g is Some {
                m.insert(u, g)
            } else {
                m
            }
        } else {
            m.insert(u, g)
        }
    }
}

/// The roster rows of a MAC/user table, in its order.
pub open spec fn roster_rows(
    pairs: Seq<(Seq<char>, (Seq<char>, Option<Seq<char>>))>,
) -> Seq<(Seq<char>, Option<Seq<char>>)> {
    pairs.map_values(|p: (Seq<char>, (Seq<char>, Option<Seq<char>>))| p.1)
}

/// The users of the roster with their grades, sorted by user name (see
/// [`csv_users_map`]).
pub fn build_csv_users(csv_mapping: &StrTable<CsvUserEntry>) -> (users: StrTable<Option<String>>)
    requires
        csv_mapping.wf(),
    ensures
        users.wf(),
        keys_sorted(users.pairs()),
        users.map() == csv_users_map(roster_rows(csv_mapping.pairs())),
{
    let ghost rows = roster_rows(csv_mapping.pairs());
    let mut users: StrTable<Option<String>> = StrTable::new();
    let n = csv_mapping.len();
    let mut i: usize = 0;
    assert(rows.take(0) =~= Seq::<(Seq<char>, Option<Seq<char>>)>::empty());
    while i < n
        invariant
            n == csv_mapping.pairs().len(),
            rows == roster_rows(csv_mapping.pairs()),
            i <= n,
            users.wf(),
            keys_sorted(users.pairs()),
            users.map() == csv_users_map(rows.take(i as int)),
        decreases n - i,
    {
        let (_, entry) = csv_mapping.entry(i);
        assert(rows.take(i + 1).drop_last() =~= rows.take(i as int));
        assert(rows.take(i + 1).last() == entry@);
        match users.get(entry.username.as_str()) {
            Some(g) => {
                if g.is_none() && entry.grade.is_some() {
                    users.insert_sorted(entry.username.clone(), clone_opt_string(&entry.grade));
                }
            },
            None => {
                users.insert_sorted(entry.username.clone(), clone_opt_string(&entry.grade));
            },
        }
        i = i + 1;
    }
    assert(rows.take(n as int) =~= rows);
    users
}

/// Whether a user is online, with the grade shown for them.
#[derive(Debug)]
pub struct UserPresence {
    pub grade: Option<String>,
    pub status: String,
}

impl View for UserPresence {
    type V = (Option<Seq<char>>, Seq<char>);

    open spec fn view(&self) -> (Option<Seq<char>>, Seq<char>) {
        (opt_view(self.grade), self.status@)
    }
}

/// The status text of an online user.
pub open spec fn online_text() -> Seq<char> {
    seq!['o', 'n', 'l', 'i', 'n', 'e']
}

/// The status text of an offline user.
pub open spec fn offline_text() -> Seq<char> {
    seq!['o', 'f', 'f', 'l', 'i', 'n', 'e']
}

/// The status text for `online`.
pub open spec fn status_text(online: bool) -> Seq<char> {
    if online {
        online_text()
    } else {
        offline_text()
    }
}

fn status_string(online: bool) -> (s: String)
    ensures
        s@ == status_text(online),
{
    if online {
        let cs = vec!['o', 'n', 'l', 'i', 'n', 'e'];
        assert(cs@ =~= online_text());
        string_from_chars(&cs)
    } else {
        let cs = vec!['o', 'f', 'f', 'l', 'i', 'n', 'e'];
        assert(cs@ =~= offline_text());
        string_from_chars(&cs)
    }
}

/// A user's grade so far and whether one of their addresses answered.
struct UserAgg {
    grade: Option<String>,
    any_online: bool,
}

impl DeepView for UserAgg {
    type V = (Option<Seq<char>>, bool);

    closed spec fn deep_view(&self) -> (Option<Seq<char>>, bool) {
        (opt_view(self.grade), self.any_online)
    }
}

/// The failure count of `ip`: its recorded count, or `default` where none is recorded.
pub open spec fn fail_count_of(fails: Map<Seq<char>, u32>, ip: Seq<char>, default: u32) -> u32 {
    if fails.dom().contains(ip) {
        fails[ip]
    } else {
        default
    }
}

/// For each user, their grade and whether one of their addresses counts as
/// online: the roster users start offline with their roster grade; then each
/// known (IP, user) pair in turn adds its user if new, fills a missing grade,
/// and marks the user online when the IP's failure count is below `threshold`.
pub open spec fn presence_map(
    csv: Map<Seq<char>, Option<Seq<char>>>,
    known: Seq<(Seq<char>, (Seq<char>, Option<Seq<char>>))>,
    fails: Map<Seq<char>, u32>,
    threshold: u32,
) -> Map<Seq<char>, (Option<Seq<char>>, bool)>
    decreases known.len(),
{
    if known.len() == 0 {
        csv.map_values(|g: Option<Seq<char>>| (g, false))
    } else {
        let m = presence_map(csv, known.drop_last(), fails, threshold);
        let ip = known.last().0;
        let u = known.last().1.0;
        let g = known.last().1.1;
        let cur = if m.dom().contains(u) {
            m[u]
        } else {
            (g, false)
        };
        let g2 = if cur.0 is None && g is Some {
            g
        } else {
            cur.0
        };
        m.insert(u, (g2, cur.1 || fail_count_of(fails, ip, threshold) < threshold))
    }
}

/// One of the known IPs of user `u` has failed fewer than `threshold` scans in a row.
pub open spec fn has_live_address(
    known: Seq<(Seq<char>, (Seq<char>, Option<Seq<char>>))>,
    fails: Map<Seq<char>, u32>,
    threshold: u32,
    u: Seq<char>,
) -> bool {
    exists|i: int|
        0 <= i < known.len() && #[trigger] known[i].1.0 == u && fail_count_of(fails, known[i].0, threshold)
            < threshold
}

/// The users of the presence map are the roster users and the users of known
/// IPs; a user is online exactly when one of their known IPs has failed fewer
/// than `threshold` scans in a row.
pub proof fn lemma_online_iff_live_address(
    csv: Map<Seq<char>, Option<Seq<char>>>,
    known: Seq<(Seq<char>, (Seq<char>, Option<Seq<char>>))>,
    fails: Map<Seq<char>, u32>,
    threshold: u32,
)
    ensures
        forall|u: Seq<char>| #[trigger]
            presence_map(csv, known, fails, threshold).dom().contains(u) <==> (csv.dom().contains(u)
                || exists|i: int| 0 <= i < known.len() && known[i].1.0 == u),
        forall|u: Seq<char>| #[trigger]
            presence_map(csv, known, fails, threshold).dom().contains(u) ==> (presence_map(
                csv,
                known,
                fails,
                threshold,
            )[u].1 <==> has_live_address(known, fails, threshold, u)),
    decreases known.len(),
{
    if known.len() > 0 {
        let prev = known.drop_last();
        lemma_online_iff_live_address(csv, prev, fails, threshold);
        let m = presence_map(csv, prev, fails, threshold);
        let m2 = presence_map(csv, known, fails, threshold);
        let n = known.len() - 1;
        let last = known[n];
        assert forall|u: Seq<char>| #[trigger] m2.dom().contains(u) <==> (csv.dom().contains(u)
            || exists|i: int| 0 <= i < known.len() && known[i].1.0 == u) by {
            if exists|i: int| 0 <= i < known.len() && known[i].1.0 == u {
                let i = choose|i: int| 0 <= i < known.len() && known[i].1.0 == u;
                if i < n {
                    assert(prev[i].1.0 == u);
                }
            }
            if m.dom().contains(u) && !csv.dom().contains(u) && u != last.1.0 {
                let i = choose|i: int| 0 <= i < prev.len() && prev[i].1.0 == u;
                assert(known[i].1.0 == u);
            }
        }
        assert forall|u: Seq<char>| #[trigger] m2.dom().contains(u) implies (m2[u].1 <==> has_live_address(
            known,
            fails,
            threshold,
            u,
        )) by {
            if has_live_address(known, fails, threshold, u) {
                let i = choose|i: int|
                    0 <= i < known.len() && #[trigger] known[i].1.0 == u && fail_count_of(
                        fails,
                        known[i].0,
                        threshold,
                    ) < threshold;
                if i < n {
                    assert(prev[i].1.0 == u);
                    assert(has_live_address(prev, fails, threshold, u));
                }
            }
            if has_live_address(prev, fails, threshold, u) {
                let i = choose|i: int|
                    0 <= i < prev.len() && #[trigger] prev[i].1.0 == u && fail_count_of(
                        fails,
                        prev[i].0,
                        threshold,
                    ) < threshold;
                assert(known[i].1.0 == u);
                assert(m.dom().contains(u));
            }
        }
    } else {
        assert forall|u: Seq<char>| #[trigger]
            presence_map(csv, known, fails, threshold).dom().contains(u) implies !has_live_address(
            known,
            fails,
            threshold,
            u,
        ) by {}
    }
}

/// `ks` is in strictly increasing order.
pub open spec fn strictly_sorted(ks: Seq<Seq<char>>) -> bool {
    forall|i: int, j: int| 0 <= i < j < ks.len() ==> str_lt(#[trigger] ks[i], #[trigger] ks[j])
}

/// `ps` holds one entry per user of `m`, in user-name order: the user's grade,
/// and "online" or "offline".
pub open spec fn is_presence_list(
    ps: Seq<(Option<Seq<char>>, Seq<char>)>,
    m: Map<Seq<char>, (Option<Seq<char>>, bool)>,
) -> bool {
    exists|ks: Seq<Seq<char>>|
        {
            &&& strictly_sorted(ks)
            &&& ks.to_set() == m.dom()
            &&& ks.len() == ps.len()
            &&& forall|i: int|
                0 <= i < ks.len() ==> #[trigger] ps[i] == (m[ks[i]].0, status_text(m[ks[i]].1))
        }
}

/// One presence entry per user, in user-name order (see [`presence_map`]):
/// the user's grade, and "online" or "offline".
pub fn build_user_presence(
    known_ip_to_user: &StrTable<CsvUserEntry>,
    fail_counts: &StrTable<u32>,
    csv_users: &StrTable<Option<String>>,
    offline_threshold: u32,
) -> (r: Vec<UserPresence>)
    requires
        known_ip_to_user.wf(),
        fail_counts.wf(),
        csv_users.wf(),
    ensures
        is_presence_list(
            presence_views(r@),
            presence_map(csv_users.map(), known_ip_to_user.pairs(), fail_counts.map(), offline_threshold),
        ),
{
    let ghost cp = csv_users.pairs();
    let ghost known = known_ip_to_user.pairs();
    let ghost fails = fail_counts.map();
    let mut users: StrTable<UserAgg> = StrTable::new();
    let n = csv_users.len();
    let mut i: usize = 0;
    assert(cp.take(0) =~= Seq::<(Seq<char>, Option<Seq<char>>)>::empty());
    assert(users.map() =~= pairs_map(cp.take(0)).map_values(
        |g: Option<Seq<char>>| (g, false),
    ));
    while i < n
        invariant
            n == cp.len(),
            cp == csv_users.pairs(),
            i <= n,
            users.wf(),
            keys_sorted(users.pairs()),
            users.map() == pairs_map(cp.take(i as int)).map_values(
                |g: Option<Seq<char>>| (g, false),
            ),
        decreases n - i,
    {
        let (name, grade) = csv_users.entry(i);
        assert(cp.take(i + 1).drop_last() =~= cp.take(i as int));
        assert(cp.take(i + 1).last() == (name@, grade.deep_view()));
        let ghost before = users.map();
        users.insert_sorted(name.clone(), UserAgg { grade: clone_opt_string(grade), any_online: false });
        assert(users.map() =~= pairs_map(cp.take(i + 1)).map_values(
            |g: Option<Seq<char>>| (g, false),
        ));
        i = i + 1;
    }
    assert(cp.take(n as int) =~= cp);
    let kn = known_ip_to_user.len();
    let mut j: usize = 0;
    assert(known.take(0) =~= Seq::<(Seq<char>, (Seq<char>, Option<Seq<char>>))>::empty());
    while j < kn
        invariant
            kn == known.len(),
            known == known_ip_to_user.pairs(),
            fails == fail_counts.map(),
            fail_counts.wf(),
            j <= kn,
            users.wf(),
            keys_sorted(users.pairs()),
            users.map() == presence_map(csv_users.map(), known.take(j as int), fails, offline_threshold),
        decreases kn - j,
    {
        let (ip, user) = known_ip_to_user.entry(j);
        assert(known.take(j + 1).drop_last() =~= known.take(j as int));
        assert(known.take(j + 1).last() == (ip@, user@));
        let fails_now: u32 = match fail_counts.get(ip.as_str()) {
            Some(c) => *c,
            None => offline_threshold,
        };
        let (grade, was_online) = match users.get(user.username.as_str()) {
            Some(agg) => {
                let g = if agg.grade.is_none() && user.grade.is_some() {
                    clone_opt_string(&user.grade)
                } else {
                    clone_opt_string(&agg.grade)
                };
                (g, agg.any_online)
            },
            None => (clone_opt_string(&user.grade), false),
        };
        users.insert_sorted(
            user.username.clone(),
            UserAgg { grade, any_online: was_online || fails_now < offline_threshold },
        );
        j = j + 1;
    }
    assert(known.take(kn as int) =~= known);
    let ghost m = users.map();
    let ghost ps = users.pairs();
    let ghost ks = users.keys();
    proof {
        lemma_pairs_map_dom(ps);
        lemma_sorted_distinct(ps);
    }
    let mut r: Vec<UserPresence> = Vec::new();
    let un = users.len();
    let mut k: usize = 0;
    while k < un
        invariant
            un == ps.len(),
            ps == users.pairs(),
            m == users.map(),
            users.wf(),
            k <= un,
            r@.len() == k,
            forall|t: int| 0 <= t < k ==> #[trigger] r@[t]@ == (ps[t].1.0, status_text(ps[t].1.1)),
        decreases un - k,
    {
        let (_, agg) = users.entry(k);
        r.push(UserPresence { grade: clone_opt_string(&agg.grade), status: status_string(agg.any_online) });
        k = k + 1;
    }
    proof {
        assert(ks.len() == r@.len());
        assert(strictly_sorted(ks)) by {
            assert forall|a: int, b: int| 0 <= a < b < ks.len() implies str_lt(
                #[trigger] ks[a],
                #[trigger] ks[b],
            ) by {
                assert(ks[a] == ps[a].0 && ks[b] == ps[b].0);
            }
        }
        assert(ks.to_set() =~= m.dom()) by {
            assert forall|key: Seq<char>| ks.to_set().contains(key) <==> m.dom().contains(key) by {
                if m.dom().contains(key) {
                    let t = choose|t: int| 0 <= t < ps.len() && ps[t].0 == key;
                    assert(ks[t] == key);
                }
                if ks.to_set().contains(key) {
                    let t = choose|t: int| 0 <= t < ks.len() && ks[t] == key;
                    assert(ps[t].0 == key);
                }
            }
        }
        assert forall|i: int| 0 <= i < ks.len() implies #[trigger] presence_views(r@)[i] == (
            m[ks[i]].0,
            status_text(m[ks[i]].1),
        ) by {
            lemma_pairs_map_index(ps, i);
            assert(ks[i] == ps[i].0);
        }
        assert(is_presence_list(presence_views(r@), m));
    }
    r
}

/// The views of presence entries.
pub open spec fn presence_views(us: Seq<UserPresence>) -> Seq<(Option<Seq<char>>, Seq<char>)> {
    us.map_values(|u: UserPresence| u@)
}

/// The grades of grade counts, in order.
pub open spec fn count_grades(cs: Seq<NetworkGradeCount>) -> Seq<Seq<char>> {
    cs.map_values(|c: NetworkGradeCount| c.grade@)
}

/// The grade under which no grade is counted.
pub open spec fn unset_grade() -> Seq<char> {
    seq!['未', '設', '定']
}

/// The grade under which a user is counted: their trimmed grade, or
/// [`unset_grade`] where it is missing or blank.
pub open spec fn grade_key(g: Option<Seq<char>>) -> Seq<char> {
    match g {
        Some(x) => if trim(x).len() > 0 {
            trim(x)
        } else {
            unset_grade()
        },
        None => unset_grade(),
    }
}

/// The number of users in `us` counted under grade `key` whose online state is `online`.
pub open spec fn count_users(us: Seq<(Option<Seq<char>>, Seq<char>)>, key: Seq<char>, online: bool) -> nat
    decreases us.len(),
{
    if us.len() == 0 {
        0
    } else {
        count_users(us.drop_last(), key, online) + if grade_key(us.last().0) == key && (
        us.last().1 == online_text()) == online {
            1nat
        } else {
            0nat
        }
    }
}

proof fn lemma_count_users_bound(us: Seq<(Option<Seq<char>>, Seq<char>)>, key: Seq<char>)
    ensures
        count_users(us, key, true) + count_users(us, key, false) <= us.len(),
    decreases us.len(),
{
    if us.len() > 0 {
        lemma_count_users_bound(us.drop_last(), key);
    }
}

/// The grades under which the users of `us` are counted.
pub open spec fn grade_keys(us: Seq<(Option<Seq<char>>, Seq<char>)>) -> Set<Seq<char>> {
    Set::new(|k: Seq<char>| exists|i: int| 0 <= i < us.len() && grade_key(us[i].0) == k)
}

/// The grade counts of `us` so far, as a map.
spec fn counts_map(us: Seq<(Option<Seq<char>>, Seq<char>)>) -> Map<Seq<char>, (usize, usize)> {
    Map::new(
        |k: Seq<char>| grade_keys(us).contains(k),
        |k: Seq<char>| (count_users(us, k, true) as usize, count_users(us, k, false) as usize),
    )
}

fn grade_key_string(g: &Option<String>) -> (k: String)
    ensures
        k@ == grade_key(opt_view(*g)),
{
    let unset = vec!['未', '設', '定'];
    assert(unset@ =~= unset_grade());
    match g {
        Some(x) => {
            let xc = chars_of(x.as_str());
            let t = trim_chars(&xc);
            if t.len() > 0 {
                string_from_chars(&t)
            } else {
                string_from_chars(&unset)
            }
        },
        None => string_from_chars(&unset),
    }
}

fn tally_grades(users: &[UserPresence]) -> (counts: StrTable<(usize, usize)>)
    ensures
        counts.wf(),
        keys_sorted(counts.pairs()),
        counts.map() == counts_map(presence_views(users@)),
{
    let ghost us = presence_views(users@);
    let mut counts: StrTable<(usize, usize)> = StrTable::new();
    let n = users.len();
    let mut i: usize = 0;
    assert(counts.map() =~= counts_map(us.take(0)));
    let online_word = vec!['o', 'n', 'l', 'i', 'n', 'e'];
    assert(online_word@ =~= online_text());
    while i < n
        invariant
            n == us.len(),
            us == presence_views(users@),
            online_word@ == online_text(),
            i <= n,
            counts.wf(),
            keys_sorted(counts.pairs()),
            counts.map() == counts_map(us.take(i as int)),
        decreases n - i,
    {
        let u = &users[i];
        let ghost prev = us.take(i as int);
        let ghost next = us.take(i + 1);
        assert(next.drop_last() =~= prev);
        assert(next.last() == u@);
        let key = grade_key_string(&u.grade);
        let status = chars_of(u.status.as_str());
        let online = chars_eq(&status, &online_word);
        proof {
            lemma_count_users_bound(prev, key@);
        }
        let (on, off): (usize, usize) = match counts.get(key.as_str()) {
            Some(c) => *c,
            None => (0, 0),
        };
        proof {
            if !counts.map().dom().contains(key@) {
                assert forall|t: int| 0 <= t < prev.len() implies grade_key(#[trigger] prev[t].0) != key@ by {
                    if grade_key(prev[t].0) == key@ {
                        assert(grade_keys(prev).contains(key@));
                    }
                }
                lemma_count_users_zero(prev, key@);
            }
        }
        let entry: (usize, usize) = if online {
            (on + 1, off)
        } else {
            (on, off + 1)
        };
        let ghost before = counts.map();
        counts.insert_sorted(key, entry);
        proof {
            assert(grade_keys(next) =~= grade_keys(prev).insert(key@)) by {
                assert forall|k: Seq<char>| grade_keys(next).contains(k) <==> grade_keys(prev).insert(key@).contains(k) by {
                    if grade_keys(next).contains(k) {
                        let t = choose|t: int| 0 <= t < next.len() && grade_key(next[t].0) == k;
                        if t < prev.len() {
                            assert(prev[t] == next[t]);
                        }
                    }
                    if grade_keys(prev).contains(k) {
                        let t = choose|t: int| 0 <= t < prev.len() && grade_key(prev[t].0) == k;
                        assert(prev[t] == next[t]);
                    }
                    if k == key@ {
                        assert(grade_key(next[prev.len() as int].0) == k);
                    }
                }
            }
            assert(counts.map() =~= counts_map(next));
        }
        i = i + 1;
    }
    assert(us.take(n as int) =~= us);
    counts
}

/// `r` holds one count per grade under which a user of `us` is counted, in
/// grade order, each with its users online and offline and their sum.
pub open spec fn grade_counts_of(r: Seq<NetworkGradeCount>, us: Seq<(Option<Seq<char>>, Seq<char>)>) -> bool {
    &&& strictly_sorted(count_grades(r))
    &&& count_grades(r).to_set() == grade_keys(us)
    &&& forall|i: int|
        0 <= i < r.len() ==> {
            &&& #[trigger] r[i].online == count_users(us, r[i].grade@, true)
            &&& r[i].offline == count_users(us, r[i].grade@, false)
            &&& r[i].total == r[i].online + r[i].offline
        }
}

/// One count per grade, in grade order: users online and offline under that
/// grade (see [`grade_key`]; a user is online when their status is "online"),
/// and their sum.
pub fn build_grade_counts(users: &[UserPresence]) -> (r: Vec<NetworkGradeCount>)
    ensures
        grade_counts_of(r@, presence_views(users@)),
{
    let ghost us = presence_views(users@);
    let n = users.len();
    let counts = tally_grades(users);
    let ghost ps = counts.pairs();
    let ghost m = counts.map();
    proof {
        lemma_pairs_map_dom(ps);
        lemma_sorted_distinct(ps);
    }
    let mut r: Vec<NetworkGradeCount> = Vec::new();
    let cn = counts.len();
    let mut k: usize = 0;
    while k < cn
        invariant
            cn == ps.len(),
            ps == counts.pairs(),
            m == counts.map(),
            m == counts_map(us),
            us == presence_views(users@),
            n == us.len(),
            counts.wf(),
            k <= cn,
            r@.len() == k,
            forall|t: int| 0 <= t < k ==> #[trigger] r@[t].grade@ == ps[t].0,
            forall|t: int| 0 <= t < k ==> {
                &&& #[trigger] r@[t].online == count_users(us, r@[t].grade@, true)
                &&& r@[t].offline == count_users(us, r@[t].grade@, false)
                &&& r@[t].total == r@[t].online + r@[t].offline
            },
        decreases cn - k,
    {
        let (g, c) = counts.entry(k);
        proof {
            lemma_pairs_map_index(ps, k as int);
            lemma_count_users_bound(us, g@);
            assert(us.len() == users@.len());
            assert(g@ == ps[k as int].0);
            assert(m.dom().contains(g@));
            assert(m[g@] == (count_users(us, g@, true) as usize, count_users(us, g@, false) as usize));
            assert(c.0 == count_users(us, g@, true));
            assert(c.1 == count_users(us, g@, false));
        }
        let (on, off) = *c;
        r.push(NetworkGradeCount { grade: g.clone(), online: on, offline: off, total: on + off });
        k = k + 1;
    }
    proof {
        let gs = count_grades(r@);
        assert(strictly_sorted(gs)) by {
            assert forall|a: int, b: int| 0 <= a < b < gs.len() implies str_lt(
                #[trigger] gs[a],
                #[trigger] gs[b],
            ) by {
                assert(gs[a] == ps[a].0 && gs[b] == ps[b].0);
            }
        }
        assert(gs.to_set() =~= grade_keys(us)) by {
            assert forall|key: Seq<char>| gs.to_set().contains(key) <==> grade_keys(us).contains(key) by {
                if grade_keys(us).contains(key) {
                    assert(m.dom().contains(key));
                    let t = choose|t: int| 0 <= t < ps.len() && ps[t].0 == key;
                    assert(gs[t] == key);
                }
                if gs.to_set().contains(key) {
                    let t = choose|t: int| 0 <= t < gs.len() && gs[t] == key;
                    assert(ps[t].0 == key);
                    assert(m.dom().contains(key));
                }
            }
        }
        assert forall|i: int| 0 <= i < r@.len() implies {
            &&& #[trigger] r@[i].online == count_users(us, r@[i].grade@, true)
            &&& r@[i].offline == count_users(us, r@[i].grade@, false)
            &&& r@[i].total == r@[i].online + r@[i].offline
        } by {}
        assert(grade_counts_of(r@, us));
    }
    r
}

/// The sum of the totals of grade counts `r`.
pub open spec fn total_sum(r: Seq<NetworkGradeCount>) -> int
    decreases r.len(),
{
    if r.len() == 0 {
        0
    } else {
        total_sum(r.drop_last()) + r.last().total
    }
}

/// The number of users of `us` counted under one of the grades `ks`.
spec fn counted_under(us: Seq<(Option<Seq<char>>, Seq<char>)>, ks: Seq<Seq<char>>) -> int
    decreases ks.len(),
{
    if ks.len() == 0 {
        0
    } else {
        counted_under(us, ks.drop_last()) + count_users(us, ks.last(), true) + count_users(
            us,
            ks.last(),
            false,
        )
    }
}

proof fn lemma_counted_under_push(
    us: Seq<(Option<Seq<char>>, Seq<char>)>,
    u: (Option<Seq<char>>, Seq<char>),
    ks: Seq<Seq<char>>,
)
    requires
        strictly_sorted(ks),
    ensures
        counted_under(us.push(u), ks) == counted_under(us, ks) + if ks.contains(grade_key(u.0)) {
            1int
        } else {
            0int
        },
    decreases ks.len(),
{
    assert(us.push(u).drop_last() =~= us);
    if ks.len() > 0 {
        let prev = ks.drop_last();
        assert(strictly_sorted(prev)) by {
            assert forall|i: int, j: int| 0 <= i < j < prev.len() implies str_lt(
                #[trigger] prev[i],
                #[trigger] prev[j],
            ) by {
                assert(prev[i] == ks[i] && prev[j] == ks[j]);
            }
        }
        lemma_counted_under_push(us, u, prev);
        let k0 = grade_key(u.0);
        if ks.contains(k0) && ks.last() != k0 {
            let i = choose|i: int| 0 <= i < ks.len() && ks[i] == k0;
            assert(prev[i] == k0);
        }
        if prev.contains(k0) {
            let i = choose|i: int| 0 <= i < prev.len() && prev[i] == k0;
            assert(ks[i] == k0);
            if ks.last() == k0 {
                assert(str_lt(ks[i], ks[ks.len() - 1]));
                crate::text::lemma_str_lt_irreflexive(k0);
            }
        }
        if ks.last() == k0 {
            assert(ks.contains(k0));
        }
    }
}

proof fn lemma_counted_under_empty(ks: Seq<Seq<char>>)
    ensures
        counted_under(Seq::empty(), ks) == 0,
    decreases ks.len(),
{
    if ks.len() > 0 {
        lemma_counted_under_empty(ks.drop_last());
    }
}

proof fn lemma_counted_under_all(us: Seq<(Option<Seq<char>>, Seq<char>)>, ks: Seq<Seq<char>>)
    requires
        strictly_sorted(ks),
        forall|k: Seq<char>| grade_keys(us).contains(k) ==> ks.contains(k),
    ensures
        counted_under(us, ks) == us.len(),
    decreases us.len(),
{
    if us.len() == 0 {
        lemma_counted_under_empty(ks);
        assert(us =~= Seq::<(Option<Seq<char>>, Seq<char>)>::empty());
    } else {
        let prev = us.drop_last();
        assert forall|k: Seq<char>| grade_keys(prev).contains(k) implies ks.contains(k) by {
            let i = choose|i: int| 0 <= i < prev.len() && grade_key(prev[i].0) == k;
            assert(grade_key(us[i].0) == k);
            assert(grade_keys(us).contains(k));
        }
        lemma_counted_under_all(prev, ks);
        lemma_counted_under_push(prev, us.last(), ks);
        assert(prev.push(us.last()) =~= us);
        assert(grade_key(us[us.len() - 1].0) == grade_key(us.last().0));
        assert(grade_keys(us).contains(grade_key(us.last().0)));
    }
}

proof fn lemma_total_sum_counted(r: Seq<NetworkGradeCount>, us: Seq<(Option<Seq<char>>, Seq<char>)>)
    requires
        forall|i: int|
            0 <= i < r.len() ==> #[trigger] r[i].total == count_users(us, r[i].grade@, true)
                + count_users(us, r[i].grade@, false),
    ensures
        total_sum(r) == counted_under(us, count_grades(r)),
    decreases r.len(),
{
    if r.len() > 0 {
        let prev = r.drop_last();
        assert forall|i: int| 0 <= i < prev.len() implies #[trigger] prev[i].total == count_users(
            us,
            prev[i].grade@,
            true,
        ) + count_users(us, prev[i].grade@, false) by {
            assert(prev[i] == r[i]);
        }
        lemma_total_sum_counted(prev, us);
        assert(count_grades(r).drop_last() =~= count_grades(prev));
        assert(r[r.len() - 1] == r.last());
    }
}

/// Every user is counted exactly once: the totals of the grade counts add up
/// to the number of users.
pub proof fn lemma_grade_totals_cover_users(
    r: Seq<NetworkGradeCount>,
    us: Seq<(Option<Seq<char>>, Seq<char>)>,
)
    requires
        grade_counts_of(r, us),
    ensures
        total_sum(r) == us.len(),
{
    assert forall|i: int| 0 <= i < r.len() implies #[trigger] r[i].total == count_users(
        us,
        r[i].grade@,
        true,
    ) + count_users(us, r[i].grade@, false) by {
        assert(r[i].online == count_users(us, r[i].grade@, true));
    }
    lemma_total_sum_counted(r, us);
    let ks = count_grades(r);
    assert forall|k: Seq<char>| grade_keys(us).contains(k) implies ks.contains(k) by {
        assert(ks.to_set().contains(k));
    }
    lemma_counted_under_all(us, ks);
}

proof fn lemma_count_users_zero(us: Seq<(Option<Seq<char>>, Seq<char>)>, key: Seq<char>)
    requires
        forall|t: int| 0 <= t < us.len() ==> grade_key(#[trigger] us[t].0) != key,
    ensures
        count_users(us, key, true) == 0,
        count_users(us, key, false) == 0,
    decreases us.len(),
{
    if us.len() > 0 {
        assert(grade_key(us[us.len() - 1].0) != key);
        lemma_count_users_zero(us.drop_last(), key);
    }
}

/// The size of a machine word in bytes.
pub open spec fn word_size() -> nat {
    vstd::layout::size_of::<usize>()
}

/// `l` rounded up to a multiple of the word size.
pub open spec fn round_up_word(l: int) -> int {
    (l + word_size() - 1) / (word_size() as int) * (word_size() as int)
}

proof fn lemma_round_up_div(l: int, w: int)
    by (nonlinear_arith)
    requires
        0 <= l,
        0 < w,
    ensures
        (l + w - 1) / w * w >= l,
        (l + w - 1) / w * w < l + w,
        ((l + w - 1) / w * w) % w == 0,
{
}

proof fn lemma_round_up_exact(q: int, w: int)
    by (nonlinear_arith)
    requires
        0 <= q,
        0 < w,
    ensures
        (q * w + w - 1) / w == q,
{
    assert(q * w <= q * w + w - 1 < (q + 1) * w);
}

proof fn lemma_round_up_monotone(x: int, y: int, w: int)
    by (nonlinear_arith)
    requires
        0 <= x <= y,
        0 < w,
    ensures
        (x + w - 1) / w <= (y + w - 1) / w,
{
}

/// Rounding up to a word is idempotent and monotone, and gives a multiple of
/// the word size that is at least its argument and less than a word above it.
pub proof fn lemma_round_up_word_laws(x: int, y: int)
    requires
        0 <= x <= y,
    ensures
        round_up_word(round_up_word(x)) == round_up_word(x),
        round_up_word(x) <= round_up_word(y),
        x <= round_up_word(x) < x + word_size(),
        round_up_word(x) % (word_size() as int) == 0,
{
    broadcast use vstd::layout::layout_of_primitives;

    let w = word_size() as int;
    assert(w > 0);
    lemma_round_up_div(x, w);
    let q = (x + w - 1) / w;
    assert(q >= 0) by (nonlinear_arith)
        requires
            x >= 0,
            w > 0,
            q == (x + w - 1) / w,
    ;
    lemma_round_up_exact(q, w);
    lemma_round_up_monotone(x, y, w);
    assert((x + w - 1) / w * w <= (y + w - 1) / w * w) by (nonlinear_arith)
        requires
            (x + w - 1) / w <= (y + w - 1) / w,
            w > 0,
    ;
}

/// `len` rounded up to a multiple of the machine word size, as the socket
/// addresses of a routing message are padded.
pub fn roundup_to_word(len: usize) -> (r: usize)
    requires
        len + word_size() - 1 <= usize::MAX,
    ensures
        r == round_up_word(len as int),
        r as nat % word_size() == 0,
        len <= r < len + word_size(),
{
    broadcast use vstd::layout::layout_of_primitives;

    let align = core::mem::size_of::<usize>();
    assert(align == 4 || align == 8);
    let x: usize = len + (align - 1);
    let r: usize = x & !(align - 1);
    if align == 4 {
        assert(x & !3usize == x - x % 4) by (bit_vector);
        assert(r == x - x % 4);
        assert(x / 4 * 4 == x - x % 4) by (nonlinear_arith);
    } else {
        assert(x & !7usize == x - x % 8) by (bit_vector);
        assert(r == x - x % 8);
        assert(x / 8 * 8 == x - x % 8) by (nonlinear_arith);
    }
    r
}

/// Two strictly sorted sequences of the same keys are equal.
pub proof fn lemma_sorted_keys_unique(a: Seq<Seq<char>>, b: Seq<Seq<char>>)
    requires
        strictly_sorted(a),
        strictly_sorted(b),
        a.to_set() == b.to_set(),
    ensures
        a == b,
    decreases a.len(),
{
    if a.len() == 0 {
        if b.len() > 0 {
            assert(b.to_set().contains(b[0]));
        }
        assert(a =~= b);
    } else {
        assert(a.to_set().contains(a[0]));
        assert(b.len() > 0);
        assert(b.to_set().contains(b[0]));
        let j = choose|j: int| 0 <= j < b.len() && b[j] == a[0];
        let i = choose|i: int| 0 <= i < a.len() && a[i] == b[0];
        if j > 0 {
            assert(str_lt(b[0], b[j]));
            if i > 0 {
                assert(str_lt(a[0], a[i]));
                lemma_str_lt_transitive(a[0], a[i], a[0]);
            }
            lemma_str_lt_irreflexive(a[0]);
        }
        assert(a[0] == b[0]);
        let a1 = a.drop_first();
        let b1 = b.drop_first();
        assert forall|x: Seq<char>| a1.to_set().contains(x) <==> b1.to_set().contains(x) by {
            if a1.to_set().contains(x) {
                let k = choose|k: int| 0 <= k < a1.len() && a1[k] == x;
                assert(str_lt(a[0], a[k + 1]));
                lemma_str_lt_irreflexive(a[0]);
                assert(a.to_set().contains(x));
                let m = choose|m: int| 0 <= m < b.len() && b[m] == x;
                assert(m != 0);
                assert(b1[m - 1] == x);
            }
            if b1.to_set().contains(x) {
                let k = choose|k: int| 0 <= k < b1.len() && b1[k] == x;
                assert(str_lt(b[0], b[k + 1]));
                lemma_str_lt_irreflexive(b[0]);
                assert(b.to_set().contains(x));
                let m = choose|m: int| 0 <= m < a.len() && a[m] == x;
                assert(m != 0);
                assert(a1[m - 1] == x);
            }
        }
        assert(a1.to_set() =~= b1.to_set());
        assert(strictly_sorted(a1)) by {
            assert forall|p: int, q: int| 0 <= p < q < a1.len() implies str_lt(#[trigger] a1[p], #[trigger] a1[q]) by {
                assert(str_lt(a[p + 1], a[q + 1]));
            }
        }
        assert(strictly_sorted(b1)) by {
            assert forall|p: int, q: int| 0 <= p < q < b1.len() implies str_lt(#[trigger] b1[p], #[trigger] b1[q]) by {
                assert(str_lt(b[p + 1], b[q + 1]));
            }
        }
        lemma_sorted_keys_unique(a1, b1);
        assert(a =~= b) by {
            assert forall|k: int| 0 <= k < a.len() implies a[k] == b[k] by {
                if k > 0 {
                    assert(a1[k - 1] == b1[k - 1]);
                }
            }
        }
    }
}

/// The presence of users at failure threshold `t1` and at a higher `t2`:
/// the same users with the same grades, and everyone online at `t1` is
/// online at `t2`; at threshold zero nobody is online.
pub proof fn lemma_presence_threshold_monotone(
    csv: Map<Seq<char>, Option<Seq<char>>>,
    known: Seq<(Seq<char>, (Seq<char>, Option<Seq<char>>))>,
    fails: Map<Seq<char>, u32>,
    t1: u32,
    t2: u32,
)
    requires
        t1 <= t2,
    ensures
        presence_map(csv, known, fails, t1).dom() == presence_map(csv, known, fails, t2).dom(),
        forall|u: Seq<char>| #[trigger]
            presence_map(csv, known, fails, t1).dom().contains(u) ==> {
                &&& presence_map(csv, known, fails, t1)[u].0 == presence_map(csv, known, fails, t2)[u].0
                &&& (presence_map(csv, known, fails, t1)[u].1 ==> presence_map(csv, known, fails, t2)[u].1)
                &&& (t1 == 0 ==> !presence_map(csv, known, fails, t1)[u].1)
            },
    decreases known.len(),
{
    if known.len() == 0 {
        assert(presence_map(csv, known, fails, t1).dom() =~= presence_map(csv, known, fails, t2).dom());
    } else {
        lemma_presence_threshold_monotone(csv, known.drop_last(), fails, t1, t2);
        assert(presence_map(csv, known, fails, t1).dom() =~= presence_map(csv, known, fails, t2).dom());
    }
}

/// A presence list of a user map is unique.
pub proof fn lemma_presence_list_unique(
    p1: Seq<(Option<Seq<char>>, Seq<char>)>,
    p2: Seq<(Option<Seq<char>>, Seq<char>)>,
    m: Map<Seq<char>, (Option<Seq<char>>, bool)>,
)
    requires
        is_presence_list(p1, m),
        is_presence_list(p2, m),
    ensures
        p1 == p2,
{
    let k1 = choose|ks: Seq<Seq<char>>| {
        &&& strictly_sorted(ks)
        &&& ks.to_set() == m.dom()
        &&& ks.len() == p1.len()
        &&& forall|i: int| 0 <= i < ks.len() ==> #[trigger] p1[i] == (m[ks[i]].0, status_text(m[ks[i]].1))
    };
    let k2 = choose|ks: Seq<Seq<char>>| {
        &&& strictly_sorted(ks)
        &&& ks.to_set() == m.dom()
        &&& ks.len() == p2.len()
        &&& forall|i: int| 0 <= i < ks.len() ==> #[trigger] p2[i] == (m[ks[i]].0, status_text(m[ks[i]].1))
    };
    lemma_sorted_keys_unique(k1, k2);
    assert(p1 =~= p2) by {
        assert forall|i: int| 0 <= i < p1.len() implies p1[i] == p2[i] by {
            assert(p1[i] == (m[k1[i]].0, status_text(m[k1[i]].1)));
            assert(p2[i] == (m[k2[i]].0, status_text(m[k2[i]].1)));
        }
    }
}

/// Presence lists of the same users at failure thresholds `t1 <= t2` list
/// the same users with the same grades, and a user online at `t1` is online
/// at `t2`; at threshold zero every user is offline.
pub proof fn lemma_presence_list_threshold_monotone(
    csv: Map<Seq<char>, Option<Seq<char>>>,
    known: Seq<(Seq<char>, (Seq<char>, Option<Seq<char>>))>,
    fails: Map<Seq<char>, u32>,
    t1: u32,
    t2: u32,
    p1: Seq<(Option<Seq<char>>, Seq<char>)>,
    p2: Seq<(Option<Seq<char>>, Seq<char>)>,
)
    requires
        t1 <= t2,
        is_presence_list(p1, presence_map(csv, known, fails, t1)),
        is_presence_list(p2, presence_map(csv, known, fails, t2)),
    ensures
        p1.len() == p2.len(),
        forall|i: int| 0 <= i < p1.len() ==> (#[trigger] p1[i]).0 == p2[i].0,
        forall|i: int| 0 <= i < p1.len() ==> ((#[trigger] p1[i]).1 == online_text() ==> p2[i].1 == online_text()),
        t1 == 0 ==> forall|i: int| 0 <= i < p1.len() ==> (#[trigger] p1[i]).1 == offline_text(),
{
    let m1 = presence_map(csv, known, fails, t1);
    let m2 = presence_map(csv, known, fails, t2);
    lemma_presence_threshold_monotone(csv, known, fails, t1, t2);
    let k1 = choose|ks: Seq<Seq<char>>| {
        &&& strictly_sorted(ks)
        &&& ks.to_set() == m1.dom()
        &&& ks.len() == p1.len()
        &&& forall|i: int| 0 <= i < ks.len() ==> #[trigger] p1[i] == (m1[ks[i]].0, status_text(m1[ks[i]].1))
    };
    let k2 = choose|ks: Seq<Seq<char>>| {
        &&& strictly_sorted(ks)
        &&& ks.to_set() == m2.dom()
        &&& ks.len() == p2.len()
        &&& forall|i: int| 0 <= i < ks.len() ==> #[trigger] p2[i] == (m2[ks[i]].0, status_text(m2[ks[i]].1))
    };
    lemma_sorted_keys_unique(k1, k2);
    assert(online_text() != offline_text()) by {
        assert(online_text().len() != offline_text().len());
    }
    assert forall|i: int| 0 <= i < p1.len() implies {
        &&& (#[trigger] p1[i]).0 == p2[i].0
        &&& (p1[i].1 == online_text() ==> p2[i].1 == online_text())
        &&& (t1 == 0 ==> p1[i].1 == offline_text())
    } by {
        let u = k1[i];
        assert(m1.dom().contains(u)) by {
            assert(k1.to_set().contains(u));
        }
    }
}

/// Two grade count lists of the same presence list are equal.
pub proof fn lemma_grade_counts_unique(
    r1: Seq<NetworkGradeCount>,
    r2: Seq<NetworkGradeCount>,
    us: Seq<(Option<Seq<char>>, Seq<char>)>,
)
    requires
        grade_counts_of(r1, us),
        grade_counts_of(r2, us),
    ensures
        r1.map_values(|c: NetworkGradeCount| c@) == r2.map_values(|c: NetworkGradeCount| c@),
{
    lemma_sorted_keys_unique(count_grades(r1), count_grades(r2));
    assert(r1.len() == count_grades(r1).len());
    assert forall|i: int| 0 <= i < r1.len() implies r1[i]@ == r2[i]@ by {
        assert(count_grades(r1)[i] == count_grades(r2)[i]);
    }
    assert(r1.map_values(|c: NetworkGradeCount| c@) =~= r2.map_values(|c: NetworkGradeCount| c@));
}

/// The count under grade `g` in the grade counts `r` of users online
/// (`online`) or offline (otherwise), from the last entry of that grade;
/// zero where `r` has no such grade.
pub open spec fn count_of(r: Seq<NetworkGradeCount>, g: Seq<char>, online: bool) -> nat
    decreases r.len(),
{
    if r.len() == 0 {
        0
    } else if r.last().grade@ == g {
        if online {
            r.last().online as nat
        } else {
            r.last().offline as nat
        }
    } else {
        count_of(r.drop_last(), g, online)
    }
}

proof fn lemma_count_of_value(r: Seq<NetworkGradeCount>, g: Seq<char>, online: bool, v: nat)
    requires
        forall|i: int|
            0 <= i < r.len() && (#[trigger] r[i]).grade@ == g ==> (if online {
                r[i].online as nat
            } else {
                r[i].offline as nat
            }) == v,
    ensures
        count_of(r, g, online) == if exists|i: int| 0 <= i < r.len() && r[i].grade@ == g {
            v
        } else {
            0
        },
    decreases r.len(),
{
    if r.len() > 0 {
        let p = r.drop_last();
        assert forall|i: int| 0 <= i < p.len() && (#[trigger] p[i]).grade@ == g implies (if online {
            p[i].online as nat
        } else {
            p[i].offline as nat
        }) == v by {
            assert(p[i] == r[i]);
        }
        lemma_count_of_value(p, g, online, v);
        if r.last().grade@ != g {
            if exists|i: int| 0 <= i < r.len() && r[i].grade@ == g {
                let i = choose|i: int| 0 <= i < r.len() && r[i].grade@ == g;
                assert(i < p.len());
                assert(p[i] == r[i]);
            }
            if exists|i: int| 0 <= i < p.len() && p[i].grade@ == g {
                let i = choose|i: int| 0 <= i < p.len() && p[i].grade@ == g;
                assert(p[i] == r[i]);
            }
        } else {
            assert(r[r.len() - 1].grade@ == g);
        }
    }
}

proof fn lemma_count_users_concat(
    a: Seq<(Option<Seq<char>>, Seq<char>)>,
    b: Seq<(Option<Seq<char>>, Seq<char>)>,
    key: Seq<char>,
    online: bool,
)
    ensures
        count_users(a + b, key, online) == count_users(a, key, online) + count_users(b, key, online),
    decreases b.len(),
{
    if b.len() == 0 {
        assert(a + b =~= a);
    } else {
        lemma_count_users_concat(a, b.drop_last(), key, online);
        assert((a + b).drop_last() =~= a + b.drop_last());
    }
}

proof fn lemma_count_of_counts(
    r: Seq<NetworkGradeCount>,
    us: Seq<(Option<Seq<char>>, Seq<char>)>,
    g: Seq<char>,
    online: bool,
)
    requires
        grade_counts_of(r, us),
    ensures
        count_of(r, g, online) == count_users(us, g, online),
{
    assert forall|i: int|
        0 <= i < r.len() && (#[trigger] r[i]).grade@ == g implies (if online {
            r[i].online as nat
        } else {
            r[i].offline as nat
        }) == count_users(us, g, online) by {
        assert(r[i].online == count_users(us, r[i].grade@, true));
    }
    lemma_count_of_value(r, g, online, count_users(us, g, online));
    if !exists|i: int| 0 <= i < r.len() && r[i].grade@ == g {
        assert forall|t: int| 0 <= t < us.len() implies grade_key(#[trigger] us[t].0) != g by {
            if grade_key(us[t].0) == g {
                assert(grade_keys(us).contains(g));
                assert(count_grades(r).to_set().contains(g));
                let i = choose|i: int| 0 <= i < count_grades(r).len() && count_grades(r)[i] == g;
                assert(r[i].grade@ == g);
            }
        }
        lemma_count_users_zero(us, g);
    }
}

/// The grade counts of users `a` followed by users `b` merge those of `a`
/// and of `b`: their grades are the grades of either, and under each grade
/// the online, offline and total counts are the sums of the two; with no
/// users there are no counts.
pub proof fn lemma_grade_counts_concat(
    a: Seq<(Option<Seq<char>>, Seq<char>)>,
    b: Seq<(Option<Seq<char>>, Seq<char>)>,
    r: Seq<NetworkGradeCount>,
    ra: Seq<NetworkGradeCount>,
    rb: Seq<NetworkGradeCount>,
)
    requires
        grade_counts_of(r, a + b),
        grade_counts_of(ra, a),
        grade_counts_of(rb, b),
    ensures
        count_grades(r).to_set() == count_grades(ra).to_set() + count_grades(rb).to_set(),
        forall|i: int|
            #![trigger r[i]]
            0 <= i < r.len() ==> {
                &&& r[i].online == count_of(ra, r[i].grade@, true) + count_of(rb, r[i].grade@, true)
                &&& r[i].offline == count_of(ra, r[i].grade@, false) + count_of(rb, r[i].grade@, false)
                &&& r[i].total == r[i].online + r[i].offline
            },
        a.len() == 0 ==> ra.len() == 0,
{
    assert(grade_keys(a + b) =~= grade_keys(a) + grade_keys(b)) by {
        assert forall|k: Seq<char>| grade_keys(a + b).contains(k) implies (grade_keys(a) + grade_keys(b)).contains(k) by {
            let i = choose|i: int| 0 <= i < (a + b).len() && grade_key((a + b)[i].0) == k;
            if i < a.len() {
                assert(grade_key(a[i].0) == k);
            } else {
                assert(grade_key(b[i - a.len()].0) == k);
            }
        }
        assert forall|k: Seq<char>| (grade_keys(a) + grade_keys(b)).contains(k) implies grade_keys(a + b).contains(k) by {
            if grade_keys(a).contains(k) {
                let i = choose|i: int| 0 <= i < a.len() && grade_key(a[i].0) == k;
                assert(grade_key((a + b)[i].0) == k);
            } else {
                let i = choose|i: int| 0 <= i < b.len() && grade_key(b[i].0) == k;
                assert(grade_key((a + b)[i + a.len()].0) == k);
            }
        }
    }
    assert forall|i: int|
        #![trigger r[i]]
        0 <= i < r.len() implies {
            &&& r[i].online == count_of(ra, r[i].grade@, true) + count_of(rb, r[i].grade@, true)
            &&& r[i].offline == count_of(ra, r[i].grade@, false) + count_of(rb, r[i].grade@, false)
            &&& r[i].total == r[i].online + r[i].offline
        } by {
        let g = r[i].grade@;
        lemma_count_users_concat(a, b, g, true);
        lemma_count_users_concat(a, b, g, false);
        lemma_count_of_counts(ra, a, g, true);
        lemma_count_of_counts(ra, a, g, false);
        lemma_count_of_counts(rb, b, g, true);
        lemma_count_of_counts(rb, b, g, false);
    }
    assert(a.len() == 0 ==> ra.len() == 0) by {
        if a.len() == 0 {
            assert(grade_keys(a) =~= Set::<Seq<char>>::empty());
            if ra.len() > 0 {
                assert(count_grades(ra).to_set().contains(count_grades(ra)[0]));
            }
        }
    }
}

} // verus!
