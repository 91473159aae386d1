//! Decisions of the reporting agent that do not depend on measurements:
//! which machine id it reports under, and which user id a process runs as.

use vstd::prelude::*;
use crate::text::{chars_of, decimal, decimal_string, parse_u32, parse_u32_chars};

verus! {

/// The id the agent reports under: the one given, else the host name when it
/// is not empty, else `fresh`, a random UUID in its hyphenated text form that
/// the caller drew.
pub fn machine_id_for(given: Option<String>, hostname: &str, fresh: String) -> (id: String)
    ensures
        given is Some ==> id@ == given->0@,
        given is None && hostname@.len() > 0 ==> id@ == hostname@,
        given is None && hostname@.len() == 0 ==> id@ == fresh@,
{
    match given {
        Some(g) => g,
        None => {
            let hc = chars_of(hostname);
            if hc.len() > 0 {
                String::from_str(hostname)
            } else {
                fresh
            }
        },
    }
}

/// The user id that the debug form `Uid(<n>)` of a process owner shows: `None`
/// when the text does not have that form, `u32::MAX` when `<n>` is not a
/// `u32` numeral (as `str::parse` reads one).
pub open spec fn uid_of_repr(s: Seq<char>) -> Option<u32> {
    if s.len() >= 5 && s.take(4) == seq!['U', 'i', 'd', '('] && s.last() == ')' {
        match parse_u32(s.subrange(4, s.len() - 1)) {
            Some(n) => Some(n),
            None => Some(u32::MAX),
        }
    } else {
        None
    }
}

/// Reads a user id out of its debug form (see [`uid_of_repr`]).
pub fn parse_uid_repr(repr: &str) -> (r: Option<u32>)
    ensures
        r == uid_of_repr(repr@),
{
    let cs = chars_of(repr);
    let n = cs.len();
    if n < 5 || cs[0] != 'U' || cs[1] != 'i' || cs[2] != 'd' || cs[3] != '(' || cs[n - 1] != ')' {
        proof {
            if n >= 5 && cs@.take(4) == seq!['U', 'i', 'd', '('] {
                assert(cs@.take(4)[0] == 'U' && cs@.take(4)[1] == 'i');
                assert(cs@.take(4)[2] == 'd' && cs@.take(4)[3] == '(');
            }
        }
        return None;
    }
    assert(cs@.take(4) =~= seq!['U', 'i', 'd', '(']);
    let mut inner: Vec<char> = Vec::new();
    let mut i: usize = 4;
    while i < n - 1
        invariant
            5 <= n == cs@.len(),
            4 <= i <= n - 1,
            inner@ == cs@.subrange(4, i as int),
        decreases n - 1 - i,
    {
        inner.push(cs[i]);
        i = i + 1;
        assert(inner@ =~= cs@.subrange(4, i as int));
    }
    match parse_u32_chars(&inner) {
        Some(v) => Some(v),
        None => Some(u32::MAX),
    }
}

/// The name shown for user `uid`: the name the user database gave, else the
/// id in decimal.
pub fn username_or_id(uid: u32, name: Option<String>) -> (r: String)
    ensures
        r@ == (match name {
            Some(n) => n@,
            None => decimal(uid as nat),
        }),
{
    match name {
        Some(n) => n,
        None => decimal_string(uid),
    }
}

} // verus!
