//! A string-keyed table: each key occurs once, and entries keep the order in
//! which their keys were first inserted.

use vstd::prelude::*;
use crate::text::{chars_eq, chars_lt, chars_of, lemma_str_lt_irreflexive, lemma_str_lt_total, lemma_str_lt_transitive, str_lt};

verus! {

/// The key-to-value map that a sequence of distinct-keyed pairs describes.
pub open spec fn pairs_map<V>(s: Seq<(Seq<char>, V)>) -> Map<Seq<char>, V>
    decreases s.len(),
{
    if s.len() == 0 {
        Map::empty()
    } else {
        pairs_map(s.drop_last()).insert(s.last().0, s.last().1)
    }
}

/// No key occurs twice in `s`.
pub open spec fn distinct_keys<V>(s: Seq<(Seq<char>, V)>) -> bool {
    forall|i: int, j: int| 0 <= i < j < s.len() ==> #[trigger] s[i].0 != #[trigger] s[j].0
}

/// The position of `k` in `s`, where it occurs.
pub open spec fn key_index<V>(s: Seq<(Seq<char>, V)>, k: Seq<char>) -> int {
    choose|i: int| 0 <= i < s.len() && s[i].0 == k
}

pub proof fn lemma_pairs_map_dom<V>(s: Seq<(Seq<char>, V)>)
    ensures
        forall|k: Seq<char>| #[trigger]
            pairs_map(s).dom().contains(k) <==> exists|i: int| 0 <= i < s.len() && s[i].0 == k,
        pairs_map(s).dom().finite(),
    decreases s.len(),
{
    if s.len() > 0 {
        lemma_pairs_map_dom(s.drop_last());
        assert forall|k: Seq<char>| #[trigger]
            pairs_map(s).dom().contains(k) <==> exists|i: int| 0 <= i < s.len() && s[i].0 == k by {
            if pairs_map(s).dom().contains(k) {
                if k == s.last().0 {
                    assert(s[s.len() - 1].0 == k);
                } else {
                    let i = choose|i: int| 0 <= i < s.drop_last().len() && s.drop_last()[i].0 == k;
                    assert(s[i].0 == k);
                }
            }
            if exists|i: int| 0 <= i < s.len() && s[i].0 == k {
                let i = choose|i: int| 0 <= i < s.len() && s[i].0 == k;
                if i < s.len() - 1 {
                    assert(s.drop_last()[i].0 == k);
                }
            }
        }
    }
}

pub proof fn lemma_pairs_map_index<V>(s: Seq<(Seq<char>, V)>, i: int)
    requires
        distinct_keys(s),
        0 <= i < s.len(),
    ensures
        pairs_map(s).dom().contains(s[i].0),
        pairs_map(s)[s[i].0] == s[i].1,
    decreases s.len(),
{
    if i < s.len() - 1 {
        lemma_pairs_map_index(s.drop_last(), i);
        assert(s[i].0 != s[s.len() - 1].0);
    }
}

/// Pairs that are `s` with one value replaced describe the map with that key updated.
pub proof fn lemma_pairs_map_update<V>(s: Seq<(Seq<char>, V)>, i: int, v: V)
    requires
        distinct_keys(s),
        0 <= i < s.len(),
    ensures
        distinct_keys(s.update(i, (s[i].0, v))),
        pairs_map(s.update(i, (s[i].0, v))) == pairs_map(s).insert(s[i].0, v),
    decreases s.len(),
{
    let t = s.update(i, (s[i].0, v));
    assert(distinct_keys(t)) by {
        assert forall|a: int, b: int| 0 <= a < b < t.len() implies #[trigger] t[a].0
            != #[trigger] t[b].0 by {
            assert(t[a].0 == s[a].0 && t[b].0 == s[b].0);
        }
    }
    if i == s.len() - 1 {
        assert(t.drop_last() =~= s.drop_last());
        lemma_pairs_map_dom(s.drop_last());
        assert(pairs_map(t) =~= pairs_map(s).insert(s[i].0, v));
    } else {
        lemma_pairs_map_update(s.drop_last(), i, v);
        assert(t.drop_last() =~= s.drop_last().update(i, (s[i].0, v)));
        assert(s[i].0 != s.last().0);
        assert(pairs_map(t) =~= pairs_map(s).insert(s[i].0, v));
    }
}

pub proof fn lemma_pairs_map_push<V>(s: Seq<(Seq<char>, V)>, k: Seq<char>, v: V)
    requires
        distinct_keys(s),
        forall|i: int| 0 <= i < s.len() ==> #[trigger] s[i].0 != k,
    ensures
        distinct_keys(s.push((k, v))),
        pairs_map(s.push((k, v))) == pairs_map(s).insert(k, v),
{
    assert(s.push((k, v)).drop_last() =~= s);
}

/// The keys of `s` are in strictly increasing order (see [`str_lt`]).
pub open spec fn keys_sorted<V>(s: Seq<(Seq<char>, V)>) -> bool {
    forall|i: int, j: int| 0 <= i < j < s.len() ==> str_lt(#[trigger] s[i].0, #[trigger] s[j].0)
}

pub proof fn lemma_sorted_distinct<V>(s: Seq<(Seq<char>, V)>)
    requires
        keys_sorted(s),
    ensures
        distinct_keys(s),
{
    assert forall|i: int, j: int| 0 <= i < j < s.len() implies #[trigger] s[i].0 != #[trigger] s[j].0 by {
        assert(str_lt(s[i].0, s[j].0));
        lemma_str_lt_irreflexive(s[i].0);
    }
}

/// Inserting a pair with a new key anywhere describes the map with that key added.
pub proof fn lemma_pairs_map_insert_at<V>(s: Seq<(Seq<char>, V)>, k: int, key: Seq<char>, v: V)
    requires
        0 <= k <= s.len(),
        forall|i: int| 0 <= i < s.len() ==> #[trigger] s[i].0 != key,
    ensures
        pairs_map(s.insert(k, (key, v))) == pairs_map(s).insert(key, v),
    decreases s.len(),
{
    let t = s.insert(k, (key, v));
    if k == s.len() {
        assert(t.drop_last() =~= s);
    } else {
        let s2 = s.drop_last();
        assert(t.drop_last() =~= s2.insert(k, (key, v)));
        assert(t.last() == s.last());
        lemma_pairs_map_insert_at(s2, k, key, v);
        assert(s.last().0 != key);
        assert(pairs_map(t) =~= pairs_map(s).insert(key, v));
    }
}

/// `s` with `k` mapped to `v`: the value replaced in place where `k` occurs,
/// a new last pair where it does not.
pub open spec fn pairs_insert<V>(s: Seq<(Seq<char>, V)>, k: Seq<char>, v: V) -> Seq<(Seq<char>, V)> {
    if exists|i: int| 0 <= i < s.len() && s[i].0 == k {
        s.update(key_index(s, k), (k, v))
    } else {
        s.push((k, v))
    }
}

pub proof fn lemma_pairs_insert<V>(s: Seq<(Seq<char>, V)>, k: Seq<char>, v: V)
    requires
        distinct_keys(s),
    ensures
        distinct_keys(pairs_insert(s, k, v)),
        pairs_map(pairs_insert(s, k, v)) == pairs_map(s).insert(k, v),
{
    if exists|i: int| 0 <= i < s.len() && s[i].0 == k {
        let i = key_index(s, k);
        lemma_pairs_map_update(s, i, v);
    } else {
        lemma_pairs_map_push(s, k, v);
    }
}

/// A table from strings to values. Its view is the map it holds; its
/// [`pairs`](StrTable::pairs) are the same entries in insertion order.
pub struct StrTable<V: DeepView> {
    entries: Vec<(String, V)>,
}

impl<V: DeepView> StrTable<V> {
    /// The entries as (key, value view) pairs, in order.
    pub closed spec fn pairs(self) -> Seq<(Seq<char>, V::V)> {
        self.entries@.map_values(|e: (String, V)| (e.0@, e.1.deep_view()))
    }

    /// The keys, in order.
    pub open spec fn keys(self) -> Seq<Seq<char>> {
        self.pairs().map_values(|p: (Seq<char>, V::V)| p.0)
    }

    /// Well-formedness: no key occurs twice.
    pub open spec fn wf(self) -> bool {
        distinct_keys(self.pairs())
    }

    /// The map from keys to value views that the table holds.
    pub open spec fn map(self) -> Map<Seq<char>, V::V> {
        pairs_map(self.pairs())
    }

    /// An empty table.
    pub fn new() -> (t: Self)
        ensures
            t.wf(),
            t.pairs() == Seq::<(Seq<char>, V::V)>::empty(),
    {
        let t = StrTable { entries: Vec::new() };
        assert(t.pairs() =~= Seq::<(Seq<char>, V::V)>::empty());
        t
    }

    /// The number of entries.
    pub fn len(&self) -> (n: usize)
        ensures
            n == self.pairs().len(),
    {
        self.entries.len()
    }

    /// The key and value of entry `i`.
    pub fn entry(&self, i: usize) -> (e: (&String, &V))
        requires
            i < self.pairs().len(),
        ensures
            e.0@ == self.pairs()[i as int].0,
            e.1.deep_view() == self.pairs()[i as int].1,
    {
        let e = &self.entries[i];
        (&e.0, &e.1)
    }

    /// The position of `key`, where the table holds it.
    pub fn find(&self, key: &str) -> (r: Option<usize>)
        ensures
            match r {
                Some(i) => i < self.pairs().len() && self.pairs()[i as int].0 == key@,
                None => forall|i: int| 0 <= i < self.pairs().len() ==> #[trigger] self.pairs()[i].0 != key@,
            },
    {
        let mut i: usize = 0;
        while i < self.entries.len()
            invariant
                i <= self.pairs().len(),
                self.pairs().len() == self.entries@.len(),
                forall|j: int| 0 <= j < i ==> #[trigger] self.pairs()[j].0 != key@,
            decreases self.entries@.len() - i,
        {
            if crate::text::str_eq(self.entries[i].0.as_str(), key) {
                return Some(i);
            }
            i = i + 1;
        }
        None
    }

    /// The value stored under `key`, if any.
    pub fn get(&self, key: &str) -> (r: Option<&V>)
        requires
            self.wf(),
        ensures
            match r {
                Some(v) => self.map().dom().contains(key@) && self.map()[key@] == v.deep_view(),
                None => !self.map().dom().contains(key@),
            },
    {
        proof {
            lemma_pairs_map_dom(self.pairs());
        }
        match self.find(key) {
            Some(i) => {
                proof {
                    lemma_pairs_map_index(self.pairs(), i as int);
                }
                Some(&self.entries[i].1)
            },
            None => None,
        }
    }

    /// Stores `value` under `key`: in place of the old value where the key is
    /// present, as a new last entry where it is not.
    pub fn insert(&mut self, key: String, value: V)
        requires
            old(self).wf(),
        ensures
            final(self).wf(),
            final(self).map() == old(self).map().insert(key@, value.deep_view()),
            final(self).pairs() == pairs_insert(old(self).pairs(), key@, value.deep_view()),
    {
        proof {
            lemma_pairs_map_dom(self.pairs());
        }
        match self.find(key.as_str()) {
            Some(i) => {
                let ghost old_pairs = self.pairs();
                proof {
                    let j = key_index(old_pairs, key@);
                    assert(old_pairs[i as int].0 == key@);
                    assert(j == i) by {
                        if j != i {
                            if j < i {
                                assert(old_pairs[j].0 != old_pairs[i as int].0);
                            } else {
                                assert(old_pairs[i as int].0 != old_pairs[j].0);
                            }
                        }
                    }
                    lemma_pairs_map_update(old_pairs, i as int, value.deep_view());
                }
                self.entries.set(i, (key, value));
                assert(self.pairs() =~= old_pairs.update(i as int, (key@, value.deep_view())));
            },
            None => {
                let ghost old_pairs = self.pairs();
                proof {
                    lemma_pairs_map_push(old_pairs, key@, value.deep_view());
                }
                self.entries.push((key, value));
                assert(self.pairs() =~= old_pairs.push((key@, value.deep_view())));
            },
        }
    }

    /// Stores `value` under `key` unless the key is already present.
    pub fn insert_if_absent(&mut self, key: String, value: V)
        requires
            old(self).wf(),
        ensures
            final(self).wf(),
            old(self).map().dom().contains(key@) ==> final(self).pairs() == old(self).pairs(),
            !old(self).map().dom().contains(key@) ==> final(self).pairs() == old(self).pairs().push(
                (key@, value.deep_view()),
            ),
            final(self).map() == (if old(self).map().dom().contains(key@) {
                old(self).map()
            } else {
                old(self).map().insert(key@, value.deep_view())
            }),
    {
        proof {
            lemma_pairs_map_dom(self.pairs());
        }
        match self.find(key.as_str()) {
            Some(_) => {},
            None => {
                let ghost old_pairs = self.pairs();
                proof {
                    lemma_pairs_map_push(old_pairs, key@, value.deep_view());
                }
                self.entries.push((key, value));
                assert(self.pairs() =~= old_pairs.push((key@, value.deep_view())));
            },
        }
    }

    /// Stores `value` under `key` in a table whose keys are sorted, keeping
    /// them sorted: in place of the old value where the key is present, at its
    /// place in the order where it is not.
    pub fn insert_sorted(&mut self, key: String, value: V)
        requires
            old(self).wf(),
            keys_sorted(old(self).pairs()),
        ensures
            final(self).wf(),
            keys_sorted(final(self).pairs()),
            final(self).map() == old(self).map().insert(key@, value.deep_view()),
    {
        let kc = chars_of(key.as_str());
        let n = self.entries.len();
        let ghost s = self.pairs();
        let mut k: usize = 0;
        while k < n
            invariant
                n == s.len(),
                s == self.pairs(),
                kc@ == key@,
                k <= n,
                forall|j: int| 0 <= j < k ==> str_lt(#[trigger] s[j].0, key@),
            ensures
                k <= n,
                forall|j: int| 0 <= j < k ==> str_lt(#[trigger] s[j].0, key@),
                k < n ==> !str_lt(s[k as int].0, key@),
            decreases n - k,
        {
            let ek = chars_of(self.entries[k].0.as_str());
            assert(ek@ == s[k as int].0);
            if !chars_lt(&ek, &kc) {
                break;
            }
            k = k + 1;
        }
        let mut same = false;
        if k < n {
            let ek = chars_of(self.entries[k].0.as_str());
            assert(ek@ == s[k as int].0);
            same = chars_eq(&ek, &kc);
        }
        assert(k < n && !same ==> s[k as int].0 != key@);
        assert(same ==> k < n && s[k as int].0 == key@);
        if same {
            proof {
                lemma_pairs_map_update(s, k as int, value.deep_view());
            }
            self.entries.set(k, (key, value));
            assert(self.pairs() =~= s.update(k as int, (key@, value.deep_view())));
            assert(keys_sorted(self.pairs())) by {
                assert forall|i: int, j: int| 0 <= i < j < self.pairs().len() implies str_lt(
                    #[trigger] self.pairs()[i].0,
                    #[trigger] self.pairs()[j].0,
                ) by {
                    assert(self.pairs()[i].0 == s[i].0 && self.pairs()[j].0 == s[j].0);
                }
            }
        } else {
            proof {
                assert forall|i: int| 0 <= i < s.len() implies #[trigger] s[i].0 != key@ by {
                    if i < k {
                        lemma_str_lt_irreflexive(key@);
                    } else {
                        lemma_str_lt_total(s[k as int].0, key@);
                        if i > k {
                            assert(str_lt(s[k as int].0, s[i].0));
                            lemma_str_lt_transitive(key@, s[k as int].0, s[i].0);
                            lemma_str_lt_irreflexive(key@);
                        } else {
                            lemma_str_lt_irreflexive(key@);
                        }
                    }
                }
                lemma_pairs_map_insert_at(s, k as int, key@, value.deep_view());
            }
            self.entries.insert(k, (key, value));
            let ghost t = self.pairs();
            assert(t =~= s.insert(k as int, (key@, value.deep_view())));
            assert(keys_sorted(t)) by {
                assert forall|i: int, j: int| 0 <= i < j < t.len() implies str_lt(
                    #[trigger] t[i].0,
                    #[trigger] t[j].0,
                ) by {
                    if j < k {
                        assert(t[i] == s[i] && t[j] == s[j]);
                    } else if j == k {
                        assert(t[i] == s[i]);
                    } else if i == k {
                        assert(t[j] == s[j - 1]);
                        lemma_str_lt_total(s[k as int].0, key@);
                        if j - 1 > k {
                            lemma_str_lt_transitive(key@, s[k as int].0, s[j - 1].0);
                        }
                    } else if i < k {
                        assert(t[i] == s[i] && t[j] == s[j - 1]);
                        lemma_str_lt_total(s[k as int].0, key@);
                        if j - 1 > k {
                            lemma_str_lt_transitive(key@, s[k as int].0, s[j - 1].0);
                        }
                        lemma_str_lt_transitive(s[i].0, key@, s[j - 1].0);
                    } else {
                        assert(t[i] == s[i - 1] && t[j] == s[j - 1]);
                    }
                }
            }
            proof {
                lemma_sorted_distinct(t);
            }
        }
    }
}

} // verus!
