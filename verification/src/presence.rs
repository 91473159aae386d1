//! Presence tracking across network scans: which IPs belong to which roster
//! users, and how many scans in a row each IP has failed to answer.

use vstd::prelude::*;
use crate::network::{
    build_grade_counts, build_user_presence, fail_count_of, grade_counts_of, is_presence_list,
    lemma_grade_counts_unique, lemma_presence_list_unique,
    normalize_mac, normalized_mac, presence_map, presence_views, CsvUserEntry,
    OFFLINE_FAIL_THRESHOLD,
};
use crate::state::{NetworkGradeCount, NetworkUsersSnapshot};
use crate::table::{distinct_keys, lemma_pairs_insert, lemma_pairs_map_dom, lemma_pairs_map_index, pairs_insert, pairs_map, StrTable};
use crate::text::{chars_of, decimal, decimal_chars, str_eq, string_from_chars};

verus! {

/// `ip` lies in the subnet `prefix`: it is `prefix`, a dot, and more.
pub open spec fn in_subnet(ip: Seq<char>, prefix: Seq<char>) -> bool {
    &&& ip.len() > prefix.len()
    &&& ip.take(prefix.len() as int) == prefix
    &&& ip[prefix.len() as int] == '.'
}

/// Whether `ip` lies in the subnet `prefix` (see [`in_subnet`]).
pub fn ip_in_subnet(ip: &str, prefix: &str) -> (b: bool)
    ensures
        b == in_subnet(ip@, prefix@),
{
    let ic = chars_of(ip);
    let pc = chars_of(prefix);
    if ic.len() <= pc.len() {
        return false;
    }
    let mut i: usize = 0;
    while i < pc.len()
        invariant
            pc@.len() < ic@.len(),
            ic@ == ip@,
            pc@ == prefix@,
            i <= pc@.len(),
            forall|k: int| 0 <= k < i ==> ic@[k] == pc@[k],
        decreases pc@.len() - i,
    {
        if ic[i] != pc[i] {
            assert(ic@.take(pc@.len() as int)[i as int] != pc@[i as int]);
            return false;
        }
        i = i + 1;
    }
    assert(ic@.take(pc@.len() as int) =~= pc@);
    ic[pc.len()] == '.'
}

/// The keys of `pairs` that lie in the subnet `prefix`, in order.
pub open spec fn subnet_keys(pairs: Seq<(Seq<char>, Seq<char>)>, prefix: Seq<char>) -> Seq<Seq<char>>
    decreases pairs.len(),
{
    if pairs.len() == 0 {
        Seq::empty()
    } else {
        let rest = subnet_keys(pairs.drop_last(), prefix);
        if in_subnet(pairs.last().0, prefix) {
            rest.push(pairs.last().0)
        } else {
            rest
        }
    }
}

/// The IPs of the ARP table that lie in the scanned subnet, in table order.
pub fn subnet_ips(ip_mac_map: &StrTable<String>, subnet_prefix: &str) -> (ips: Vec<String>)
    ensures
        ips@.map_values(|s: String| s@) == subnet_keys(ip_mac_map.pairs(), subnet_prefix@),
{
    let ghost ps = ip_mac_map.pairs();
    let mut ips: Vec<String> = Vec::new();
    let n = ip_mac_map.len();
    let mut i: usize = 0;
    assert(ps.take(0) =~= Seq::<(Seq<char>, Seq<char>)>::empty());
    while i < n
        invariant
            n == ps.len(),
            ps == ip_mac_map.pairs(),
            i <= n,
            ips@.map_values(|s: String| s@) == subnet_keys(ps.take(i as int), subnet_prefix@),
        decreases n - i,
    {
        let (ip, _) = ip_mac_map.entry(i);
        assert(ps.take(i + 1).drop_last() =~= ps.take(i as int));
        assert(ps.take(i + 1).last().0 == ip@);
        let ghost before = ips@.map_values(|s: String| s@);
        if ip_in_subnet(ip.as_str(), subnet_prefix) {
            ips.push(ip.clone());
            assert(ips@.map_values(|s: String| s@) =~= before.push(ip@));
        }
        i = i + 1;
    }
    assert(ps.take(n as int) =~= ps);
    ips
}

/// A roster row as a view: user name and optional grade.
pub type UserView = (Seq<char>, Option<Seq<char>>);

/// The roster row that the ARP pair (`ip`, `mac`) attributes to `ip`: the row
/// of the normalized MAC, where `ip` lies in the subnet and the roster has one.
pub open spec fn matched_user(
    ip: Seq<char>,
    mac: Seq<char>,
    csv: Map<Seq<char>, UserView>,
    prefix: Seq<char>,
) -> Option<UserView> {
    if in_subnet(ip, prefix) && csv.dom().contains(normalized_mac(mac)) {
        Some(csv[normalized_mac(mac)])
    } else {
        None
    }
}

/// The known IP-to-user pairs after a scan: each ARP pair in turn that
/// matches a roster row stores that row under its IP.
pub open spec fn known_after(
    known: Seq<(Seq<char>, UserView)>,
    arp: Seq<(Seq<char>, Seq<char>)>,
    csv: Map<Seq<char>, UserView>,
    prefix: Seq<char>,
) -> Seq<(Seq<char>, UserView)>
    decreases arp.len(),
{
    if arp.len() == 0 {
        known
    } else {
        let k = known_after(known, arp.drop_last(), csv, prefix);
        match matched_user(arp.last().0, arp.last().1, csv, prefix) {
            Some(u) => pairs_insert(k, arp.last().0, u),
            None => k,
        }
    }
}

/// The known IP-to-user map after a scan (see [`known_after`]).
pub open spec fn known_map_after(
    known: Map<Seq<char>, UserView>,
    arp: Seq<(Seq<char>, Seq<char>)>,
    csv: Map<Seq<char>, UserView>,
    prefix: Seq<char>,
) -> Map<Seq<char>, UserView>
    decreases arp.len(),
{
    if arp.len() == 0 {
        known
    } else {
        let k = known_map_after(known, arp.drop_last(), csv, prefix);
        match matched_user(arp.last().0, arp.last().1, csv, prefix) {
            Some(u) => k.insert(arp.last().0, u),
            None => k,
        }
    }
}

/// The failure counts once every newly matched IP without a count has been
/// given [`OFFLINE_FAIL_THRESHOLD`].
spec fn seeded_fails(
    fails: Map<Seq<char>, u32>,
    arp: Seq<(Seq<char>, Seq<char>)>,
    csv: Map<Seq<char>, UserView>,
    prefix: Seq<char>,
) -> Map<Seq<char>, u32>
    decreases arp.len(),
{
    if arp.len() == 0 {
        fails
    } else {
        let m = seeded_fails(fails, arp.drop_last(), csv, prefix);
        if matched_user(arp.last().0, arp.last().1, csv, prefix) is Some && !m.dom().contains(
            arp.last().0,
        ) {
            m.insert(arp.last().0, OFFLINE_FAIL_THRESHOLD)
        } else {
            m
        }
    }
}

/// The IPs that answered a liveness probe.
pub open spec fn active_set(active: Seq<String>) -> Set<Seq<char>> {
    Set::new(|ip: Seq<char>| exists|i: int| 0 <= i < active.len() && active[i]@ == ip)
}

/// The failure count of a known IP after a scan: zero if it answered, one
/// more than before (from [`OFFLINE_FAIL_THRESHOLD`] where it had none) if not.
pub open spec fn next_fail_count(fails: Map<Seq<char>, u32>, ip: Seq<char>, active: bool) -> u32 {
    if active {
        0
    } else {
        (fail_count_of(fails, ip, OFFLINE_FAIL_THRESHOLD) + 1) as u32
    }
}

/// The failure counts after a scan: every known IP gets its next count (see
/// [`next_fail_count`]); the counts of other IPs stay.
pub open spec fn fails_after(
    fails: Map<Seq<char>, u32>,
    known: Set<Seq<char>>,
    active: Set<Seq<char>>,
) -> Map<Seq<char>, u32> {
    Map::new(
        |ip: Seq<char>| fails.dom().contains(ip) || known.contains(ip),
        |ip: Seq<char>|
            if known.contains(ip) {
                next_fail_count(fails, ip, active.contains(ip))
            } else {
                fails[ip]
            },
    )
}

proof fn lemma_known_after(
    known: Seq<(Seq<char>, UserView)>,
    arp: Seq<(Seq<char>, Seq<char>)>,
    csv: Map<Seq<char>, UserView>,
    prefix: Seq<char>,
)
    requires
        distinct_keys(known),
    ensures
        distinct_keys(known_after(known, arp, csv, prefix)),
        pairs_map(known_after(known, arp, csv, prefix)) == known_map_after(
            pairs_map(known),
            arp,
            csv,
            prefix,
        ),
    decreases arp.len(),
{
    if arp.len() > 0 {
        lemma_known_after(known, arp.drop_last(), csv, prefix);
        let k = known_after(known, arp.drop_last(), csv, prefix);
        match matched_user(arp.last().0, arp.last().1, csv, prefix) {
            Some(u) => {
                lemma_pairs_insert(k, arp.last().0, u);
            },
            None => {},
        }
    }
}

proof fn lemma_seeded_fails(
    known: Map<Seq<char>, UserView>,
    fails: Map<Seq<char>, u32>,
    arp: Seq<(Seq<char>, Seq<char>)>,
    csv: Map<Seq<char>, UserView>,
    prefix: Seq<char>,
)
    ensures
        forall|ip: Seq<char>| #[trigger]
            seeded_fails(fails, arp, csv, prefix).dom().contains(ip) ==> fails.dom().contains(ip)
                || known_map_after(known, arp, csv, prefix).dom().contains(ip),
        forall|ip: Seq<char>|
            fail_count_of(#[trigger] seeded_fails(fails, arp, csv, prefix), ip, OFFLINE_FAIL_THRESHOLD)
                == fail_count_of(fails, ip, OFFLINE_FAIL_THRESHOLD),
        forall|ip: Seq<char>| #[trigger]
            fails.dom().contains(ip) ==> seeded_fails(fails, arp, csv, prefix).dom().contains(ip),
        forall|ip: Seq<char>| #[trigger]
            known.dom().contains(ip) ==> known_map_after(known, arp, csv, prefix).dom().contains(ip),
    decreases arp.len(),
{
    if arp.len() > 0 {
        lemma_seeded_fails(known, fails, arp.drop_last(), csv, prefix);
        let m = seeded_fails(fails, arp.drop_last(), csv, prefix);
        let s = seeded_fails(fails, arp, csv, prefix);
        assert forall|ip: Seq<char>| fail_count_of(s, ip, OFFLINE_FAIL_THRESHOLD)
            == fail_count_of(fails, ip, OFFLINE_FAIL_THRESHOLD) by {
            assert(fail_count_of(m, ip, OFFLINE_FAIL_THRESHOLD) == fail_count_of(fails, ip, OFFLINE_FAIL_THRESHOLD));
        }
    }
}

/// One of the first `n` keys of `s` is `x`.
pub open spec fn among_first(s: Seq<(Seq<char>, UserView)>, n: int, x: Seq<char>) -> bool {
    exists|t: int| 0 <= t < n && s[t].0 == x
}

/// Whether some pair among the first `n` of `arp` attributes a roster row to `ip`.
pub open spec fn matched_among(
    arp: Seq<(Seq<char>, Seq<char>)>,
    n: int,
    ip: Seq<char>,
    csv: Map<Seq<char>, UserView>,
    prefix: Seq<char>,
) -> bool {
    exists|j: int| 0 <= j < n && arp[j].0 == ip && matched_user(arp[j].0, arp[j].1, csv, prefix) is Some
}

proof fn lemma_known_map_after_dom(
    known: Map<Seq<char>, UserView>,
    arp: Seq<(Seq<char>, Seq<char>)>,
    csv: Map<Seq<char>, UserView>,
    prefix: Seq<char>,
)
    ensures
        forall|ip: Seq<char>| #[trigger]
            known_map_after(known, arp, csv, prefix).dom().contains(ip) <==> (known.dom().contains(ip)
                || matched_among(arp, arp.len() as int, ip, csv, prefix)),
    decreases arp.len(),
{
    if arp.len() > 0 {
        let prev = arp.drop_last();
        let n = arp.len() - 1;
        lemma_known_map_after_dom(known, prev, csv, prefix);
        let k = known_map_after(known, prev, csv, prefix);
        assert forall|ip: Seq<char>| #[trigger]
            known_map_after(known, arp, csv, prefix).dom().contains(ip) <==> (known.dom().contains(ip)
                || matched_among(arp, arp.len() as int, ip, csv, prefix)) by {
            assert(matched_among(prev, n, ip, csv, prefix) ==> matched_among(arp, n, ip, csv, prefix)) by {
                if matched_among(prev, n, ip, csv, prefix) {
                    let j = choose|j: int| 0 <= j < n && prev[j].0 == ip && matched_user(prev[j].0, prev[j].1, csv, prefix) is Some;
                    assert(arp[j] == prev[j]);
                }
            }
            assert(matched_among(arp, n, ip, csv, prefix) ==> matched_among(prev, n, ip, csv, prefix)) by {
                if matched_among(arp, n, ip, csv, prefix) {
                    let j = choose|j: int| 0 <= j < n && arp[j].0 == ip && matched_user(arp[j].0, arp[j].1, csv, prefix) is Some;
                    assert(arp[j] == prev[j]);
                }
            }
            assert(matched_among(arp, arp.len() as int, ip, csv, prefix) <==> (matched_among(arp, n, ip, csv, prefix)
                || (arp[n].0 == ip && matched_user(arp[n].0, arp[n].1, csv, prefix) is Some))) by {
                if matched_among(arp, arp.len() as int, ip, csv, prefix) {
                    let j = choose|j: int| 0 <= j < arp.len() && arp[j].0 == ip && matched_user(arp[j].0, arp[j].1, csv, prefix) is Some;
                    if j < n {
                        assert(matched_among(arp, n, ip, csv, prefix));
                    }
                }
                if matched_among(arp, n, ip, csv, prefix) {
                    let j = choose|j: int| 0 <= j < n && arp[j].0 == ip && matched_user(arp[j].0, arp[j].1, csv, prefix) is Some;
                    assert(matched_among(arp, arp.len() as int, ip, csv, prefix));
                }
            }
            assert(arp.last() == arp[n]);
        }
    }
}

/// A scan never forgets an IP: the known IPs after it are those before it and
/// those of the ARP pairs in the subnet whose normalized MAC is on the roster.
pub proof fn lemma_known_ips_after_scan(
    known: Map<Seq<char>, UserView>,
    arp: Seq<(Seq<char>, Seq<char>)>,
    csv: Map<Seq<char>, UserView>,
    prefix: Seq<char>,
)
    ensures
        forall|ip: Seq<char>| #[trigger]
            known_map_after(known, arp, csv, prefix).dom().contains(ip) <==> (known.dom().contains(ip)
                || matched_among(arp, arp.len() as int, ip, csv, prefix)),
{
    lemma_known_map_after_dom(known, arp, csv, prefix);
}

/// One scan as the tracker takes it in: the subnet prefix, the ARP pairs,
/// the roster (normalized MAC to user), and the IPs that answered.
pub type ScanInput = (Seq<char>, Seq<(Seq<char>, Seq<char>)>, Map<Seq<char>, UserView>, Set<Seq<char>>);

/// The known IP-to-user pairs after the first `n` of the scans `inputs`,
/// starting from none.
pub open spec fn known_run(inputs: Seq<ScanInput>, n: nat) -> Seq<(Seq<char>, UserView)>
    decreases n,
{
    if n == 0 {
        Seq::empty()
    } else {
        let x = inputs[n - 1];
        known_after(known_run(inputs, (n - 1) as nat), x.1, x.2, x.0)
    }
}

/// The known IPs after each of the scans `inputs`.
pub open spec fn known_sets(inputs: Seq<ScanInput>) -> Seq<Set<Seq<char>>> {
    Seq::new(inputs.len(), |j: int| pairs_map(known_run(inputs, (j + 1) as nat)).dom())
}

/// The IPs that answered each of the scans `inputs`.
pub open spec fn answer_sets(inputs: Seq<ScanInput>) -> Seq<Set<Seq<char>>> {
    Seq::new(inputs.len(), |j: int| inputs[j].3)
}

proof fn lemma_known_run_prefix(inputs: Seq<ScanInput>, x: ScanInput, n: nat)
    requires
        n <= inputs.len(),
    ensures
        known_run(inputs.push(x), n) == known_run(inputs, n),
    decreases n,
{
    if n > 0 {
        lemma_known_run_prefix(inputs, x, (n - 1) as nat);
        assert(inputs.push(x)[n - 1] == inputs[n - 1]);
    }
}

proof fn lemma_known_run_distinct(inputs: Seq<ScanInput>, n: nat)
    requires
        n <= inputs.len(),
    ensures
        distinct_keys(known_run(inputs, n)),
    decreases n,
{
    if n > 0 {
        lemma_known_run_distinct(inputs, (n - 1) as nat);
        let x = inputs[n - 1];
        lemma_known_after(known_run(inputs, (n - 1) as nat), x.1, x.2, x.0);
    }
}

/// The known IPs never shrink over a run of scans.
pub proof fn lemma_known_sets_grow(inputs: Seq<ScanInput>)
    ensures
        known_grows(known_sets(inputs)),
{
    let ks = known_sets(inputs);
    assert forall|j: int| 0 < j < ks.len() implies ks[j - 1].subset_of(#[trigger] ks[j]) by {
        let prev = known_run(inputs, j as nat);
        let x = inputs[j];
        lemma_known_run_distinct(inputs, j as nat);
        lemma_known_after(prev, x.1, x.2, x.0);
        lemma_known_ips_after_scan(pairs_map(prev), x.1, x.2, x.0);
        assert(known_run(inputs, (j + 1) as nat) == known_after(prev, x.1, x.2, x.0));
    }
    assert forall|i: int, j: int| 0 <= i <= j < ks.len() implies #[trigger] ks[i].subset_of(#[trigger] ks[j]) by {
        lemma_subsets_chain(ks, i, j);
    }
}

proof fn lemma_subsets_chain(ks: Seq<Set<Seq<char>>>, i: int, j: int)
    requires
        0 <= i <= j < ks.len(),
        forall|k: int| 0 < k < ks.len() ==> ks[k - 1].subset_of(#[trigger] ks[k]),
    ensures
        ks[i].subset_of(ks[j]),
    decreases j - i,
{
    if i < j {
        lemma_subsets_chain(ks, i, j - 1);
        assert(ks[j - 1].subset_of(ks[j]));
    }
}


/// A scan attributes an IP to the roster row that its ARP pair in the subnet
/// names by normalized MAC, whatever the IP was attributed to before: the
/// last pair of the IP whose normalized MAC is on the roster decides.
pub proof fn lemma_scan_overwrites_user(
    known: Map<Seq<char>, UserView>,
    arp: Seq<(Seq<char>, Seq<char>)>,
    csv: Map<Seq<char>, UserView>,
    prefix: Seq<char>,
    j: int,
)
    requires
        0 <= j < arp.len(),
        in_subnet(arp[j].0, prefix),
        csv.dom().contains(normalized_mac(arp[j].1)),
        forall|k: int| j < k < arp.len() ==> #[trigger] arp[k].0 != arp[j].0,
    ensures
        known_map_after(known, arp, csv, prefix).dom().contains(arp[j].0),
        known_map_after(known, arp, csv, prefix)[arp[j].0] == csv[normalized_mac(arp[j].1)],
    decreases arp.len(),
{
    if j < arp.len() - 1 {
        let prev = arp.drop_last();
        assert forall|k: int| j < k < prev.len() implies #[trigger] prev[k].0 != prev[j].0 by {
            assert(prev[k] == arp[k]);
        }
        assert(prev[j] == arp[j]);
        lemma_scan_overwrites_user(known, prev, csv, prefix, j);
        assert(arp[arp.len() - 1].0 != arp[j].0);
    }
}


/// Whether `ip` is among `active`.
fn is_active(active: &[String], ip: &str) -> (b: bool)
    ensures
        b == active_set(active@).contains(ip@),
        b <==> exists|i: int| 0 <= i < active@.len() && active@[i]@ == ip@,
{
    let mut i: usize = 0;
    while i < active.len()
        invariant
            i <= active@.len(),
            forall|k: int| 0 <= k < i ==> active@[k]@ != ip@,
        decreases active@.len() - i,
    {
        if str_eq(active[i].as_str(), ip) {
            return true;
        }
        i = i + 1;
    }
    false
}

/// Which IPs belong to which roster users, and for how many scans in a row
/// each has not answered.
pub struct PresenceTracker {
    known_ip_to_user: StrTable<CsvUserEntry>,
    fail_counts: StrTable<u32>,
    scans: Ghost<Seq<ScanInput>>,
}

impl PresenceTracker {
    /// Well-formedness: both tables hold each key once, and they are what
    /// the scans taken in so far leave (see [`PresenceTracker::follows_scans`]).
    pub open spec fn wf(&self) -> bool {
        self.known().wf() && self.fails().wf() && self.follows_scans()
    }

    /// The scans taken in since the tracker was made, in order.
    pub closed spec fn scans(&self) -> Seq<ScanInput> {
        self.scans@
    }

    /// The known pairs are [`known_run`] of the scans taken in, and the
    /// failure counts [`fails_run`] of the known IPs and answers of each.
    pub closed spec fn follows_scans(&self) -> bool {
        &&& self.known_ip_to_user.pairs() == known_run(self.scans@, self.scans@.len())
        &&& self.fail_counts.map() == fails_run(
            known_sets(self.scans@),
            answer_sets(self.scans@),
            self.scans@.len(),
        )
    }

    /// The known pairs and failure counts of a well-formed tracker are those
    /// that its scans give.
    pub proof fn lemma_tracker_follows_scans(&self)
        requires
            self.wf(),
        ensures
            self.known().pairs() == known_run(self.scans(), self.scans().len()),
            self.fails().map() == fails_run(
                known_sets(self.scans()),
                answer_sets(self.scans()),
                self.scans().len(),
            ),
    {
    }

    /// The known IP-to-user table.
    pub closed spec fn known(&self) -> StrTable<CsvUserEntry> {
        self.known_ip_to_user
    }

    /// The failure count table.
    pub closed spec fn fails(&self) -> StrTable<u32> {
        self.fail_counts
    }

    /// A tracker that knows no IP.
    pub fn new() -> (t: Self)
        ensures
            t.wf(),
            t.known().pairs() == Seq::<(Seq<char>, UserView)>::empty(),
            t.fails().pairs() == Seq::<(Seq<char>, u32)>::empty(),
            t.scans() == Seq::<ScanInput>::empty(),
    {
        let t = PresenceTracker {
            known_ip_to_user: StrTable::new(),
            fail_counts: StrTable::new(),
            scans: Ghost(Seq::empty()),
        };
        assert(t.fail_counts.map() =~= Map::<Seq<char>, u32>::empty());
        t
    }

    /// The IP-to-user table.
    pub fn known_ip_to_user(&self) -> (t: &StrTable<CsvUserEntry>)
        ensures
            *t == self.known(),
    {
        &self.known_ip_to_user
    }

    /// The failure counts.
    pub fn fail_counts(&self) -> (t: &StrTable<u32>)
        ensures
            *t == self.fails(),
    {
        &self.fail_counts
    }

    /// Takes in one scan: the ARP table, the roster, and the IPs that
    /// answered. Every ARP pair in the subnet whose normalized MAC is on the
    /// roster makes its IP known as that user; then every known IP's failure
    /// count is reset if it answered and raised by one if not.
    pub fn observe(
        &mut self,
        subnet_prefix: &str,
        ip_mac_map: &StrTable<String>,
        csv_mapping: &StrTable<CsvUserEntry>,
        active_ips: &[String],
    )
        requires
            old(self).wf(),
            ip_mac_map.wf(),
            csv_mapping.wf(),
            forall|ip: Seq<char>| #[trigger]
                known_map_after(
                    old(self).known().map(),
                    ip_mac_map.pairs(),
                    csv_mapping.map(),
                    subnet_prefix@,
                ).dom().contains(ip) && !active_set(active_ips@).contains(ip) ==> fail_count_of(
                    old(self).fails().map(),
                    ip,
                    OFFLINE_FAIL_THRESHOLD,
                ) < u32::MAX,
        ensures
            final(self).wf(),
            final(self).known().pairs() == known_after(
                old(self).known().pairs(),
                ip_mac_map.pairs(),
                csv_mapping.map(),
                subnet_prefix@,
            ),
            final(self).fails().map() == fails_after(
                old(self).fails().map(),
                final(self).known().map().dom(),
                active_set(active_ips@),
            ),
            final(self).scans() == old(self).scans().push(
                (subnet_prefix@, ip_mac_map.pairs(), csv_mapping.map(), active_set(active_ips@)),
            ),
            forall|j: int|
                0 <= j < ip_mac_map.pairs().len() && in_subnet(#[trigger] ip_mac_map.pairs()[j].0, subnet_prefix@)
                    && csv_mapping.map().dom().contains(normalized_mac(ip_mac_map.pairs()[j].1)) ==> {
                    &&& final(self).known().map().dom().contains(ip_mac_map.pairs()[j].0)
                    &&& final(self).known().map()[ip_mac_map.pairs()[j].0] == csv_mapping.map()[normalized_mac(
                        ip_mac_map.pairs()[j].1,
                    )]
                },
            forall|ip: Seq<char>| #[trigger]
                final(self).known().map().dom().contains(ip) ==> (final(self).fails().map()[ip] == 0 <==> exists|i: int|
                    0 <= i < active_ips@.len() && active_ips@[i]@ == ip),
    {
        let ghost old_scans = self.scans@;
        let ghost k0 = self.known_ip_to_user.pairs();
        let ghost f0 = self.fail_counts.map();
        let ghost arp = ip_mac_map.pairs();
        let ghost csv = csv_mapping.map();
        let ghost prefix = subnet_prefix@;
        let n = ip_mac_map.len();
        let mut i: usize = 0;
        assert(arp.take(0) =~= Seq::<(Seq<char>, Seq<char>)>::empty());
        while i < n
            invariant
                n == arp.len(),
                arp == ip_mac_map.pairs(),
                csv == csv_mapping.map(),
                csv_mapping.wf(),
                prefix == subnet_prefix@,
                i <= n,
                self.known_ip_to_user.wf(),
                self.fail_counts.wf(),
                self.known_ip_to_user.pairs() == known_after(k0, arp.take(i as int), csv, prefix),
                self.fail_counts.map() == seeded_fails(f0, arp.take(i as int), csv, prefix),
            decreases n - i,
        {
            let (ip, mac) = ip_mac_map.entry(i);
            let ghost next = arp.take(i + 1);
            assert(next.drop_last() =~= arp.take(i as int));
            assert(next.last() == (ip@, mac@));
            if ip_in_subnet(ip.as_str(), subnet_prefix) {
                let nm = normalize_mac(mac.as_str());
                match csv_mapping.get(nm.as_str()) {
                    Some(user) => {
                        self.known_ip_to_user.insert(ip.clone(), user.clone());
                        self.fail_counts.insert_if_absent(ip.clone(), OFFLINE_FAIL_THRESHOLD);
                    },
                    None => {},
                }
            }
            i = i + 1;
        }
        assert(arp.take(n as int) =~= arp);
        let ghost k1 = self.known_ip_to_user.pairs();
        let ghost f1 = self.fail_counts.map();
        let ghost active = active_set(active_ips@);
        proof {
            lemma_known_after(k0, arp, csv, prefix);
            lemma_seeded_fails(pairs_map(k0), f0, arp, csv, prefix);
            lemma_pairs_map_dom(k1);
            assert(f1 == seeded_fails(f0, arp, csv, prefix));
            assert forall|ip: Seq<char>| #[trigger]
                pairs_map(k1).dom().contains(ip) && !active.contains(ip) implies fail_count_of(
                    f1,
                    ip,
                    OFFLINE_FAIL_THRESHOLD,
                ) < u32::MAX by {
                assert(fail_count_of(f1, ip, OFFLINE_FAIL_THRESHOLD) == fail_count_of(f0, ip, OFFLINE_FAIL_THRESHOLD));
                assert(pairs_map(k1) == known_map_after(pairs_map(k0), arp, csv, prefix));
                assert(old(self).known().map() == pairs_map(k0));
                assert(f0 == old(self).fails().map());
            }
        }
        let kn = self.known_ip_to_user.len();
        let mut k: usize = 0;
        while k < kn
            invariant
                kn == k1.len(),
                k1 == self.known_ip_to_user.pairs(),
                self.known_ip_to_user.wf(),
                self.fail_counts.wf(),
                active == active_set(active_ips@),
                k <= kn,
                forall|ip: Seq<char>| #[trigger]
                    pairs_map(k1).dom().contains(ip) && !active.contains(ip) ==> fail_count_of(
                        f1,
                        ip,
                        OFFLINE_FAIL_THRESHOLD,
                    ) < u32::MAX,
                forall|ip: Seq<char>| #[trigger]
                    pairs_map(k1).dom().contains(ip) <==> exists|t: int|
                        0 <= t < k1.len() && k1[t].0 == ip,
                self.fail_counts.map() == Map::new(
                    |ip: Seq<char>|
                        f1.dom().contains(ip) || among_first(k1, k as int, ip),
                    |ip: Seq<char>|
                        if among_first(k1, k as int, ip) {
                            next_fail_count(f1, ip, active.contains(ip))
                        } else {
                            f1[ip]
                        },
                ),
            decreases kn - k,
        {
            let (ip, _) = self.known_ip_to_user.entry(k);
            let ip_owned = ip.clone();
            let ghost ipv = ip@;
            proof {
                assert(k1[k as int].0 == ipv);
                assert forall|t: int| 0 <= t < k implies k1[t].0 != ipv by {
                    assert(distinct_keys(k1));
                }
                assert(pairs_map(k1).dom().contains(ipv));
            }
            let answered = is_active(active_ips, ip_owned.as_str());
            if answered {
                self.fail_counts.insert(ip_owned, 0);
            } else {
                let c: u32 = match self.fail_counts.get(ip_owned.as_str()) {
                    Some(c) => *c,
                    None => OFFLINE_FAIL_THRESHOLD,
                };
                assert(c == fail_count_of(f1, ipv, OFFLINE_FAIL_THRESHOLD));
                self.fail_counts.insert(ip_owned, c + 1);
            }
            k = k + 1;
            proof {
                assert(self.fail_counts.map() =~= Map::new(
                    |ip: Seq<char>|
                        f1.dom().contains(ip) || among_first(k1, k as int, ip),
                    |ip: Seq<char>|
                        if among_first(k1, k as int, ip) {
                            next_fail_count(f1, ip, active.contains(ip))
                        } else {
                            f1[ip]
                        },
                )) by {
                    assert forall|x: Seq<char>| #[trigger] among_first(k1, k as int, x) <==> (
                        among_first(k1, k - 1, x) || x == ipv) by {
                        if x == ipv {
                            assert(k1[k - 1].0 == x);
                        }
                        if among_first(k1, k as int, x) && x != ipv {
                            let t = choose|t: int| 0 <= t < k && k1[t].0 == x;
                            assert(t < k - 1);
                        }
                    }
                }
            }
        }
        proof {
            let kd = self.known_ip_to_user.map().dom();
            assert(self.fail_counts.map() =~= fails_after(f0, kd, active)) by {
                assert forall|x: Seq<char>| #[trigger] kd.contains(x) <==> among_first(k1, k as int, x) by {}
                assert forall|x: Seq<char>| #[trigger] kd.contains(x) implies next_fail_count(f1, x, active.contains(x))
                    == next_fail_count(f0, x, active.contains(x)) by {
                    assert(fail_count_of(f1, x, OFFLINE_FAIL_THRESHOLD) == fail_count_of(f0, x, OFFLINE_FAIL_THRESHOLD));
                }
                assert forall|x: Seq<char>| f1.dom().contains(x) && !kd.contains(x) implies f0.dom().contains(x) && f1[x] == f0[x] by {
                    assert(fail_count_of(f1, x, OFFLINE_FAIL_THRESHOLD) == fail_count_of(f0, x, OFFLINE_FAIL_THRESHOLD));
                }
            }
        }
        proof {
            let kd = self.known_ip_to_user.map().dom();
            assert(self.known_ip_to_user.map() == known_map_after(pairs_map(k0), arp, csv, prefix));
            assert forall|j: int|
                0 <= j < arp.len() && in_subnet(#[trigger] arp[j].0, prefix) && csv.dom().contains(
                    normalized_mac(arp[j].1),
                ) implies {
                &&& self.known_ip_to_user.map().dom().contains(arp[j].0)
                &&& self.known_ip_to_user.map()[arp[j].0] == csv[normalized_mac(arp[j].1)]
            } by {
                assert forall|k: int| j < k < arp.len() implies #[trigger] arp[k].0 != arp[j].0 by {
                    assert(distinct_keys(arp));
                }
                lemma_scan_overwrites_user(pairs_map(k0), arp, csv, prefix, j);
            }
            assert forall|ip: Seq<char>| #[trigger] kd.contains(ip) implies (self.fail_counts.map()[ip] == 0
                <==> exists|i: int| 0 <= i < active_ips@.len() && active_ips@[i]@ == ip) by {
                if !active.contains(ip) {
                    assert(fail_count_of(f0, ip, OFFLINE_FAIL_THRESHOLD) < u32::MAX);
                }
            }
        }
        let ghost x: ScanInput = (prefix, arp, csv, active);
        let ghost nx = old_scans.push(x);
        proof {
            let n = old_scans.len();
            lemma_known_run_prefix(old_scans, x, n);
            assert(nx[n as int] == x);
            assert(known_run(nx, n + 1) == known_after(known_run(old_scans, n), arp, csv, prefix));
            let kd = self.known_ip_to_user.map().dom();
            assert(known_sets(nx) =~= known_sets(old_scans).push(kd)) by {
                assert forall|j: int| 0 <= j < n implies known_sets(nx)[j] == known_sets(old_scans)[j] by {
                    lemma_known_run_prefix(old_scans, x, (j + 1) as nat);
                }
            }
            assert(answer_sets(nx) =~= answer_sets(old_scans).push(active));
            lemma_fails_run_step(known_sets(old_scans), answer_sets(old_scans), kd, active);
        }
        self.scans = Ghost(nx);
    }

    /// Whether taking in the scan would raise a failure count past
    /// `u32::MAX`: exactly when [`observe`](PresenceTracker::observe) may not
    /// be called with these arguments.
    pub fn scan_would_overflow(
        &self,
        subnet_prefix: &str,
        ip_mac_map: &StrTable<String>,
        csv_mapping: &StrTable<CsvUserEntry>,
        active_ips: &[String],
    ) -> (b: bool)
        requires
            self.wf(),
            ip_mac_map.wf(),
            csv_mapping.wf(),
        ensures
            !b <==> forall|ip: Seq<char>| #[trigger]
                known_map_after(
                    self.known().map(),
                    ip_mac_map.pairs(),
                    csv_mapping.map(),
                    subnet_prefix@,
                ).dom().contains(ip) && !active_set(active_ips@).contains(ip) ==> fail_count_of(
                    self.fails().map(),
                    ip,
                    OFFLINE_FAIL_THRESHOLD,
                ) < u32::MAX,
    {
        let ghost arp = ip_mac_map.pairs();
        let ghost csv = csv_mapping.map();
        let ghost km = known_map_after(self.known().map(), arp, csv, subnet_prefix@);
        let ghost fp = self.fail_counts.pairs();
        proof {
            lemma_known_map_after_dom(self.known().map(), arp, csv, subnet_prefix@);
            lemma_pairs_map_dom(fp);
            lemma_pairs_map_dom(self.known_ip_to_user.pairs());
        }
        let n = self.fail_counts.len();
        let mut i: usize = 0;
        while i < n
            invariant
                n == fp.len(),
                fp == self.fail_counts.pairs(),
                self.wf(),
                ip_mac_map.wf(),
                csv_mapping.wf(),
                arp == ip_mac_map.pairs(),
                csv == csv_mapping.map(),
                km == known_map_after(self.known().map(), arp, csv, subnet_prefix@),
                i <= n,
                forall|t: int| 0 <= t < i ==> {
                    let ip = #[trigger] fp[t].0;
                    !(km.dom().contains(ip) && !active_set(active_ips@).contains(ip) && fp[t].1 == u32::MAX)
                },
            decreases n - i,
        {
            let (ip, count) = self.fail_counts.entry(i);
            proof {
                lemma_known_map_after_dom(self.known().map(), arp, csv, subnet_prefix@);
                lemma_pairs_map_dom(self.known_ip_to_user.pairs());
            }
            if *count == u32::MAX && !is_active(active_ips, ip.as_str()) {
                let mut matched = self.known_ip_to_user.get(ip.as_str()).is_some();
                let m = ip_mac_map.len();
                let mut j: usize = 0;
                while j < m && !matched
                    invariant
                        m == arp.len(),
                        arp == ip_mac_map.pairs(),
                        csv == csv_mapping.map(),
                        csv_mapping.wf(),
                        j <= m,
                        !matched ==> forall|q: int| 0 <= q < j ==> !(#[trigger] arp[q].0 == ip@ && matched_user(arp[q].0, arp[q].1, csv, subnet_prefix@) is Some),
                        matched ==> km.dom().contains(ip@),
                        self.wf(),
                        km == known_map_after(self.known().map(), arp, csv, subnet_prefix@),
                        forall|x: Seq<char>| #[trigger] km.dom().contains(x) <==> (self.known().map().dom().contains(x)
                            || matched_among(arp, arp.len() as int, x, csv, subnet_prefix@)),
                        (matched <==> (self.known().map().dom().contains(ip@) || matched_among(arp, j as int, ip@, csv, subnet_prefix@))),
                    decreases m - j,
                {
                    let (aip, amac) = ip_mac_map.entry(j);
                    if crate::text::str_eq(aip.as_str(), ip.as_str()) && ip_in_subnet(aip.as_str(), subnet_prefix) {
                        let nm = normalize_mac(amac.as_str());
                        if csv_mapping.get(nm.as_str()).is_some() {
                            matched = true;
                        }
                    }
                    j = j + 1;
                }
                if matched {
                    proof {
                        lemma_pairs_map_index(fp, i as int);
                    }
                    return true;
                }
            }
            i = i + 1;
        }
        proof {
            assert forall|ip: Seq<char>| #[trigger] km.dom().contains(ip) && !active_set(active_ips@).contains(ip) implies fail_count_of(
                self.fails().map(),
                ip,
                OFFLINE_FAIL_THRESHOLD,
            ) < u32::MAX by {
                if self.fails().map().dom().contains(ip) {
                    let t = choose|t: int| 0 <= t < fp.len() && fp[t].0 == ip;
                    lemma_pairs_map_index(fp, t);
                }
            }
        }
        false
    }

    /// Takes in the scan as [`observe`](PresenceTracker::observe) does where
    /// no failure count would pass `u32::MAX`, and says so; leaves the
    /// tracker unchanged and answers `false` where one would.
    pub fn observe_checked(
        &mut self,
        subnet_prefix: &str,
        ip_mac_map: &StrTable<String>,
        csv_mapping: &StrTable<CsvUserEntry>,
        active_ips: &[String],
    ) -> (done: bool)
        requires
            old(self).wf(),
            ip_mac_map.wf(),
            csv_mapping.wf(),
        ensures
            final(self).wf(),
            done <==> forall|ip: Seq<char>| #[trigger]
                known_map_after(
                    old(self).known().map(),
                    ip_mac_map.pairs(),
                    csv_mapping.map(),
                    subnet_prefix@,
                ).dom().contains(ip) && !active_set(active_ips@).contains(ip) ==> fail_count_of(
                    old(self).fails().map(),
                    ip,
                    OFFLINE_FAIL_THRESHOLD,
                ) < u32::MAX,
            done ==> final(self).known().pairs() == known_after(
                old(self).known().pairs(),
                ip_mac_map.pairs(),
                csv_mapping.map(),
                subnet_prefix@,
            ),
            done ==> final(self).fails().map() == fails_after(
                old(self).fails().map(),
                final(self).known().map().dom(),
                active_set(active_ips@),
            ),
            !done ==> *final(self) == *old(self),
            done ==> forall|j: int|
                0 <= j < ip_mac_map.pairs().len() && in_subnet(#[trigger] ip_mac_map.pairs()[j].0, subnet_prefix@)
                    && csv_mapping.map().dom().contains(normalized_mac(ip_mac_map.pairs()[j].1)) ==> {
                    &&& final(self).known().map().dom().contains(ip_mac_map.pairs()[j].0)
                    &&& final(self).known().map()[ip_mac_map.pairs()[j].0] == csv_mapping.map()[normalized_mac(
                        ip_mac_map.pairs()[j].1,
                    )]
                },
            done ==> forall|ip: Seq<char>| #[trigger]
                final(self).known().map().dom().contains(ip) ==> (final(self).fails().map()[ip] == 0 <==> exists|i: int|
                    0 <= i < active_ips@.len() && active_ips@[i]@ == ip),
    {
        if self.scan_would_overflow(subnet_prefix, ip_mac_map, csv_mapping, active_ips) {
            false
        } else {
            self.observe(subnet_prefix, ip_mac_map, csv_mapping, active_ips);
            true
        }
    }

    /// Over the scans a well-formed tracker has taken in (at most
    /// `u32::MAX - 4` of them), an IP it knows counts as online (fewer than
    /// [`OFFLINE_FAIL_THRESHOLD`] failures in a row) exactly when it was
    /// known and answered in one of the last three scans. So a newly known IP
    /// that does not answer starts offline, and an IP turns offline on the
    /// third scan in a row that it does not answer.
    pub proof fn lemma_online_iff_answered_recently(&self, ip: Seq<char>)
        requires
            self.wf(),
            self.scans().len() + 4 <= u32::MAX,
            self.known().map().dom().contains(ip),
        ensures
            fail_count_of(self.fails().map(), ip, OFFLINE_FAIL_THRESHOLD) < OFFLINE_FAIL_THRESHOLD
                <==> exists|j: int|
                0 <= j < self.scans().len() && j >= self.scans().len() - 3 && #[trigger] known_sets(
                    self.scans(),
                )[j].contains(ip) && self.scans()[j].3.contains(ip),
    {
        let inputs = self.scans@;
        let n = inputs.len();
        if n == 0 {
            assert(self.known_ip_to_user.pairs() =~= Seq::<(Seq<char>, UserView)>::empty());
            lemma_pairs_map_dom(self.known_ip_to_user.pairs());
        } else {
            lemma_known_sets_grow(inputs);
            assert(known_sets(inputs)[n - 1] == self.known().map().dom());
            lemma_online_iff_answered_in_last_three_scans(known_sets(inputs), answer_sets(inputs), n, ip);
            assert forall|j: int| 0 <= j < n implies #[trigger] answer_sets(inputs)[j] == inputs[j].3 by {}
        }
    }

    /// The per-grade head counts that the tracker's state gives for the
    /// roster users `csv_users`: users are online when one of their known
    /// IPs has failed fewer than [`OFFLINE_FAIL_THRESHOLD`] scans in a row.
    pub fn snapshot(&self, csv_users: &StrTable<Option<String>>) -> (snap: NetworkUsersSnapshot)
        requires
            self.wf(),
            csv_users.wf(),
        ensures
            exists|ps: Seq<(Option<Seq<char>>, Seq<char>)>|
                #![trigger grade_counts_of(snap.grade_counts@, ps)]
                {
                    &&& is_presence_list(
                        ps,
                        presence_map(
                            csv_users.map(),
                            self.known().pairs(),
                            self.fails().map(),
                            OFFLINE_FAIL_THRESHOLD,
                        ),
                    )
                    &&& grade_counts_of(snap.grade_counts@, ps)
                },
    {
        let presence = build_user_presence(
            &self.known_ip_to_user,
            &self.fail_counts,
            csv_users,
            OFFLINE_FAIL_THRESHOLD,
        );
        let grade_counts = build_grade_counts(&presence);
        let snap = NetworkUsersSnapshot { grade_counts };
        assert(is_presence_list(
            presence_views(presence@),
            presence_map(csv_users.map(), self.known().pairs(), self.fails().map(), OFFLINE_FAIL_THRESHOLD),
        ) && grade_counts_of(snap.grade_counts@, presence_views(presence@)));
        snap
    }
}

/// The failure counts after `k` scans in which none of the IPs answered and
/// the known IPs stayed `known`.
pub open spec fn after_silent_scans(
    fails: Map<Seq<char>, u32>,
    known: Set<Seq<char>>,
    k: nat,
) -> Map<Seq<char>, u32>
    decreases k,
{
    if k == 0 {
        fails
    } else {
        fails_after(after_silent_scans(fails, known, (k - 1) as nat), known, Set::empty())
    }
}

/// Each scan a known IP does not answer raises its failure count by one.
pub proof fn lemma_silent_scans_count(
    fails: Map<Seq<char>, u32>,
    known: Set<Seq<char>>,
    ip: Seq<char>,
    k: nat,
)
    requires
        known.contains(ip),
        fail_count_of(fails, ip, OFFLINE_FAIL_THRESHOLD) + k <= u32::MAX,
    ensures
        after_silent_scans(fails, known, k).dom().contains(ip) || k == 0,
        fail_count_of(after_silent_scans(fails, known, k), ip, OFFLINE_FAIL_THRESHOLD) == fail_count_of(
            fails,
            ip,
            OFFLINE_FAIL_THRESHOLD,
        ) + k,
    decreases k,
{
    if k > 0 {
        lemma_silent_scans_count(fails, known, ip, (k - 1) as nat);
    }
}

/// A known IP that answers a scan gets a failure count of zero, so its user
/// counts as online; after that it stays online through two scans it does
/// not answer and counts as offline from the third.
pub proof fn lemma_offline_from_third_silent_scan(
    fails: Map<Seq<char>, u32>,
    known: Set<Seq<char>>,
    active: Set<Seq<char>>,
    ip: Seq<char>,
    k: nat,
)
    requires
        known.contains(ip),
        active.contains(ip),
        k <= u32::MAX,
    ensures
        fails_after(fails, known, active)[ip] == 0,
        fail_count_of(
            after_silent_scans(fails_after(fails, known, active), known, k),
            ip,
            OFFLINE_FAIL_THRESHOLD,
        ) == k,
        (fail_count_of(
            after_silent_scans(fails_after(fails, known, active), known, k),
            ip,
            OFFLINE_FAIL_THRESHOLD,
        ) < OFFLINE_FAIL_THRESHOLD) <==> k < 3,
{
    let f1 = fails_after(fails, known, active);
    assert(fail_count_of(f1, ip, OFFLINE_FAIL_THRESHOLD) == 0);
    lemma_silent_scans_count(f1, known, ip, k);
}

/// The failure counts after the first `n` scans of a run that starts with
/// none, where after scan `j` the known IPs are `ks[j]` and the IPs that
/// answered it are `acts[j]`.
pub open spec fn fails_run(ks: Seq<Set<Seq<char>>>, acts: Seq<Set<Seq<char>>>, n: nat) -> Map<Seq<char>, u32>
    decreases n,
{
    if n == 0 {
        Map::empty()
    } else {
        fails_after(fails_run(ks, acts, (n - 1) as nat), ks[n - 1], acts[n - 1])
    }
}

/// The last of the first `n` scans in which `ip` was known and answered;
/// -1 where there is none.
pub open spec fn last_answer(ks: Seq<Set<Seq<char>>>, acts: Seq<Set<Seq<char>>>, n: nat, ip: Seq<char>) -> int
    decreases n,
{
    if n == 0 {
        -1
    } else if ks[n - 1].contains(ip) && acts[n - 1].contains(ip) {
        n - 1
    } else {
        last_answer(ks, acts, (n - 1) as nat, ip)
    }
}

/// The known IPs never shrink from one scan to a later one.
pub open spec fn known_grows(ks: Seq<Set<Seq<char>>>) -> bool {
    forall|i: int, j: int| 0 <= i <= j < ks.len() ==> #[trigger] ks[i].subset_of(#[trigger] ks[j])
}

proof fn lemma_last_answer(ks: Seq<Set<Seq<char>>>, acts: Seq<Set<Seq<char>>>, n: nat, ip: Seq<char>)
    requires
        n <= ks.len(),
        n <= acts.len(),
    ensures
        -1 <= last_answer(ks, acts, n, ip) < n,
        last_answer(ks, acts, n, ip) >= 0 ==> ks[last_answer(ks, acts, n, ip)].contains(ip) && acts[last_answer(
            ks,
            acts,
            n,
            ip,
        )].contains(ip),
        forall|j: int|
            0 <= j < n && #[trigger] ks[j].contains(ip) && acts[j].contains(ip) ==> j <= last_answer(ks, acts, n, ip),
    decreases n,
{
    if n > 0 {
        lemma_last_answer(ks, acts, (n - 1) as nat, ip);
    }
}

proof fn lemma_fails_run(ks: Seq<Set<Seq<char>>>, acts: Seq<Set<Seq<char>>>, n: nat)
    requires
        n <= ks.len(),
        n <= acts.len(),
        known_grows(ks),
        n + 4 <= u32::MAX,
    ensures
        forall|ip: Seq<char>| #[trigger]
            fails_run(ks, acts, n).dom().contains(ip) <==> exists|j: int| 0 <= j < n && ks[j].contains(ip),
        forall|ip: Seq<char>| #[trigger]
            fails_run(ks, acts, n).dom().contains(ip) ==> fails_run(ks, acts, n)[ip] <= n + 3,
        forall|ip: Seq<char>|
            n >= 1 && ks[n - 1].contains(ip) ==> {
                let f = #[trigger] fails_run(ks, acts, n)[ip];
                let la = last_answer(ks, acts, n, ip);
                &&& la >= 0 ==> f == n - 1 - la
                &&& la < 0 ==> f >= 3
            },
    decreases n,
{
    if n > 0 {
        let m = (n - 1) as nat;
        lemma_fails_run(ks, acts, m);
        let prev = fails_run(ks, acts, m);
        let cur = fails_run(ks, acts, n);
        let k = ks[n - 1];
        let a = acts[n - 1];
        assert(cur == fails_after(prev, k, a));
        assert forall|ip: Seq<char>| #[trigger] cur.dom().contains(ip) <==> exists|j: int| 0 <= j < n && ks[j].contains(ip) by {
            if exists|j: int| 0 <= j < n && ks[j].contains(ip) {
                let j = choose|j: int| 0 <= j < n && ks[j].contains(ip);
                if j < m {
                    assert(prev.dom().contains(ip));
                }
            }
            if prev.dom().contains(ip) {
                let j = choose|j: int| 0 <= j < m && ks[j].contains(ip);
                assert(0 <= j < n && ks[j].contains(ip));
            }
        }
        assert forall|ip: Seq<char>| #[trigger] cur.dom().contains(ip) implies cur[ip] <= n + 3 by {
        }
        assert forall|ip: Seq<char>| n >= 1 && ks[n - 1].contains(ip) implies {
            let f = #[trigger] fails_run(ks, acts, n)[ip];
            let la = last_answer(ks, acts, n, ip);
            &&& la >= 0 ==> f == n - 1 - la
            &&& la < 0 ==> f >= 3
        } by {
            if !a.contains(ip) {
                if m >= 1 && ks[m - 1].contains(ip) {
                    assert(prev.dom().contains(ip));
                } else {
                    assert forall|j: int| 0 <= j < m implies !ks[j].contains(ip) by {
                        if ks[j].contains(ip) {
                            assert(ks[j].subset_of(ks[m - 1]));
                        }
                    }
                    assert(!prev.dom().contains(ip));
                    lemma_last_answer(ks, acts, m, ip);
                }
            }
        }
    }
}

proof fn lemma_fails_run_prefix(
    ks: Seq<Set<Seq<char>>>,
    acts: Seq<Set<Seq<char>>>,
    k: Set<Seq<char>>,
    a: Set<Seq<char>>,
    n: nat,
)
    requires
        n <= ks.len(),
        n <= acts.len(),
    ensures
        fails_run(ks.push(k), acts.push(a), n) == fails_run(ks, acts, n),
    decreases n,
{
    if n > 0 {
        lemma_fails_run_prefix(ks, acts, k, a, (n - 1) as nat);
        assert(ks.push(k)[n - 1] == ks[n - 1]);
        assert(acts.push(a)[n - 1] == acts[n - 1]);
    }
}

/// One more scan extends a run: the failure counts after it are those that
/// [`PresenceTracker::observe`] gives from the counts before it.
pub proof fn lemma_fails_run_step(
    ks: Seq<Set<Seq<char>>>,
    acts: Seq<Set<Seq<char>>>,
    k: Set<Seq<char>>,
    a: Set<Seq<char>>,
)
    requires
        ks.len() == acts.len(),
    ensures
        fails_run(ks.push(k), acts.push(a), ks.len() + 1) == fails_after(
            fails_run(ks, acts, ks.len()),
            k,
            a,
        ),
{
    lemma_fails_run_prefix(ks, acts, k, a, ks.len());
}


/// Over a run of scans that starts with no failure counts and in which the
/// known IPs never shrink, an IP known after the last scan counts as online
/// (fewer than [`OFFLINE_FAIL_THRESHOLD`] failures in a row) exactly when it
/// was known and answered in one of the last three scans. So a newly known
/// IP that does not answer starts offline, and an IP turns offline on the
/// third scan in a row that it does not answer.
pub proof fn lemma_online_iff_answered_in_last_three_scans(
    ks: Seq<Set<Seq<char>>>,
    acts: Seq<Set<Seq<char>>>,
    n: nat,
    ip: Seq<char>,
)
    requires
        1 <= n <= ks.len(),
        n <= acts.len(),
        known_grows(ks),
        n + 4 <= u32::MAX,
        ks[n - 1].contains(ip),
    ensures
        fail_count_of(fails_run(ks, acts, n), ip, OFFLINE_FAIL_THRESHOLD) < OFFLINE_FAIL_THRESHOLD
            <==> exists|j: int| n - 3 <= j < n && 0 <= j && #[trigger] ks[j].contains(ip) && acts[j].contains(ip),
{
    lemma_fails_run(ks, acts, n);
    lemma_last_answer(ks, acts, n, ip);
    assert(fails_run(ks, acts, n).dom().contains(ip));
    let la = last_answer(ks, acts, n, ip);
    if la >= 0 && n - 1 - la < 3 {
        assert(ks[la].contains(ip) && acts[la].contains(ip));
    }
}

/// The ARP pairs of `arp` whose IP lies in the subnet `prefix`, in order.
pub open spec fn subnet_part(arp: Seq<(Seq<char>, Seq<char>)>, prefix: Seq<char>) -> Seq<(Seq<char>, Seq<char>)> {
    arp.filter(|e: (Seq<char>, Seq<char>)| in_subnet(e.0, prefix))
}

/// ARP pairs whose IP lies outside the scanned subnet change nothing: the
/// known users after a scan, and the IPs probed, are those of the subnet's
/// pairs alone, and every probed IP lies in the subnet.
pub proof fn lemma_scan_ignores_outside_subnet(
    known: Seq<(Seq<char>, UserView)>,
    arp: Seq<(Seq<char>, Seq<char>)>,
    csv: Map<Seq<char>, UserView>,
    prefix: Seq<char>,
)
    ensures
        known_after(known, arp, csv, prefix) == known_after(known, subnet_part(arp, prefix), csv, prefix),
        subnet_keys(arp, prefix) == subnet_keys(subnet_part(arp, prefix), prefix),
        forall|i: int|
            0 <= i < subnet_keys(arp, prefix).len() ==> in_subnet(#[trigger] subnet_keys(arp, prefix)[i], prefix),
    decreases arp.len(),
{
    reveal(Seq::filter);
    let pred = |e: (Seq<char>, Seq<char>)| in_subnet(e.0, prefix);
    if arp.len() > 0 {
        lemma_scan_ignores_outside_subnet(known, arp.drop_last(), csv, prefix);
        let f = arp.filter(pred);
        let fp = arp.drop_last().filter(pred);
        assert(subnet_part(arp, prefix) == f);
        assert(subnet_part(arp.drop_last(), prefix) == fp);
        if pred(arp.last()) {
            assert(f == fp.push(arp.last()));
            assert(f.drop_last() =~= fp);
        } else {
            assert(f == fp);
        }
        let sk = subnet_keys(arp, prefix);
        let skp = subnet_keys(arp.drop_last(), prefix);
        assert forall|i: int| 0 <= i < sk.len() implies in_subnet(#[trigger] sk[i], prefix) by {
            if i < skp.len() {
                assert(sk[i] == skp[i]);
            }
        }
    }
}

/// Two runs of scans that differ at most in ARP pairs outside the scanned
/// subnet: scan by scan the same prefix, roster and answers, and the same
/// ARP pairs in the subnet.
pub open spec fn same_but_outside_subnet(a: Seq<ScanInput>, b: Seq<ScanInput>) -> bool {
    &&& a.len() == b.len()
    &&& forall|j: int|
        0 <= j < a.len() ==> {
            &&& (#[trigger] a[j]).0 == b[j].0
            &&& a[j].2 == b[j].2
            &&& a[j].3 == b[j].3
            &&& subnet_part(a[j].1, a[j].0) == subnet_part(b[j].1, b[j].0)
        }
}

proof fn lemma_known_runs_agree(a: Seq<ScanInput>, b: Seq<ScanInput>, n: nat)
    requires
        same_but_outside_subnet(a, b),
        n <= a.len(),
    ensures
        known_run(a, n) == known_run(b, n),
    decreases n,
{
    if n > 0 {
        lemma_known_runs_agree(a, b, (n - 1) as nat);
        let k = known_run(a, (n - 1) as nat);
        let x = a[n - 1];
        let y = b[n - 1];
        lemma_scan_ignores_outside_subnet(k, x.1, x.2, x.0);
        lemma_scan_ignores_outside_subnet(k, y.1, y.2, y.0);
    }
}

/// Two runs that differ at most in ARP pairs outside the subnet leave the
/// same known pairs and failure counts after every scan, and probe the same
/// IPs in every scan, all of them in the subnet. Trackers that took them in
/// therefore give the same snapshots (see [`lemma_snapshot_determined`]).
pub proof fn lemma_runs_ignore_outside_subnet(a: Seq<ScanInput>, b: Seq<ScanInput>)
    requires
        same_but_outside_subnet(a, b),
    ensures
        forall|n: nat| n <= a.len() ==> #[trigger] known_run(a, n) == known_run(b, n),
        known_sets(a) == known_sets(b),
        answer_sets(a) == answer_sets(b),
        forall|n: nat|
            n <= a.len() ==> #[trigger] fails_run(known_sets(a), answer_sets(a), n) == fails_run(
                known_sets(b),
                answer_sets(b),
                n,
            ),
        forall|j: int|
            0 <= j < a.len() ==> #[trigger] subnet_keys(a[j].1, a[j].0) == subnet_keys(b[j].1, b[j].0),
{
    assert forall|n: nat| n <= a.len() implies #[trigger] known_run(a, n) == known_run(b, n) by {
        lemma_known_runs_agree(a, b, n);
    }
    assert(known_sets(a) =~= known_sets(b)) by {
        assert forall|j: int| 0 <= j < a.len() implies known_sets(a)[j] == known_sets(b)[j] by {
            lemma_known_runs_agree(a, b, (j + 1) as nat);
        }
    }
    assert(answer_sets(a) =~= answer_sets(b));
    assert forall|j: int| 0 <= j < a.len() implies #[trigger] subnet_keys(a[j].1, a[j].0) == subnet_keys(
        b[j].1,
        b[j].0,
    ) by {
        lemma_scan_ignores_outside_subnet(Seq::empty(), a[j].1, a[j].2, a[j].0);
        lemma_scan_ignores_outside_subnet(Seq::empty(), b[j].1, b[j].2, b[j].0);
    }
}

impl PresenceTracker {
    /// Trackers whose scans differ at most in ARP pairs outside the subnet
    /// know the same IP-to-user pairs and hold the same failure counts.
    pub proof fn lemma_trackers_agree(t1: &PresenceTracker, t2: &PresenceTracker)
        requires
            t1.wf(),
            t2.wf(),
            same_but_outside_subnet(t1.scans(), t2.scans()),
        ensures
            t1.known().pairs() == t2.known().pairs(),
            t1.fails().map() == t2.fails().map(),
    {
        lemma_runs_ignore_outside_subnet(t1.scans(), t2.scans());
        assert(known_run(t1.scans(), t1.scans().len()) == known_run(t2.scans(), t2.scans().len()));
        assert(fails_run(known_sets(t1.scans()), answer_sets(t1.scans()), t1.scans().len()) == fails_run(
            known_sets(t2.scans()),
            answer_sets(t2.scans()),
            t2.scans().len(),
        ));
    }
}

/// The grade counts of a snapshot are fixed by the tracker's known pairs and
/// failure counts and by the roster users: two snapshots taken of equal
/// states are equal.
pub proof fn lemma_snapshot_determined(
    csv_users: Map<Seq<char>, Option<Seq<char>>>,
    known: Seq<(Seq<char>, UserView)>,
    fails: Map<Seq<char>, u32>,
    ps1: Seq<(Option<Seq<char>>, Seq<char>)>,
    ps2: Seq<(Option<Seq<char>>, Seq<char>)>,
    r1: Seq<NetworkGradeCount>,
    r2: Seq<NetworkGradeCount>,
)
    requires
        is_presence_list(ps1, presence_map(csv_users, known, fails, OFFLINE_FAIL_THRESHOLD)),
        is_presence_list(ps2, presence_map(csv_users, known, fails, OFFLINE_FAIL_THRESHOLD)),
        grade_counts_of(r1, ps1),
        grade_counts_of(r2, ps2),
    ensures
        r1.map_values(|c: NetworkGradeCount| c@) == r2.map_values(|c: NetworkGradeCount| c@),
{
    lemma_presence_list_unique(ps1, ps2, presence_map(csv_users, known, fails, OFFLINE_FAIL_THRESHOLD));
    lemma_grade_counts_unique(r1, r2, ps1);
}

/// The TCP ports tried in turn to see whether a host is up.
pub open spec fn liveness_ports() -> Seq<u16> {
    seq![22u16, 53, 80, 123, 443, 445, 631, 62078]
}

/// What one connection attempt to a port gave.
#[derive(Debug, Clone, Copy, PartialEq, Eq, Structural)]
pub enum ProbeOutcome {
    /// The connection was made.
    Connected,
    /// The host refused the connection: it is up, the port is closed.
    Refused,
    /// No answer within the time allowed, or another failure.
    Silent,
}

/// What the liveness probe of a host does next.
#[derive(Debug, Clone, Copy, PartialEq, Eq, Structural)]
pub enum ProbeStep {
    /// Try to connect to this port.
    Try(u16),
    /// The host answered: it is live.
    Live,
    /// Every port was tried without an answer.
    Dead,
}

/// The next step of the liveness probe after `tried` ports, the last of
/// which gave `last`: the host is live as soon as an attempt connects or is
/// refused; otherwise the next port is tried, and the host is dead once all
/// of [`liveness_ports`] were tried in vain.
pub fn next_probe(tried: usize, last: Option<ProbeOutcome>) -> (step: ProbeStep)
    ensures
        step == (match last {
            Some(ProbeOutcome::Connected) | Some(ProbeOutcome::Refused) => ProbeStep::Live,
            _ => if tried < liveness_ports().len() {
                ProbeStep::Try(liveness_ports()[tried as int])
            } else {
                ProbeStep::Dead
            },
        }),
{
    match last {
        Some(ProbeOutcome::Connected) | Some(ProbeOutcome::Refused) => ProbeStep::Live,
        _ => {
            let port: u16 = if tried == 0 {
                22
            } else if tried == 1 {
                53
            } else if tried == 2 {
                80
            } else if tried == 3 {
                123
            } else if tried == 4 {
                443
            } else if tried == 5 {
                445
            } else if tried == 6 {
                631
            } else if tried == 7 {
                62078
            } else {
                return ProbeStep::Dead;
            };
            ProbeStep::Try(port)
        },
    }
}


/// The address of host `host` in the subnet `prefix`.
pub open spec fn host_address(prefix: Seq<char>, host: nat) -> Seq<char> {
    prefix + seq!['.'] + decimal(host)
}

/// The addresses probed in the subnet `prefix`: hosts 2 to 254, in order.
pub fn subnet_probe_targets(subnet_prefix: &str) -> (targets: Vec<String>)
    ensures
        targets@.len() == 253,
        forall|i: int| 0 <= i < 253 ==> #[trigger] targets@[i]@ == host_address(subnet_prefix@, (i + 2) as nat),
{
    let pc = chars_of(subnet_prefix);
    let mut targets: Vec<String> = Vec::new();
    let mut host: u32 = 2;
    while host <= 254
        invariant
            2 <= host <= 255,
            pc@ == subnet_prefix@,
            targets@.len() == host - 2,
            forall|i: int| 0 <= i < host - 2 ==> #[trigger] targets@[i]@ == host_address(subnet_prefix@, (i + 2) as nat),
        decreases 255 - host,
    {
        let mut cs: Vec<char> = Vec::new();
        let mut k: usize = 0;
        while k < pc.len()
            invariant
                k <= pc@.len(),
                cs@ == pc@.take(k as int),
            decreases pc@.len() - k,
        {
            cs.push(pc[k]);
            k = k + 1;
            assert(cs@ =~= pc@.take(k as int));
        }
        assert(pc@.take(pc@.len() as int) =~= pc@);
        cs.push('.');
        let ds = decimal_chars(host);
        let mut j: usize = 0;
        let ghost base = cs@;
        while j < ds.len()
            invariant
                j <= ds@.len(),
                cs@ == base + ds@.take(j as int),
            decreases ds@.len() - j,
        {
            cs.push(ds[j]);
            j = j + 1;
            assert(cs@ =~= base + ds@.take(j as int));
        }
        assert(ds@.take(ds@.len() as int) =~= ds@);
        assert(cs@ =~= host_address(subnet_prefix@, host as nat));
        targets.push(string_from_chars(&cs));
        host = host + 1;
    }
    targets
}

} // verus!
