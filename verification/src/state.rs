//! The manager's state: bounded per-machine metric histories, the network
//! scan settings and the latest presence snapshot.

use vstd::prelude::*;
use std::path::PathBuf;

verus! {

#[verifier::external_type_specification]
#[verifier::external_body]
pub struct ExPathBuf(PathBuf);

/// The head count of one grade: users online, users offline, and both.
#[derive(Debug)]
pub struct NetworkGradeCount {
    pub grade: String,
    pub online: usize,
    pub offline: usize,
    pub total: usize,
}

impl View for NetworkGradeCount {
    type V = (Seq<char>, usize, usize, usize);

    open spec fn view(&self) -> (Seq<char>, usize, usize, usize) {
        (self.grade@, self.online, self.offline, self.total)
    }
}

impl Clone for NetworkGradeCount {
    fn clone(&self) -> (r: Self)
        ensures
            r@ == self@,
    {
        NetworkGradeCount {
            grade: self.grade.clone(),
            online: self.online,
            offline: self.offline,
            total: self.total,
        }
    }
}

/// The per-grade head counts of the latest network scan, in grade order.
#[derive(Debug)]
pub struct NetworkUsersSnapshot {
    pub grade_counts: Vec<NetworkGradeCount>,
}

impl View for NetworkUsersSnapshot {
    type V = Seq<(Seq<char>, usize, usize, usize)>;

    open spec fn view(&self) -> Seq<(Seq<char>, usize, usize, usize)> {
        self.grade_counts@.map_values(|c: NetworkGradeCount| c@)
    }
}

impl Clone for NetworkUsersSnapshot {
    fn clone(&self) -> (r: Self)
        ensures
            r@ == self@,
    {
        let mut grade_counts: Vec<NetworkGradeCount> = Vec::new();
        let mut i: usize = 0;
        while i < self.grade_counts.len()
            invariant
                i <= self.grade_counts@.len(),
                grade_counts@.len() == i,
                forall|k: int| 0 <= k < i ==> #[trigger] grade_counts@[k]@ == self.grade_counts@[k]@,
            decreases self.grade_counts@.len() - i,
        {
            grade_counts.push(self.grade_counts[i].clone());
            i = i + 1;
        }
        let r = NetworkUsersSnapshot { grade_counts };
        assert(r@ =~= self@);
        r
    }
}

impl Default for NetworkUsersSnapshot {
    fn default() -> (r: Self)
        ensures
            r@ == Seq::<(Seq<char>, usize, usize, usize)>::empty(),
    {
        let r = NetworkUsersSnapshot { grade_counts: Vec::new() };
        assert(r@ =~= Seq::<(Seq<char>, usize, usize, usize)>::empty());
        r
    }
}

/// Where the network scan looks: the subnet (its address without the last
/// octet) and the MAC/user roster file, if one is configured.
#[derive(Clone)]
pub struct NetworkConfig {
    pub subnet_prefix: String,
    pub mac_user_csv: Option<PathBuf>,
}

/// How many reports the manager keeps per machine.
pub const MAX_HISTORY: usize = 288;

/// `h` with `m` appended, and its oldest entry dropped when that makes it
/// longer than `max`.
pub open spec fn bounded_push<M>(h: Seq<M>, m: M, max: nat) -> Seq<M> {
    let p = h.push(m);
    if p.len() > max {
        p.drop_first()
    } else {
        p
    }
}

/// The histories after a report `m` from machine `id`.
pub open spec fn with_report<M>(
    hs: Map<Seq<char>, Seq<M>>,
    id: Seq<char>,
    m: M,
    max: nat,
) -> Map<Seq<char>, Seq<M>> {
    let h = if hs.dom().contains(id) {
        hs[id]
    } else {
        Seq::empty()
    };
    hs.insert(id, bounded_push(h, m, max))
}

/// The most recent report of machine `id`, where it has one.
pub open spec fn latest_of<M>(hs: Map<Seq<char>, Seq<M>>, id: Seq<char>) -> Option<M> {
    if hs.dom().contains(id) && hs[id].len() > 0 {
        Some(hs[id].last())
    } else {
        None
    }
}

/// After a report from machine `id`, that report is its latest.
pub proof fn lemma_report_is_latest<M>(hs: Map<Seq<char>, Seq<M>>, id: Seq<char>, m: M, max: nat)
    requires
        max >= 1,
    ensures
        latest_of(with_report(hs, id, m, max), id) == Some(m),
{
}

/// A report from machine `id` leaves every other machine's history as it was.
pub proof fn lemma_report_leaves_others<M>(
    hs: Map<Seq<char>, Seq<M>>,
    id: Seq<char>,
    other: Seq<char>,
    m: M,
    max: nat,
)
    requires
        other != id,
    ensures
        with_report(hs, id, m, max).dom().contains(other) == hs.dom().contains(other),
        hs.dom().contains(other) ==> with_report(hs, id, m, max)[other] == hs[other],
        latest_of(with_report(hs, id, m, max), other) == latest_of(hs, other),
{
}

/// No machine ever has more than `max` reports kept, nor none.
pub proof fn lemma_report_bounded<M>(hs: Map<Seq<char>, Seq<M>>, id: Seq<char>, m: M, max: nat)
    requires
        max >= 1,
        forall|x: Seq<char>| #[trigger] hs.dom().contains(x) ==> 1 <= hs[x].len() <= max,
    ensures
        forall|x: Seq<char>| #[trigger]
            with_report(hs, id, m, max).dom().contains(x) ==> 1 <= with_report(hs, id, m, max)[x].len()
                <= max,
{
}

/// The history that reports `ms`, in order, leave for one machine.
pub open spec fn history_after<M>(ms: Seq<M>, max: nat) -> Seq<M>
    decreases ms.len(),
{
    if ms.len() == 0 {
        Seq::empty()
    } else {
        bounded_push(history_after(ms.drop_last(), max), ms.last(), max)
    }
}

/// A machine's history holds its `max` newest reports (all of them while it
/// has sent fewer), oldest first.
pub proof fn lemma_history_keeps_newest<M>(ms: Seq<M>, max: nat)
    requires
        max >= 1,
    ensures
        history_after(ms, max) == ms.skip(
            if ms.len() > max {
                ms.len() - max
            } else {
                0
            },
        ),
    decreases ms.len(),
{
    if ms.len() == 0 {
        assert(ms.skip(0) =~= Seq::<M>::empty());
    } else {
        let prev = ms.drop_last();
        lemma_history_keeps_newest(prev, max);
        let ps = if prev.len() > max {
            prev.len() - max
        } else {
            0
        };
        let s = if ms.len() > max {
            ms.len() - max
        } else {
            0
        };
        let h = prev.skip(ps);
        assert(h.push(ms.last()) =~= ms.skip(ps));
        if h.push(ms.last()).len() > max {
            assert(ms.skip(ps).drop_first() =~= ms.skip(s));
        } else {
            assert(ps == s);
        }
    }
}

/// The histories that the reports `rs` (machine id and report), taken in
/// order by a new state, leave.
pub open spec fn replay<M>(rs: Seq<(Seq<char>, M)>) -> Map<Seq<char>, Seq<M>>
    decreases rs.len(),
{
    if rs.len() == 0 {
        Map::empty()
    } else {
        with_report(replay(rs.drop_last()), rs.last().0, rs.last().1, MAX_HISTORY as nat)
    }
}

/// The machines of the reports `rs`, in order of their first report.
pub open spec fn first_reported<M>(rs: Seq<(Seq<char>, M)>) -> Seq<Seq<char>>
    decreases rs.len(),
{
    if rs.len() == 0 {
        Seq::empty()
    } else {
        let p = first_reported(rs.drop_last());
        if p.contains(rs.last().0) {
            p
        } else {
            p.push(rs.last().0)
        }
    }
}

/// The last of the reports `rs` that machine `id` sent, where it sent one.
pub open spec fn last_report<M>(rs: Seq<(Seq<char>, M)>, id: Seq<char>) -> Option<M>
    decreases rs.len(),
{
    if rs.len() == 0 {
        None
    } else if rs.last().0 == id {
        Some(rs.last().1)
    } else {
        last_report(rs.drop_last(), id)
    }
}

/// After the reports `rs`: the machines are those that sent one, each once,
/// in order of their first report; each keeps between one and
/// [`MAX_HISTORY`] reports; and its latest is the last report it sent.
pub proof fn lemma_replay<M>(rs: Seq<(Seq<char>, M)>)
    ensures
        first_reported(rs).no_duplicates(),
        forall|id: Seq<char>| #[trigger] replay(rs).dom().contains(id) <==> first_reported(rs).contains(id),
        forall|id: Seq<char>| #[trigger] replay(rs).dom().contains(id) <==> last_report(rs, id) is Some,
        forall|id: Seq<char>| #[trigger] latest_of(replay(rs), id) == last_report(rs, id),
        forall|id: Seq<char>| #[trigger]
            replay(rs).dom().contains(id) ==> 1 <= replay(rs)[id].len() <= MAX_HISTORY,
    decreases rs.len(),
{
    if rs.len() > 0 {
        let prev = rs.drop_last();
        lemma_replay(prev);
        let (id, m) = rs.last();
        assert forall|x: Seq<char>| #[trigger] latest_of(replay(rs), x) == last_report(rs, x) by {
            if x == id {
                lemma_report_is_latest(replay(prev), id, m, MAX_HISTORY as nat);
            } else {
                lemma_report_leaves_others(replay(prev), id, x, m, MAX_HISTORY as nat);
            }
        }
        lemma_report_bounded(replay(prev), id, m, MAX_HISTORY as nat);
        let p = first_reported(prev);
        let f = first_reported(rs);
        assert(f == (if p.contains(id) { p } else { p.push(id) }));
        assert forall|x: Seq<char>| #[trigger] replay(rs).dom().contains(x) <==> f.contains(x) by {
            if !p.contains(id) {
                assert(f == p.push(id));
                if x == id {
                    assert(f[p.len() as int] == x);
                }
                if f.contains(x) && x != id {
                    let t = choose|t: int| 0 <= t < f.len() && f[t] == x;
                    assert(t < p.len());
                    assert(p[t] == x);
                }
                if p.contains(x) {
                    let t = choose|t: int| 0 <= t < p.len() && p[t] == x;
                    assert(f[t] == x);
                }
            }
        }
        assert forall|x: Seq<char>| #[trigger] replay(rs).dom().contains(x) <==> last_report(rs, x) is Some by {
        }
    }
}

/// A report `m` from machine `id` after the reports `rs` leaves the state
/// that the reports `rs` followed by it give: its histories, and its
/// machines as `add_metrics` extends them.
pub proof fn lemma_report_extends<M>(rs: Seq<(Seq<char>, M)>, id: Seq<char>, m: M)
    ensures
        replay(rs.push((id, m))) == with_report(replay(rs), id, m, MAX_HISTORY as nat),
        first_reported(rs.push((id, m))) == (if replay(rs).dom().contains(id) {
            first_reported(rs)
        } else {
            first_reported(rs).push(id)
        }),
{
    lemma_replay(rs);
    assert(rs.push((id, m)).drop_last() =~= rs);
}

struct MachineHistory<M> {
    machine_id: String,
    history: Vec<M>,
}

/// The manager's state: for each machine its recent reports, oldest first,
/// the network scan settings, and the latest presence snapshot.
pub struct AppState<M> {
    metrics: Vec<MachineHistory<M>>,
    max_history: usize,
    network: NetworkConfig,
    network_snapshot: NetworkUsersSnapshot,
    reports: Ghost<Seq<(Seq<char>, M)>>,
}

impl<M> AppState<M> {
    /// The machines that have reported, in order of their first report.
    pub closed spec fn machines(&self) -> Seq<Seq<char>> {
        self.metrics@.map_values(|h: MachineHistory<M>| h.machine_id@)
    }

    /// Each machine's kept reports, oldest first.
    pub closed spec fn histories(&self) -> Map<Seq<char>, Seq<M>> {
        Map::new(
            |id: Seq<char>| exists|i: int| 0 <= i < self.metrics@.len() && self.metrics@[i].machine_id@ == id,
            |id: Seq<char>|
                self.metrics@[choose|i: int|
                    0 <= i < self.metrics@.len() && self.metrics@[i].machine_id@ == id].history@,
        )
    }

    /// How many reports are kept per machine.
    pub closed spec fn max_history(&self) -> nat {
        self.max_history as nat
    }

    /// The network scan settings.
    pub closed spec fn network(&self) -> NetworkConfig {
        self.network
    }

    /// The latest presence snapshot.
    pub closed spec fn snapshot(&self) -> Seq<(Seq<char>, usize, usize, usize)> {
        self.network_snapshot@
    }

    /// The reports taken since the state was made (machine id and report),
    /// in order.
    pub closed spec fn reports(&self) -> Seq<(Seq<char>, M)> {
        self.reports@
    }

    /// Well-formedness: the histories and machines are those that the
    /// reports taken leave (see [`replay`] and [`first_reported`]), and the
    /// layout holds (see `shape_wf`).
    pub closed spec fn wf(&self) -> bool {
        &&& self.shape_wf()
        &&& self.histories() == replay(self.reports@)
        &&& self.machines() == first_reported(self.reports@)
    }

    /// [`MAX_HISTORY`] reports are kept per machine, and each machine is
    /// held once, with between one and that many reports.
    spec fn shape_wf(&self) -> bool {
        &&& self.max_history == MAX_HISTORY
        &&& forall|i: int, j: int|
            0 <= i < j < self.metrics@.len() ==> #[trigger] self.metrics@[i].machine_id@
                != #[trigger] self.metrics@[j].machine_id@
        &&& forall|i: int|
            0 <= i < self.metrics@.len() ==> 1 <= #[trigger] self.metrics@[i].history@.len()
                <= self.max_history
    }

    /// A state with no reports, keeping [`MAX_HISTORY`] reports per machine.
    pub fn new(network: NetworkConfig) -> (s: Self)
        ensures
            s.wf(),
            s.reports() == Seq::<(Seq<char>, M)>::empty(),
            s.machines() == Seq::<Seq<char>>::empty(),
            s.histories() == Map::<Seq<char>, Seq<M>>::empty(),
            s.max_history() == MAX_HISTORY,
            s.network() == network,
            s.snapshot() == Seq::<(Seq<char>, usize, usize, usize)>::empty(),
    {
        let s = AppState {
            metrics: Vec::new(),
            max_history: MAX_HISTORY,
            network,
            network_snapshot: NetworkUsersSnapshot::default(),
            reports: Ghost(Seq::empty()),
        };
        assert(s.machines() =~= Seq::<Seq<char>>::empty());
        assert(s.histories() =~= Map::<Seq<char>, Seq<M>>::empty());
        s
    }

    /// Every machine with reports occurs once among the machines, and only
    /// those: the newest reports come one per machine.
    pub proof fn lemma_one_entry_per_machine(&self)
        requires
            self.wf(),
        ensures
            self.machines().no_duplicates(),
            forall|id: Seq<char>| #[trigger] self.histories().dom().contains(id) <==> self.machines().contains(id),
            forall|id: Seq<char>| #[trigger] self.histories().dom().contains(id) ==> self.histories()[id].len() >= 1,
    {
        assert forall|i: int, j: int| 0 <= i < self.machines().len() && 0 <= j < self.machines().len() && i != j
            implies self.machines()[i] != self.machines()[j] by {
            if i < j {
                assert(self.metrics@[i].machine_id@ != self.metrics@[j].machine_id@);
            } else {
                assert(self.metrics@[j].machine_id@ != self.metrics@[i].machine_id@);
            }
        }
        assert forall|id: Seq<char>| #[trigger] self.histories().dom().contains(id) <==> self.machines().contains(id) by {
            if self.histories().dom().contains(id) {
                let t = choose|t: int| 0 <= t < self.metrics@.len() && self.metrics@[t].machine_id@ == id;
                assert(self.machines()[t] == id);
            }
            if self.machines().contains(id) {
                let t = choose|t: int| 0 <= t < self.machines().len() && self.machines()[t] == id;
                assert(self.metrics@[t].machine_id@ == id);
            }
        }
        assert forall|id: Seq<char>| #[trigger] self.histories().dom().contains(id) implies self.histories()[id].len() >= 1 by {
            let t = choose|t: int| 0 <= t < self.metrics@.len() && self.metrics@[t].machine_id@ == id;
            self.lemma_history_at(t);
        }
    }

    /// A well-formed state is what its reports leave: its histories are
    /// [`replay`] of them and its machines [`first_reported`] of them, so
    /// [`lemma_replay`] holds of it.
    pub proof fn lemma_state_follows_reports(&self)
        requires
            self.wf(),
        ensures
            self.histories() == replay(self.reports()),
            self.machines() == first_reported(self.reports()),
    {
    }

    /// No machine of a well-formed state has more than [`MAX_HISTORY`]
    /// reports kept, nor none.
    pub proof fn lemma_history_bounded(&self)
        requires
            self.wf(),
        ensures
            self.max_history() == MAX_HISTORY,
            forall|id: Seq<char>| #[trigger]
                self.histories().dom().contains(id) ==> 1 <= self.histories()[id].len() <= MAX_HISTORY,
    {
        assert forall|id: Seq<char>| #[trigger] self.histories().dom().contains(id) implies
            1 <= self.histories()[id].len() <= MAX_HISTORY by {
            let t = choose|t: int| 0 <= t < self.metrics@.len() && self.metrics@[t].machine_id@ == id;
            self.lemma_history_at(t);
        }
    }

    proof fn lemma_history_at(&self, i: int)
        requires
            self.shape_wf(),
            0 <= i < self.metrics@.len(),
        ensures
            self.histories().dom().contains(self.metrics@[i].machine_id@),
            self.histories()[self.metrics@[i].machine_id@] == self.metrics@[i].history@,
    {
        let id = self.metrics@[i].machine_id@;
        let j = choose|j: int| 0 <= j < self.metrics@.len() && self.metrics@[j].machine_id@ == id;
        if j != i {
            if j < i {
                assert(self.metrics@[j].machine_id@ != self.metrics@[i].machine_id@);
            } else {
                assert(self.metrics@[i].machine_id@ != self.metrics@[j].machine_id@);
            }
        }
    }

    /// The position of machine `id` among the histories, where it has one.
    fn find_machine(&self, id: &str) -> (r: Option<usize>)
        requires
            self.wf(),
        ensures
            match r {
                Some(i) => i < self.metrics@.len() && self.metrics@[i as int].machine_id@ == id@,
                None => !self.histories().dom().contains(id@),
            },
    {
        let mut i: usize = 0;
        while i < self.metrics.len()
            invariant
                i <= self.metrics@.len(),
                forall|k: int| 0 <= k < i ==> #[trigger] self.metrics@[k].machine_id@ != id@,
            decreases self.metrics@.len() - i,
        {
            if crate::text::str_eq(self.metrics[i].machine_id.as_str(), id) {
                return Some(i);
            }
            i = i + 1;
        }
        None
    }

    /// Records report `metrics` of machine `machine_id` as its newest,
    /// dropping its oldest kept report when it would keep more than
    /// `max_history`.
    pub fn add_metrics(&mut self, machine_id: String, metrics: M)
        requires
            old(self).wf(),
        ensures
            final(self).wf(),
            final(self).histories() == with_report(
                old(self).histories(),
                machine_id@,
                metrics,
                old(self).max_history(),
            ),
            final(self).machines() == (if old(self).histories().dom().contains(machine_id@) {
                old(self).machines()
            } else {
                old(self).machines().push(machine_id@)
            }),
            final(self).max_history() == old(self).max_history(),
            final(self).network() == old(self).network(),
            final(self).snapshot() == old(self).snapshot(),
            final(self).reports() == old(self).reports().push((machine_id@, metrics)),
    {
        let ghost old_hs = self.histories();
        let ghost old_reports = self.reports@;
        let ghost id = machine_id@;
        match self.find_machine(machine_id.as_str()) {
            Some(i) => {
                proof {
                    self.lemma_history_at(i as int);
                }
                let ghost old_h = self.metrics@[i as int].history@;
                let mut entry = self.metrics.remove(i);
                entry.history.push(metrics);
                if entry.history.len() > self.max_history {
                    entry.history.remove(0);
                }
                assert(entry.history@ =~= bounded_push(old_h, metrics, self.max_history as nat));
                self.metrics.insert(i, entry);
                assert(self.metrics@.map_values(|h: MachineHistory<M>| h.machine_id@) =~= old(self).machines());
                proof {
                    assert(self.shape_wf()) by {
                        assert forall|a: int, b: int| 0 <= a < b < self.metrics@.len() implies
                            #[trigger] self.metrics@[a].machine_id@ != #[trigger] self.metrics@[b].machine_id@ by {
                            assert(self.metrics@[a].machine_id@ == old(self).metrics@[a].machine_id@);
                            assert(self.metrics@[b].machine_id@ == old(self).metrics@[b].machine_id@);
                        }
                        assert forall|a: int| 0 <= a < self.metrics@.len() implies 1 <= #[trigger] self.metrics@[a].history@.len()
                            <= self.max_history by {
                            if a != i {
                                assert(self.metrics@[a] == old(self).metrics@[a]);
                            }
                        }
                    }
                    assert(self.histories() =~= with_report(old_hs, id, metrics, self.max_history as nat)) by {
                        assert forall|x: Seq<char>| #[trigger] self.histories().dom().contains(x) <==> old_hs.dom().contains(x) by {
                            if self.histories().dom().contains(x) {
                                let t = choose|t: int| 0 <= t < self.metrics@.len() && self.metrics@[t].machine_id@ == x;
                                assert(old(self).metrics@[t].machine_id@ == x);
                            }
                            if old_hs.dom().contains(x) {
                                let t = choose|t: int| 0 <= t < old(self).metrics@.len() && old(self).metrics@[t].machine_id@ == x;
                                assert(self.metrics@[t].machine_id@ == x);
                            }
                        }
                        assert forall|x: Seq<char>| #[trigger] self.histories().dom().contains(x) implies
                            self.histories()[x] == with_report(old_hs, id, metrics, self.max_history as nat)[x] by {
                            let t = choose|t: int| 0 <= t < self.metrics@.len() && self.metrics@[t].machine_id@ == x;
                            self.lemma_history_at(t);
                            old(self).lemma_history_at(t);
                        }
                    }
                }
            },
            None => {
                let mut h: Vec<M> = Vec::new();
                h.push(metrics);
                let ghost n = self.metrics@.len();
                self.metrics.push(MachineHistory { machine_id, history: h });
                assert(self.metrics@.map_values(|h: MachineHistory<M>| h.machine_id@) =~= old(self).machines().push(id));
                proof {
                    assert(self.shape_wf()) by {
                        assert forall|a: int, b: int| 0 <= a < b < self.metrics@.len() implies
                            #[trigger] self.metrics@[a].machine_id@ != #[trigger] self.metrics@[b].machine_id@ by {
                            if b == n {
                                assert(old(self).metrics@[a].machine_id@ != id) by {
                                    if old(self).metrics@[a].machine_id@ == id {
                                        assert(old_hs.dom().contains(id));
                                    }
                                }
                            } else {
                                assert(self.metrics@[a] == old(self).metrics@[a]);
                                assert(self.metrics@[b] == old(self).metrics@[b]);
                            }
                        }
                        assert forall|a: int| 0 <= a < self.metrics@.len() implies 1 <= #[trigger] self.metrics@[a].history@.len()
                            <= self.max_history by {
                            if a < n {
                                assert(self.metrics@[a] == old(self).metrics@[a]);
                            }
                        }
                    }
                    assert(h@ =~= bounded_push(Seq::<M>::empty(), metrics, self.max_history as nat));
                    assert(self.histories() =~= with_report(old_hs, id, metrics, self.max_history as nat)) by {
                        assert forall|x: Seq<char>| #[trigger] self.histories().dom().contains(x) <==> old_hs.dom().insert(id).contains(x) by {
                            if self.histories().dom().contains(x) {
                                let t = choose|t: int| 0 <= t < self.metrics@.len() && self.metrics@[t].machine_id@ == x;
                                if t < n {
                                    assert(old(self).metrics@[t].machine_id@ == x);
                                }
                            }
                            if old_hs.dom().contains(x) {
                                let t = choose|t: int| 0 <= t < old(self).metrics@.len() && old(self).metrics@[t].machine_id@ == x;
                                assert(self.metrics@[t].machine_id@ == x);
                            }
                            if x == id {
                                assert(self.metrics@[n as int].machine_id@ == x);
                            }
                        }
                        assert forall|x: Seq<char>| #[trigger] self.histories().dom().contains(x) implies
                            self.histories()[x] == with_report(old_hs, id, metrics, self.max_history as nat)[x] by {
                            let t = choose|t: int| 0 <= t < self.metrics@.len() && self.metrics@[t].machine_id@ == x;
                            self.lemma_history_at(t);
                            if t < n {
                                old(self).lemma_history_at(t);
                                assert(x != id);
                            }
                        }
                    }
                }
            },
        }
        proof {
            lemma_report_extends(old_reports, id, metrics);
        }
        self.reports = Ghost(old_reports.push((id, metrics)));
    }

    /// The network scan settings.
    pub fn network_config(&self) -> (c: &NetworkConfig)
        ensures
            *c == self.network(),
    {
        &self.network
    }

    /// Replaces the presence snapshot.
    pub fn set_network_snapshot(&mut self, snapshot: NetworkUsersSnapshot)
        requires
            old(self).wf(),
        ensures
            final(self).wf(),
            final(self).snapshot() == snapshot@,
            final(self).histories() == old(self).histories(),
            final(self).machines() == old(self).machines(),
            final(self).max_history() == old(self).max_history(),
            final(self).network() == old(self).network(),
    {
        self.network_snapshot = snapshot;
    }

    /// A copy of the presence snapshot.
    pub fn network_snapshot(&self) -> (r: NetworkUsersSnapshot)
        ensures
            r@ == self.snapshot(),
    {
        self.network_snapshot.clone()
    }
}

impl<M: Clone> AppState<M> {
    /// The newest report of every machine, in order of their first report.
    pub fn get_latest_metrics(&self) -> (r: Vec<M>)
        requires
            self.wf(),
        ensures
            r@.len() == self.machines().len(),
            forall|i: int|
                0 <= i < r@.len() ==> cloned::<M>(
                    self.histories()[#[trigger] self.machines()[i]].last(),
                    r@[i],
                ),
            self.machines() == first_reported(self.reports()),
            forall|i: int|
                0 <= i < r@.len() ==> cloned::<M>(
                    last_report(self.reports(), #[trigger] first_reported(self.reports())[i])->0,
                    r@[i],
                ),
    {
        proof {
            lemma_replay(self.reports@);
            self.lemma_one_entry_per_machine();
            assert forall|i: int| 0 <= i < self.machines().len() implies
                last_report(self.reports(), #[trigger] first_reported(self.reports())[i])->0
                    == self.histories()[self.machines()[i]].last() by {
                let id = self.machines()[i];
                assert(self.machines().contains(id));
                assert(latest_of(replay(self.reports@), id) == last_report(self.reports@, id));
            }
        }
        let mut r: Vec<M> = Vec::new();
        let mut i: usize = 0;
        while i < self.metrics.len()
            invariant
                self.wf(),
                i <= self.metrics@.len(),
                r@.len() == i,
                forall|k: int|
                    0 <= k < i ==> cloned::<M>(
                        self.histories()[#[trigger] self.machines()[k]].last(),
                        r@[k],
                    ),
            decreases self.metrics@.len() - i,
        {
            let h = &self.metrics[i].history;
            proof {
                self.lemma_history_at(i as int);
                assert(self.machines()[i as int] == self.metrics@[i as int].machine_id@);
            }
            let m = h[h.len() - 1].clone();
            r.push(m);
            i = i + 1;
        }
        r
    }

    /// The newest report of machine `machine_id`, if it has reported.
    pub fn get_machine_latest(&self, machine_id: &str) -> (r: Option<M>)
        requires
            self.wf(),
        ensures
            match r {
                Some(m) => self.histories().dom().contains(machine_id@) && cloned::<M>(
                    self.histories()[machine_id@].last(),
                    m,
                ),
                None => !self.histories().dom().contains(machine_id@),
            },
            r is Some <==> latest_of(self.histories(), machine_id@) is Some,
            r is Some <==> last_report(self.reports(), machine_id@) is Some,
            r is Some ==> cloned::<M>(last_report(self.reports(), machine_id@)->0, r->0),
    {
        proof {
            lemma_replay(self.reports@);
            self.lemma_one_entry_per_machine();
            assert(latest_of(replay(self.reports@), machine_id@) == last_report(self.reports@, machine_id@));
        }
        match self.find_machine(machine_id) {
            Some(i) => {
                proof {
                    self.lemma_history_at(i as int);
                }
                let h = &self.metrics[i].history;
                Some(h[h.len() - 1].clone())
            },
            None => None,
        }
    }
}

} // verus!
