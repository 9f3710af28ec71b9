//! Wake-ups that operators ask for, to run again without new input.
//!
//! An operator that holds updates for a later time asks the [`Scheduler`] to
//! wake it at that time. Whoever drives the clock takes, at each tick, the
//! operators whose wake-up has come, and runs each of them once.

use vstd::prelude::*;
use crate::arrangement::{lemma_earliest_future_time, Arrangement, ArrangementView};
use crate::filters::lemma_filter_band;
use crate::repr::Timestamp;

verus! {

/// Names one operator of a dataflow graph.
#[derive(Clone, Copy, Debug, PartialEq, Eq, Structural, PartialOrd, Ord, Hash)]
pub struct SubgraphId(pub usize);

/// A wake-up: the time it is due, and the operator to run.
pub type Wake = (Timestamp, SubgraphId);

/// Where an operator stands with the scheduler. An operator that was taken as
/// due is idle, unless a later wake-up of it is pending, until it asks again.
#[derive(Clone, Copy, Debug, PartialEq, Eq, Structural)]
pub enum OperatorState {
    /// No wake-up of the operator is pending.
    Idle,
    /// The operator is to be woken when the clock reaches this time, the
    /// earliest for which it has asked.
    Pending(Timestamp),
}

/// Wake-ups that are due when the clock shows `now`.
pub open spec fn due_at(now: Timestamp) -> spec_fn(Wake) -> bool {
    |w: Wake| w.0 <= now
}

/// Wake-ups that are not yet due when the clock shows `now`.
pub open spec fn due_after(now: Timestamp) -> spec_fn(Wake) -> bool {
    |w: Wake| w.0 > now
}

/// No wake-up is due before an earlier one in the sequence.
pub open spec fn sorted_wakes(s: Seq<Wake>) -> bool {
    forall|i: int, j: int| 0 <= i <= j < s.len() ==> s[i].0 <= s[j].0
}

/// `s` with `w` placed behind every wake-up due at `w`'s time or earlier.
pub open spec fn insert_wake(s: Seq<Wake>, w: Wake) -> Seq<Wake> {
    s.filter(due_at(w.0)) + seq![w] + s.filter(due_after(w.0))
}

/// The operators of the wake-ups `s`, in order.
pub open spec fn subgraphs_of(s: Seq<Wake>) -> Seq<SubgraphId> {
    s.map_values(|w: Wake| w.1)
}

/// No operator before index `i` is the operator `s[i]`.
pub open spec fn first_mention(s: Seq<SubgraphId>, i: int) -> bool {
    forall|j: int| 0 <= j < i ==> #[trigger] s[j] != s[i]
}

/// The operators among the first `n` of `s`, each at its first mention.
pub open spec fn distinct_prefix(s: Seq<SubgraphId>, n: int) -> Seq<SubgraphId>
    decreases n,
{
    if n <= 0 {
        Seq::empty()
    } else if first_mention(s, n - 1) {
        distinct_prefix(s, n - 1).push(s[n - 1])
    } else {
        distinct_prefix(s, n - 1)
    }
}

/// The operators of `s`, each once, in the order of their first mention.
pub open spec fn distinct(s: Seq<SubgraphId>) -> Seq<SubgraphId> {
    distinct_prefix(s, s.len() as int)
}

/// `distinct_prefix(s, n)` holds the operators among the first `n` of `s`, and
/// none of them twice.
pub proof fn lemma_distinct_prefix(s: Seq<SubgraphId>, n: int)
    requires
        0 <= n <= s.len(),
    ensures
        forall|g: SubgraphId| #[trigger]
            distinct_prefix(s, n).contains(g) <==> exists|i: int| 0 <= i < n && s[i] == g,
        distinct_prefix(s, n).no_duplicates(),
    decreases n,
{
    let cur = distinct_prefix(s, n);
    if n > 0 {
        lemma_distinct_prefix(s, n - 1);
        let rest = distinct_prefix(s, n - 1);
        let g0 = s[n - 1];
        assert forall|g: SubgraphId| #[trigger] cur.contains(g) <==> exists|i: int|
            0 <= i < n && s[i] == g by {
            if cur.contains(g) {
                let k = choose|k: int| 0 <= k < cur.len() && cur[k] == g;
                if k < rest.len() {
                    assert(rest[k] == g);
                    assert(rest.contains(g));
                    let i = choose|i: int| 0 <= i < n - 1 && s[i] == g;
                    assert(0 <= i < n && s[i] == g);
                } else {
                    assert(s[n - 1] == g);
                }
            }
            if exists|i: int| 0 <= i < n && s[i] == g {
                let i = choose|i: int| 0 <= i < n && s[i] == g;
                if first_mention(s, n - 1) {
                    if g == g0 {
                        assert(cur[cur.len() - 1] == g);
                    } else {
                        assert(0 <= i < n - 1 && s[i] == g);
                        assert(rest.contains(g));
                        let k = choose|k: int| 0 <= k < rest.len() && rest[k] == g;
                        assert(cur[k] == g);
                    }
                } else {
                    if i == n - 1 {
                        let j = choose|j: int| 0 <= j < n - 1 && #[trigger] s[j] == s[n - 1];
                        assert(0 <= j < n - 1 && s[j] == g);
                    }
                    assert(rest.contains(g));
                }
            }
        }
        if first_mention(s, n - 1) {
            assert(!rest.contains(g0)) by {
                if rest.contains(g0) {
                    let i = choose|i: int| 0 <= i < n - 1 && s[i] == g0;
                    assert(s[i] != s[n - 1]);
                }
            }
            assert forall|k: int, l: int| 0 <= k < cur.len() && 0 <= l < cur.len() && k != l implies cur[k]
                != cur[l] by {
                if k < rest.len() && l < rest.len() {
                    assert(cur[k] == rest[k] && cur[l] == rest[l]);
                } else {
                    let o = if k < rest.len() { k } else { l };
                    assert(cur[o] == rest[o]);
                    assert(rest.contains(rest[o]));
                }
            }
        }
    } else {
        assert forall|g: SubgraphId| !(#[trigger] cur.contains(g)) by {}
    }
}

/// Mathematical model of a [`Scheduler`].
pub struct SchedulerView {
    /// The wake-ups asked for and not yet taken, ordered by time and, within one
    /// time, by the order in which they were asked for.
    pub pending: Seq<Wake>,
    /// The operator on whose behalf wake-ups are recorded.
    pub cur_subgraph: Option<SubgraphId>,
}

impl SchedulerView {
    /// The wake-ups are ordered by time.
    pub open spec fn wf(self) -> bool {
        sorted_wakes(self.pending)
    }

    /// The operators to run when the clock shows `now`: those with a wake-up
    /// due by then, each once.
    pub open spec fn due(self, now: Timestamp) -> Seq<SubgraphId> {
        distinct(subgraphs_of(self.pending.filter(due_at(now))))
    }

    /// Some wake-up of `subgraph` is due when the clock shows `now`.
    pub open spec fn is_due(self, subgraph: SubgraphId, now: Timestamp) -> bool {
        exists|i: int|
            0 <= i < self.pending.len() && (#[trigger] self.pending[i]).0 <= now
                && self.pending[i].1 == subgraph
    }

    /// Where `subgraph` stands: pending at the earliest time for which it has
    /// asked and was not yet taken, idle where there is no such time.
    pub open spec fn is_state_of(self, subgraph: SubgraphId, state: OperatorState) -> bool {
        match state {
            OperatorState::Idle => forall|i: int|
                0 <= i < self.pending.len() ==> (#[trigger] self.pending[i]).1 != subgraph,
            OperatorState::Pending(t) => {
                &&& exists|i: int|
                    0 <= i < self.pending.len() && #[trigger] self.pending[i] == (t, subgraph)
                &&& forall|i: int|
                    0 <= i < self.pending.len() && (#[trigger] self.pending[i]).1 == subgraph ==> t
                        <= self.pending[i].0
            },
        }
    }

    /// The scheduler after the wake-ups due at `now` were taken.
    pub open spec fn after_take(self, now: Timestamp) -> Self {
        SchedulerView {
            pending: self.pending.filter(due_after(now)),
            cur_subgraph: self.cur_subgraph,
        }
    }

    /// The scheduler after a wake-up of the current operator was asked for at `time`.
    pub open spec fn after_schedule(self, time: Timestamp) -> Self
        recommends
            self.cur_subgraph is Some,
    {
        SchedulerView {
            pending: insert_wake(self.pending, (time, self.cur_subgraph.unwrap())),
            cur_subgraph: self.cur_subgraph,
        }
    }

    /// The scheduler after a wake-up of the current operator was asked for at
    /// `time`, if there is one.
    pub open spec fn after_schedule_for(self, time: Option<Timestamp>) -> Self
        recommends
            self.cur_subgraph is Some,
    {
        match time {
            Some(t) => self.after_schedule(t),
            None => self,
        }
    }
}

/// Registry of the wake-ups that the operators of one dataflow graph ask for.
pub struct Scheduler {
    /// Wake-ups not yet taken, ordered by time and, within one time, by the
    /// order in which they were asked for.
    schedule_subgraph: Vec<Wake>,
    /// The operator on whose behalf wake-ups are recorded.
    cur_subgraph: Option<SubgraphId>,
}

impl View for Scheduler {
    type V = SchedulerView;

    closed spec fn view(&self) -> SchedulerView {
        SchedulerView { pending: self.schedule_subgraph@, cur_subgraph: self.cur_subgraph }
    }
}

impl Scheduler {
    /// The scheduler's representation is consistent.
    pub closed spec fn wf(&self) -> bool {
        self@.wf()
    }

    /// A well-formed scheduler has a well-formed model.
    pub proof fn lemma_wf_view(&self)
        requires
            self.wf(),
        ensures
            self@.wf(),
    {
    }

    /// A scheduler without wake-ups and without a current operator.
    pub fn new() -> (s: Scheduler)
        ensures
            s.wf(),
            s@.pending == Seq::<Wake>::empty(),
            s@.cur_subgraph is None,
    {
        Scheduler { schedule_subgraph: Vec::new(), cur_subgraph: None }
    }

    /// Makes `subgraph` the operator on whose behalf wake-ups are recorded.
    pub fn set_cur_subgraph(&mut self, subgraph: SubgraphId)
        requires
            old(self).wf(),
        ensures
            final(self).wf(),
            final(self)@.pending == old(self)@.pending,
            final(self)@.cur_subgraph == Some(subgraph),
    {
        self.cur_subgraph = Some(subgraph);
    }

    /// The operator on whose behalf wake-ups are recorded.
    pub fn cur_subgraph(&self) -> (g: Option<SubgraphId>)
        ensures
            g == self@.cur_subgraph,
    {
        self.cur_subgraph
    }

    /// Time of the earliest wake-up not yet taken.
    pub fn next_wake(&self) -> (t: Option<Timestamp>)
        requires
            self.wf(),
        ensures
            t is None <==> self@.pending.len() == 0,
            t is Some ==> exists|i: int|
                0 <= i < self@.pending.len() && (#[trigger] self@.pending[i]).0 == t.unwrap(),
            t is Some ==> forall|i: int|
                0 <= i < self@.pending.len() ==> t.unwrap() <= (#[trigger] self@.pending[i]).0,
    {
        if self.schedule_subgraph.len() == 0 {
            None
        } else {
            assert(self@.pending[0].0 == self.schedule_subgraph[0].0);
            Some(self.schedule_subgraph[0].0)
        }
    }

    /// Where `subgraph` stands with the scheduler.
    pub fn state_of(&self, subgraph: SubgraphId) -> (state: OperatorState)
        requires
            self.wf(),
        ensures
            self@.is_state_of(subgraph, state),
    {
        let mut i: usize = 0;
        while i < self.schedule_subgraph.len()
            invariant
                self.wf(),
                i <= self.schedule_subgraph.len(),
                forall|k: int| 0 <= k < i ==> (#[trigger] self.schedule_subgraph[k]).1 != subgraph,
            decreases self.schedule_subgraph.len() - i,
        {
            if self.schedule_subgraph[i].1 == subgraph {
                let t = self.schedule_subgraph[i].0;
                proof {
                    assert(self@.pending[i as int] == (t, subgraph));
                    assert forall|k: int|
                        0 <= k < self@.pending.len() && (#[trigger] self@.pending[k]).1
                            == subgraph implies t <= self@.pending[k].0 by {
                        assert(k >= i);
                        assert(self@.pending[i as int].0 <= self@.pending[k].0);
                    }
                }
                return OperatorState::Pending(t);
            }
            i += 1;
        }
        OperatorState::Idle
    }

    /// Asks that the current operator run again when the clock reaches
    /// `next_run_time`.
    pub fn schedule_at(&mut self, next_run_time: Timestamp)
        requires
            old(self).wf(),
            old(self)@.cur_subgraph is Some,
        ensures
            final(self).wf(),
            final(self)@ == old(self)@.after_schedule(next_run_time),
    {
        let subgraph = self.cur_subgraph.unwrap();
        let mut pos: usize = self.schedule_subgraph.len();
        while pos > 0 && self.schedule_subgraph[pos - 1].0 > next_run_time
            invariant
                self.wf(),
                *self == *old(self),
                pos <= self.schedule_subgraph.len(),
                forall|i: int|
                    pos <= i < self.schedule_subgraph.len() ==> (
                    #[trigger] self.schedule_subgraph[i]).0 > next_run_time,
            decreases pos,
        {
            pos -= 1;
        }
        let ghost before = self.schedule_subgraph@;
        let ghost w = (next_run_time, subgraph);
        proof {
            assert forall|i: int| 0 <= i < before.len() implies (due_at(next_run_time)(
                #[trigger] before[i],
            ) <==> 0 <= i < pos) by {
                if i < pos {
                    assert(before[i].0 <= before[pos - 1].0);
                }
            }
            assert forall|i: int| 0 <= i < before.len() implies (due_after(next_run_time)(
                #[trigger] before[i],
            ) <==> pos <= i < before.len()) by {
                assert(due_at(next_run_time)(before[i]) <==> 0 <= i < pos);
            }
            lemma_filter_band(before, due_at(next_run_time), 0, pos as int);
            lemma_filter_band(before, due_after(next_run_time), pos as int, before.len() as int);
        }
        self.schedule_subgraph.insert(pos, (next_run_time, subgraph));
        proof {
            let cur = self.schedule_subgraph@;
            assert(cur =~= before.subrange(0, pos as int) + seq![w] + before.subrange(
                pos as int,
                before.len() as int,
            ));
            assert forall|i: int, j: int| 0 <= i <= j < cur.len() implies cur[i].0 <= cur[j].0 by {
                let oi = if i < pos { i } else { i - 1 };
                let oj = if j < pos { j } else { j - 1 };
                if i != pos && j != pos {
                    assert(before[oi].0 <= before[oj].0);
                } else if i == pos && j != pos {
                    assert(due_after(next_run_time)(before[oj]));
                } else if j == pos && i != pos {
                    assert(due_at(next_run_time)(before[oi]));
                }
            }
        }
    }

    /// Asks that the current operator run again at the time of the earliest
    /// update that `arrange` holds beyond its frontier; asks for nothing where
    /// it holds none.
    pub fn schedule_for_arrange(&mut self, arrange: &Arrangement)
        requires
            old(self).wf(),
            old(self)@.cur_subgraph is Some,
            arrange.wf(),
        ensures
            final(self).wf(),
            final(self)@ == old(self)@.after_schedule_for(arrange@.earliest_future_time()),
    {
        if let Some(time) = arrange.earliest_future_time() {
            self.schedule_at(time);
        }
    }

    /// Takes the wake-ups that are due when the clock shows `now` and returns
    /// their operators, each once, in the order in which their wake-ups were
    /// due. Later wake-ups stay.
    pub fn take_due(&mut self, now: Timestamp) -> (due: Vec<SubgraphId>)
        requires
            old(self).wf(),
        ensures
            final(self).wf(),
            final(self)@ == old(self)@.after_take(now),
            due@ == old(self)@.due(now),
            due@.no_duplicates(),
            forall|g: SubgraphId| #[trigger] due@.contains(g) <==> old(self)@.is_due(g, now),
    {
        let mut end: usize = 0;
        while end < self.schedule_subgraph.len() && self.schedule_subgraph[end].0 <= now
            invariant
                self.wf(),
                *self == *old(self),
                end <= self.schedule_subgraph.len(),
                forall|i: int| 0 <= i < end ==> (#[trigger] self.schedule_subgraph[i]).0 <= now,
            decreases self.schedule_subgraph.len() - end,
        {
            end += 1;
        }
        let ghost before = self.schedule_subgraph@;
        proof {
            assert forall|i: int| 0 <= i < before.len() implies (due_at(now)(#[trigger] before[i])
                <==> 0 <= i < end) by {
                if i >= end {
                    assert(before[end as int].0 <= before[i].0);
                }
            }
            assert forall|i: int| 0 <= i < before.len() implies (due_after(now)(
                #[trigger] before[i],
            ) <==> end <= i < before.len()) by {
                assert(due_at(now)(before[i]) <==> 0 <= i < end);
            }
            lemma_filter_band(before, due_at(now), 0, end as int);
            lemma_filter_band(before, due_after(now), end as int, before.len() as int);
        }
        let ghost ids = subgraphs_of(before.subrange(0, end as int));
        let mut due: Vec<SubgraphId> = Vec::new();
        let mut i: usize = 0;
        while i < end
            invariant
                *self == *old(self),
                before == self.schedule_subgraph@,
                i <= end <= before.len(),
                ids == subgraphs_of(before.subrange(0, end as int)),
                due@ == distinct_prefix(ids, i as int),
            decreases end - i,
        {
            let subgraph = self.schedule_subgraph[i].1;
            assert(ids[i as int] == subgraph);
            let mut first = true;
            let mut j: usize = 0;
            while j < i && first
                invariant
                    *self == *old(self),
                    before == self.schedule_subgraph@,
                    j <= i < end <= before.len(),
                    ids == subgraphs_of(before.subrange(0, end as int)),
                    ids[i as int] == subgraph,
                    first ==> forall|k: int| 0 <= k < j ==> #[trigger] ids[k] != subgraph,
                    !first ==> exists|k: int| 0 <= k < i && #[trigger] ids[k] == subgraph,
                decreases i - j + if first { 1int } else { 0int },
            {
                assert(ids[j as int] == self.schedule_subgraph[j as int].1);
                if self.schedule_subgraph[j].1 == subgraph {
                    first = false;
                } else {
                    j += 1;
                }
            }
            if first {
                assert(first_mention(ids, i as int));
                due.push(subgraph);
            } else {
                assert(!first_mention(ids, i as int));
            }
            i += 1;
        }
        let mut rest = self.schedule_subgraph.split_off(end);
        self.schedule_subgraph.clear();
        self.schedule_subgraph.append(&mut rest);
        proof {
            let cur = self.schedule_subgraph@;
            assert(cur =~= before.subrange(end as int, before.len() as int));
            assert forall|i: int, j: int| 0 <= i <= j < cur.len() implies cur[i].0 <= cur[j].0 by {
                assert(cur[i] == before[i + end] && cur[j] == before[j + end]);
            }
            lemma_distinct_prefix(ids, end as int);
            assert forall|g: SubgraphId| #[trigger] due@.contains(g) <==> old(self)@.is_due(g, now) by {
                if due@.contains(g) {
                    let k = choose|k: int| 0 <= k < end && ids[k] == g;
                    assert(before[k].0 <= now && before[k].1 == g);
                }
                if old(self)@.is_due(g, now) {
                    let k = choose|k: int|
                        0 <= k < before.len() && (#[trigger] before[k]).0 <= now && before[k].1
                            == g;
                    assert(due_at(now)(before[k]));
                    assert(0 <= k < end && ids[k] == g);
                }
            }
        }
        due
    }
}

/// In a sequence ordered by time, the wake-ups due at `t` come first.
pub proof fn lemma_sorted_wakes_split(s: Seq<Wake>, t: Timestamp) -> (k: int)
    requires
        sorted_wakes(s),
    ensures
        0 <= k <= s.len(),
        forall|i: int| 0 <= i < k ==> (#[trigger] s[i]).0 <= t,
        forall|i: int| k <= i < s.len() ==> (#[trigger] s[i]).0 > t,
        s.filter(due_at(t)) == s.take(k),
        s.filter(due_after(t)) == s.skip(k),
    decreases s.len(),
{
    let k = if s.len() == 0 {
        0
    } else if s.last().0 <= t {
        assert forall|i: int| 0 <= i < s.len() implies (#[trigger] s[i]).0 <= t by {
            assert(s[i].0 <= s[s.len() - 1].0);
        }
        s.len() as int
    } else {
        let r = s.drop_last();
        assert(sorted_wakes(r)) by {
            assert forall|i: int, j: int| 0 <= i <= j < r.len() implies r[i].0 <= r[j].0 by {
                assert(r[i] == s[i] && r[j] == s[j]);
            }
        }
        let k = lemma_sorted_wakes_split(r, t);
        assert forall|i: int| 0 <= i < k implies (#[trigger] s[i]).0 <= t by {
            assert(s[i] == r[i]);
        }
        assert forall|i: int| k <= i < s.len() implies (#[trigger] s[i]).0 > t by {
            if i < r.len() {
                assert(s[i] == r[i]);
            }
        }
        k
    };
    assert forall|i: int| 0 <= i < s.len() implies (due_at(t)(#[trigger] s[i]) <==> 0 <= i < k) by {}
    assert forall|i: int| 0 <= i < s.len() implies (due_after(t)(#[trigger] s[i]) <==> k <= i
        < s.len()) by {}
    lemma_filter_band(s, due_at(t), 0, k);
    lemma_filter_band(s, due_after(t), k, s.len() as int);
    assert(s.subrange(0, k) =~= s.take(k));
    assert(s.subrange(k, s.len() as int) =~= s.skip(k));
    k
}

/// A wake-up that is asked for at `time` makes the current operator due once
/// the clock has reached `time`, and not before; who else is due, and when,
/// is as it was.
pub proof fn lemma_schedule_due(s: SchedulerView, time: Timestamp, g: SubgraphId, now: Timestamp)
    requires
        s.wf(),
        s.cur_subgraph is Some,
    ensures
        s.after_schedule(time).wf(),
        s.after_schedule(time).is_due(g, now) <==> s.is_due(g, now) || (g == s.cur_subgraph.unwrap()
            && time <= now),
{
    let w = (time, s.cur_subgraph.unwrap());
    let p = s.pending;
    let n = s.after_schedule(time).pending;
    let k = lemma_sorted_wakes_split(p, time);
    assert(n =~= p.insert(k, w));
    assert forall|i: int, j: int| 0 <= i <= j < n.len() implies n[i].0 <= n[j].0 by {
        let oi = if i < k { i } else { i - 1 };
        let oj = if j < k { j } else { j - 1 };
        if i != k && j != k {
            assert(p[oi].0 <= p[oj].0);
        } else if i == k && j != k {
            assert(p[oj].0 > time);
        } else if j == k && i != k {
            assert(p[oi].0 <= time);
        }
    }
    if s.after_schedule(time).is_due(g, now) {
        let i = choose|i: int| 0 <= i < n.len() && (#[trigger] n[i]).0 <= now && n[i].1 == g;
        if i != k {
            let oi = if i < k { i } else { i - 1 };
            assert(p[oi] == n[i]);
            assert(p[oi].0 <= now && p[oi].1 == g);
        }
    }
    if s.is_due(g, now) {
        let i = choose|i: int| 0 <= i < p.len() && (#[trigger] p[i]).0 <= now && p[i].1 == g;
        let ni = if i < k { i } else { i + 1 };
        assert(n[ni] == p[i]);
        assert(n[ni].0 <= now && n[ni].1 == g);
    }
    if g == s.cur_subgraph.unwrap() && time <= now {
        assert(n[k] == w);
        assert(n[k].0 <= now && n[k].1 == g);
    }
}

/// Once the wake-ups due at `now` are taken, no operator is due at `now` or
/// before, and who is due later is as it was: an operator is run once for the
/// wake-ups that have come.
pub proof fn lemma_take_due(s: SchedulerView, now: Timestamp, g: SubgraphId, later: Timestamp)
    requires
        s.wf(),
    ensures
        s.after_take(now).wf(),
        later <= now ==> !s.after_take(now).is_due(g, later),
        later > now ==> (s.after_take(now).is_due(g, later) <==> exists|i: int|
            0 <= i < s.pending.len() && now < (#[trigger] s.pending[i]).0 <= later
                && s.pending[i].1 == g),
{
    let p = s.pending;
    let n = s.after_take(now).pending;
    let k = lemma_sorted_wakes_split(p, now);
    assert(n == p.skip(k));
    assert forall|i: int, j: int| 0 <= i <= j < n.len() implies n[i].0 <= n[j].0 by {
        assert(n[i] == p[i + k] && n[j] == p[j + k]);
    }
    if s.after_take(now).is_due(g, later) {
        let i = choose|i: int| 0 <= i < n.len() && (#[trigger] n[i]).0 <= later && n[i].1 == g;
        assert(n[i] == p[i + k]);
        assert(now < p[i + k].0 <= later && p[i + k].1 == g);
    }
    if later > now && exists|i: int|
        0 <= i < p.len() && now < (#[trigger] p[i]).0 <= later && p[i].1 == g {
        let i = choose|i: int|
            0 <= i < p.len() && now < (#[trigger] p[i]).0 <= later && p[i].1 == g;
        assert(i >= k);
        assert(n[i - k] == p[i]);
        assert(n[i - k].0 <= later && n[i - k].1 == g);
    }
}

/// No early wake and no late wake. Where the current operator asks to be
/// woken for the arrangement `a`, what it asks for makes it due exactly when
/// an update that `a` holds beyond its frontier is due, and not before.
pub proof fn lemma_wake_when_update_is_due(s: SchedulerView, a: ArrangementView, now: Timestamp)
    requires
        s.wf(),
        s.cur_subgraph is Some,
        a.wf(),
    ensures
        s.after_schedule_for(a.earliest_future_time()).wf(),
        s.after_schedule_for(a.earliest_future_time()).is_due(s.cur_subgraph.unwrap(), now)
            <==> s.is_due(s.cur_subgraph.unwrap(), now) || exists|i: int|
            0 <= i < a.updates.len() && a.is_future(#[trigger] a.updates[i].1) && a.updates[i].1
                <= now,
{
    let g = s.cur_subgraph.unwrap();
    lemma_earliest_future_time(a);
    match a.earliest_future_time() {
        Some(t) => {
            lemma_schedule_due(s, t, g, now);
            if t <= now {
                let i = choose|i: int| 0 <= i < a.updates.len() && #[trigger] a.updates[i].1 == t;
                assert(a.is_future(a.updates[i].1) && a.updates[i].1 <= now);
            }
        },
        None => {},
    }
}

} // verus!
