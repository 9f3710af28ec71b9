//! A time-ordered store of keyed updates with a compaction frontier.
//!
//! An [`Arrangement`] keeps every update `((key, value), time, diff)` it was
//! given, ordered by time and, within one time, by arrival. Updates beyond the
//! frontier are kept as written; updates at or before it are consolidated: one
//! entry per `(key, value, time)`, carrying the sum of the multiplicities, and
//! none whose sum is zero.

use vstd::prelude::*;
use crate::filters::lemma_filter_band;
use crate::repr::{Diff, KeyValDiffRow, KeyValDiffRowView, Timestamp};

verus! {

/// Why an arrangement refused an operation. A refused operation changes nothing.
#[derive(Clone, Copy, Debug, PartialEq, Eq, Structural)]
pub enum ArrangementError {
    /// A write was dated before the compaction frontier.
    WriteBehindFrontier { time: Timestamp, frontier: Timestamp },
    /// A written update lies at or before the compaction frontier.
    UpdateBehindFrontier { frontier: Timestamp },
    /// The horizon of a compaction lies before the compaction frontier.
    CompactionBehindFrontier { horizon: Timestamp, frontier: Timestamp },
    /// The multiplicities of one key and value at one time sum beyond `Diff`.
    DiffOverflow,
}

/// Updates dated `t` or earlier.
pub open spec fn at_or_before(t: Timestamp) -> spec_fn(KeyValDiffRowView) -> bool {
    |u: KeyValDiffRowView| u.1 <= t
}

/// Updates dated later than `t`.
pub open spec fn after(t: Timestamp) -> spec_fn(KeyValDiffRowView) -> bool {
    |u: KeyValDiffRowView| u.1 > t
}

/// Updates dated from `from` through `to`, both included.
pub open spec fn within(from: Timestamp, to: Timestamp) -> spec_fn(KeyValDiffRowView) -> bool {
    |u: KeyValDiffRowView| from <= u.1 <= to
}

/// No update is dated before an earlier one in the sequence.
pub open spec fn sorted_by_time(s: Seq<KeyValDiffRowView>) -> bool {
    forall|i: int, j: int| 0 <= i <= j < s.len() ==> s[i].1 <= s[j].1
}

/// Two updates concern the same key and value at the same time.
pub open spec fn same_slot(a: KeyValDiffRowView, b: KeyValDiffRowView) -> bool {
    a.0 == b.0 && a.1 == b.1
}

/// Sum of the multiplicities that `s` holds for the slot of `u`.
pub open spec fn net_diff(s: Seq<KeyValDiffRowView>, u: KeyValDiffRowView) -> int
    decreases s.len(),
{
    if s.len() == 0 {
        0
    } else {
        net_diff(s.drop_last(), u) + if same_slot(s.last(), u) {
            s.last().2 as int
        } else {
            0
        }
    }
}

/// No update before index `i` has the slot of `s[i]`.
pub open spec fn first_of_slot(s: Seq<KeyValDiffRowView>, i: int) -> bool {
    forall|j: int| 0 <= j < i ==> !same_slot(#[trigger] s[j], s[i])
}

/// `d` can be held in a `Diff`.
pub open spec fn fits_diff(d: int) -> bool {
    i64::MIN <= d <= i64::MAX
}

/// Every slot of `s` has a net multiplicity that fits in a `Diff`.
pub open spec fn consolidates(s: Seq<KeyValDiffRowView>) -> bool {
    forall|i: int| 0 <= i < s.len() ==> fits_diff(net_diff(s, #[trigger] s[i]))
}

/// Consolidation of the slots that first occur among the first `n` updates of `s`.
pub open spec fn consolidate_prefix(s: Seq<KeyValDiffRowView>, n: int) -> Seq<KeyValDiffRowView>
    decreases n,
{
    if n <= 0 {
        Seq::empty()
    } else {
        let rest = consolidate_prefix(s, n - 1);
        let u = s[n - 1];
        let total = net_diff(s, u);
        if first_of_slot(s, n - 1) && total != 0 {
            rest.push((u.0, u.1, total as Diff))
        } else {
            rest
        }
    }
}

/// One update per slot of `s`, in the order in which the slots first occur,
/// carrying the slot's net multiplicity; slots whose net is zero are left out.
pub open spec fn consolidate(s: Seq<KeyValDiffRowView>) -> Seq<KeyValDiffRowView> {
    consolidate_prefix(s, s.len() as int)
}

/// `s` with `u` placed behind every update dated `u`'s time or earlier.
pub open spec fn insert_by_time(s: Seq<KeyValDiffRowView>, u: KeyValDiffRowView) -> Seq<
    KeyValDiffRowView,
> {
    s.filter(at_or_before(u.1)) + seq![u] + s.filter(after(u.1))
}

/// `s` after placing each update of `batch` by time, in the order of `batch`.
pub open spec fn insert_all(s: Seq<KeyValDiffRowView>, batch: Seq<KeyValDiffRowView>) -> Seq<
    KeyValDiffRowView,
>
    decreases batch.len(),
{
    if batch.len() == 0 {
        s
    } else {
        insert_by_time(insert_all(s, batch.drop_last()), batch.last())
    }
}

/// Mathematical model of an [`Arrangement`].
pub struct ArrangementView {
    /// Every update held, in the order in which reads return them.
    pub updates: Seq<KeyValDiffRowView>,
    /// Horizon of the last compaction, `None` before the first.
    pub frontier: Option<Timestamp>,
}

impl ArrangementView {
    /// `t` lies beyond the compaction frontier.
    pub open spec fn is_future(self, t: Timestamp) -> bool {
        match self.frontier {
            None => true,
            Some(f) => t > f,
        }
    }

    /// Updates are ordered by time, and those at or before the frontier are
    /// consolidated.
    pub open spec fn wf(self) -> bool {
        &&& sorted_by_time(self.updates)
        &&& forall|i: int|
            0 <= i < self.updates.len() && !self.is_future(#[trigger] self.updates[i].1)
                ==> self.updates[i].2 != 0
        &&& forall|i: int, j: int|
            0 <= i < self.updates.len() && 0 <= j < self.updates.len() && i != j
                && !self.is_future(self.updates[i].1) ==> !same_slot(
                #[trigger] self.updates[i],
                #[trigger] self.updates[j],
            )
    }

    /// The updates dated from `from` through `to`.
    pub open spec fn read_range(self, from: Timestamp, to: Timestamp) -> Seq<KeyValDiffRowView> {
        self.updates.filter(within(from, to))
    }

    /// `t` is the time of an update beyond the frontier, and no update beyond
    /// the frontier is earlier.
    pub open spec fn is_earliest_future_time(self, t: Timestamp) -> bool {
        &&& self.is_future(t)
        &&& exists|i: int| 0 <= i < self.updates.len() && #[trigger] self.updates[i].1 == t
        &&& forall|j: int|
            0 <= j < self.updates.len() && self.is_future(#[trigger] self.updates[j].1) ==> t
                <= self.updates[j].1
    }

    /// Some update lies beyond the frontier.
    pub open spec fn has_future(self) -> bool {
        exists|i: int| 0 <= i < self.updates.len() && self.is_future(#[trigger] self.updates[i].1)
    }

    /// Time of the earliest update beyond the frontier, if there is one.
    pub open spec fn earliest_future_time(self) -> Option<Timestamp> {
        if self.has_future() {
            Some(choose|t: Timestamp| self.is_earliest_future_time(t))
        } else {
            None
        }
    }

    /// What a write dated `now` of `batch` returns.
    pub open spec fn write_result(self, now: Timestamp, batch: Seq<KeyValDiffRowView>) -> Result<
        (),
        ArrangementError,
    > {
        match self.frontier {
            None => Ok(()),
            Some(f) => if now < f {
                Err(ArrangementError::WriteBehindFrontier { time: now, frontier: f })
            } else if exists|i: int| 0 <= i < batch.len() && #[trigger] batch[i].1 <= f {
                Err(ArrangementError::UpdateBehindFrontier { frontier: f })
            } else {
                Ok(())
            },
        }
    }

    /// The arrangement after a write dated `now` of `batch`.
    pub open spec fn after_write(self, now: Timestamp, batch: Seq<KeyValDiffRowView>) -> Self {
        if self.write_result(now, batch) is Ok {
            ArrangementView { updates: insert_all(self.updates, batch), frontier: self.frontier }
        } else {
            self
        }
    }

    /// What a compaction up to `horizon` returns.
    pub open spec fn compaction_result(self, horizon: Timestamp) -> Result<(), ArrangementError> {
        if self.frontier is Some && horizon < self.frontier.unwrap() {
            Err(
                ArrangementError::CompactionBehindFrontier {
                    horizon,
                    frontier: self.frontier.unwrap(),
                },
            )
        } else if !consolidates(self.updates.filter(at_or_before(horizon))) {
            Err(ArrangementError::DiffOverflow)
        } else {
            Ok(())
        }
    }

    /// The arrangement after a compaction up to `horizon`.
    pub open spec fn after_compaction(self, horizon: Timestamp) -> Self {
        if self.compaction_result(horizon) is Ok {
            ArrangementView {
                updates: consolidate(self.updates.filter(at_or_before(horizon)))
                    + self.updates.filter(after(horizon)),
                frontier: Some(horizon),
            }
        } else {
            self
        }
    }
}

/// The net multiplicity over a concatenation is the sum over its parts.
pub proof fn lemma_net_diff_add(
    a: Seq<KeyValDiffRowView>,
    b: Seq<KeyValDiffRowView>,
    u: KeyValDiffRowView,
)
    ensures
        net_diff(a + b, u) == net_diff(a, u) + net_diff(b, u),
    decreases b.len(),
{
    if b.len() == 0 {
        assert(a + b =~= a);
    } else {
        assert((a + b).drop_last() =~= a + b.drop_last());
        assert((a + b).last() == b.last());
        lemma_net_diff_add(a, b.drop_last(), u);
    }
}

/// A slot that does not occur has net multiplicity zero.
pub proof fn lemma_net_diff_absent(s: Seq<KeyValDiffRowView>, u: KeyValDiffRowView)
    requires
        forall|i: int| 0 <= i < s.len() ==> !same_slot(#[trigger] s[i], u),
    ensures
        net_diff(s, u) == 0,
    decreases s.len(),
{
    if s.len() > 0 {
        let t = s.drop_last();
        assert forall|i: int| 0 <= i < t.len() implies !same_slot(#[trigger] t[i], u) by {
            assert(t[i] == s[i]);
        }
        lemma_net_diff_absent(t, u);
        assert(s.last() == s[s.len() - 1]);
    }
}

/// The net multiplicity depends on the slot alone.
pub proof fn lemma_net_diff_same_slot(
    s: Seq<KeyValDiffRowView>,
    u: KeyValDiffRowView,
    v: KeyValDiffRowView,
)
    requires
        same_slot(u, v),
    ensures
        net_diff(s, u) == net_diff(s, v),
    decreases s.len(),
{
    if s.len() > 0 {
        lemma_net_diff_same_slot(s.drop_last(), u, v);
    }
}

/// A slot that occurs once has the multiplicity of that occurrence.
pub proof fn lemma_net_diff_unique(s: Seq<KeyValDiffRowView>, i: int)
    requires
        0 <= i < s.len(),
        forall|j: int| 0 <= j < s.len() && j != i ==> !same_slot(#[trigger] s[j], s[i]),
    ensures
        net_diff(s, s[i]) == s[i].2,
{
    let a = s.take(i);
    let m = seq![s[i]];
    let b = s.skip(i + 1);
    assert(s =~= a + m + b);
    lemma_net_diff_add(a + m, b, s[i]);
    lemma_net_diff_add(a, m, s[i]);
    assert forall|j: int| 0 <= j < a.len() implies !same_slot(#[trigger] a[j], s[i]) by {
        assert(a[j] == s[j]);
    }
    assert forall|j: int| 0 <= j < b.len() implies !same_slot(#[trigger] b[j], s[i]) by {
        assert(b[j] == s[j + i + 1]);
    }
    lemma_net_diff_absent(a, s[i]);
    lemma_net_diff_absent(b, s[i]);
    assert(m.drop_last() =~= Seq::<KeyValDiffRowView>::empty());
    assert(net_diff(m.drop_last(), s[i]) == 0);
    assert(m.last() == s[i]);
    assert(net_diff(m, s[i]) == s[i].2);
}

/// `e` is what consolidation makes of the slot that first occurs at `s[i]`.
pub open spec fn stems_from(e: KeyValDiffRowView, s: Seq<KeyValDiffRowView>, i: int) -> bool {
    &&& first_of_slot(s, i)
    &&& same_slot(e, s[i])
    &&& net_diff(s, s[i]) != 0
    &&& e.2 == net_diff(s, s[i]) as Diff
}

/// `e` is what consolidation makes of a slot that first occurs among the first
/// `n` updates of `s`.
pub open spec fn has_origin(e: KeyValDiffRowView, s: Seq<KeyValDiffRowView>, n: int) -> bool {
    exists|i: int| 0 <= i < n && stems_from(e, s, i)
}

/// What a consolidation holds: every update stems from a slot's first
/// occurrence, no two share a slot, and the order of times is kept.
pub proof fn lemma_consolidate_prefix(s: Seq<KeyValDiffRowView>, n: int)
    requires
        0 <= n <= s.len(),
    ensures
        forall|k: int|
            0 <= k < consolidate_prefix(s, n).len() ==> has_origin(
                #[trigger] consolidate_prefix(s, n)[k],
                s,
                n,
            ),
        forall|k: int, l: int|
            0 <= k < consolidate_prefix(s, n).len() && 0 <= l < consolidate_prefix(s, n).len() && k
                != l ==> !same_slot(
                #[trigger] consolidate_prefix(s, n)[k],
                #[trigger] consolidate_prefix(s, n)[l],
            ),
        sorted_by_time(s) ==> sorted_by_time(consolidate_prefix(s, n)),
        sorted_by_time(s) && n > 0 ==> forall|k: int|
            0 <= k < consolidate_prefix(s, n).len() ==> (#[trigger] consolidate_prefix(s, n)[k]).1
                <= s[n - 1].1,
    decreases n,
{
    if n > 0 {
        lemma_consolidate_prefix(s, n - 1);
        let rest = consolidate_prefix(s, n - 1);
        let cur = consolidate_prefix(s, n);
        let u = s[n - 1];
        let total = net_diff(s, u);
        let e = (u.0, u.1, total as Diff);
        let grows = first_of_slot(s, n - 1) && total != 0;
        assert(cur == if grows { rest.push(e) } else { rest });
        assert forall|k: int| 0 <= k < cur.len() implies has_origin(#[trigger] cur[k], s, n) by {
            if k < rest.len() {
                assert(cur[k] == rest[k]);
                assert(has_origin(rest[k], s, n - 1));
                let i = choose|i: int| 0 <= i < n - 1 && stems_from(rest[k], s, i);
                assert(0 <= i < n && stems_from(cur[k], s, i));
            } else {
                assert(cur[k] == e);
                assert(stems_from(cur[k], s, n - 1));
            }
        }
        assert forall|k: int, l: int|
            0 <= k < cur.len() && 0 <= l < cur.len() && k != l implies !same_slot(
            #[trigger] cur[k],
            #[trigger] cur[l],
        ) by {
            if k < rest.len() && l < rest.len() {
                assert(cur[k] == rest[k] && cur[l] == rest[l]);
            } else {
                let o = if k < rest.len() { k } else { l };
                assert(o < rest.len());
                assert(cur[o] == rest[o]);
                assert(has_origin(rest[o], s, n - 1));
                let i = choose|i: int| 0 <= i < n - 1 && stems_from(rest[o], s, i);
                assert(!same_slot(s[i], s[n - 1]));
            }
        }
        if sorted_by_time(s) {
            assert forall|k: int| 0 <= k < cur.len() implies (#[trigger] cur[k]).1 <= s[n - 1].1 by {
                if k < rest.len() {
                    assert(cur[k] == rest[k]);
                    assert(has_origin(rest[k], s, n - 1));
                    let i = choose|i: int| 0 <= i < n - 1 && stems_from(rest[k], s, i);
                    assert(s[i].1 <= s[n - 1].1);
                }
            }
            assert forall|k: int, l: int| 0 <= k <= l < cur.len() implies cur[k].1 <= cur[l].1 by {
                if l < rest.len() {
                    assert(cur[k] == rest[k] && cur[l] == rest[l]);
                }
            }
        }
    }
}

/// Updates that are consolidated already, and share no slot with what follows
/// them, are left as they are by a consolidation of the whole.
pub proof fn lemma_consolidate_settled(a: Seq<KeyValDiffRowView>, s: Seq<KeyValDiffRowView>)
    requires
        forall|i: int, j: int|
            0 <= i < a.len() && 0 <= j < a.len() && i != j ==> !same_slot(
                #[trigger] a[i],
                #[trigger] a[j],
            ),
        forall|i: int| 0 <= i < a.len() ==> (#[trigger] a[i]).2 != 0,
        forall|i: int, j: int|
            0 <= i < a.len() && 0 <= j < s.len() ==> !same_slot(#[trigger] a[i], #[trigger] s[j]),
    ensures
        consolidate(a + s) == a + consolidate(s),
        consolidates(a + s) <==> consolidates(s),
{
    let p = a + s;
    let m = a.len() as int;
    assert forall|i: int| 0 <= i < m implies net_diff(p, #[trigger] a[i]) == a[i].2 by {
        lemma_net_diff_add(a, s, a[i]);
        lemma_net_diff_unique(a, i);
        lemma_net_diff_absent(s, a[i]);
    }
    assert forall|j: int| 0 <= j < s.len() implies net_diff(p, #[trigger] s[j]) == net_diff(
        s,
        s[j],
    ) by {
        lemma_net_diff_add(a, s, s[j]);
        assert forall|i: int| 0 <= i < a.len() implies !same_slot(#[trigger] a[i], s[j]) by {}
        lemma_net_diff_absent(a, s[j]);
    }
    lemma_consolidate_settled_head(a, s, m);
    assert(a.take(m) =~= a);
    lemma_consolidate_settled_tail(a, s, s.len() as int);
    if consolidates(s) {
        assert forall|i: int| 0 <= i < p.len() implies fits_diff(net_diff(p, #[trigger] p[i])) by {
            if i < m {
                assert(p[i] == a[i]);
            } else {
                assert(p[i] == s[i - m]);
            }
        }
    }
    if consolidates(p) {
        assert forall|j: int| 0 <= j < s.len() implies fits_diff(net_diff(s, #[trigger] s[j])) by {
            assert(p[j + m] == s[j]);
        }
    }
}

proof fn lemma_consolidate_settled_head(
    a: Seq<KeyValDiffRowView>,
    s: Seq<KeyValDiffRowView>,
    n: int,
)
    requires
        0 <= n <= a.len(),
        forall|i: int, j: int|
            0 <= i < a.len() && 0 <= j < a.len() && i != j ==> !same_slot(
                #[trigger] a[i],
                #[trigger] a[j],
            ),
        forall|i: int| 0 <= i < a.len() ==> (#[trigger] a[i]).2 != 0,
        forall|i: int| 0 <= i < a.len() ==> net_diff(a + s, #[trigger] a[i]) == a[i].2,
    ensures
        consolidate_prefix(a + s, n) == a.take(n),
    decreases n,
{
    let p = a + s;
    if n <= 0 {
        assert(a.take(n) =~= Seq::<KeyValDiffRowView>::empty());
    } else {
        lemma_consolidate_settled_head(a, s, n - 1);
        let u = p[n - 1];
        assert(u == a[n - 1]);
        assert(first_of_slot(p, n - 1)) by {
            assert forall|j: int| 0 <= j < n - 1 implies !same_slot(#[trigger] p[j], p[n - 1]) by {
                assert(p[j] == a[j]);
            }
        }
        assert(net_diff(p, u) == u.2);
        assert((u.0, u.1, u.2) == u);
        assert(a.take(n - 1).push(u) =~= a.take(n));
    }
}

proof fn lemma_consolidate_settled_tail(
    a: Seq<KeyValDiffRowView>,
    s: Seq<KeyValDiffRowView>,
    k: int,
)
    requires
        0 <= k <= s.len(),
        forall|i: int, j: int|
            0 <= i < a.len() && 0 <= j < s.len() ==> !same_slot(#[trigger] a[i], #[trigger] s[j]),
        forall|j: int| 0 <= j < s.len() ==> net_diff(a + s, #[trigger] s[j]) == net_diff(s, s[j]),
        consolidate_prefix(a + s, a.len() as int) == a,
    ensures
        consolidate_prefix(a + s, a.len() + k) == a + consolidate_prefix(s, k),
    decreases k,
{
    let p = a + s;
    let m = a.len() as int;
    if k <= 0 {
        assert(a + consolidate_prefix(s, k) =~= a);
    } else {
        lemma_consolidate_settled_tail(a, s, k - 1);
        let u = p[m + k - 1];
        assert(u == s[k - 1]);
        if first_of_slot(s, k - 1) {
            assert forall|j: int| 0 <= j < m + k - 1 implies !same_slot(
                #[trigger] p[j],
                p[m + k - 1],
            ) by {
                if j < m {
                    assert(p[j] == a[j]);
                } else {
                    assert(p[j] == s[j - m]);
                }
            }
        }
        if first_of_slot(p, m + k - 1) {
            assert forall|j: int| 0 <= j < k - 1 implies !same_slot(#[trigger] s[j], s[k - 1]) by {
                assert(p[j + m] == s[j]);
            }
        }
        let rest = consolidate_prefix(s, k - 1);
        let e = (u.0, u.1, net_diff(s, u) as Diff);
        assert((a + rest).push(e) =~= a + rest.push(e));
    }
}

/// Whether two updates concern the same key and value at the same time.
fn same_slot_of(a: &KeyValDiffRow, b: &KeyValDiffRow) -> (same: bool)
    ensures
        same == same_slot(a.deep_view(), b.deep_view()),
{
    a.1 == b.1 && a.0.0.same_as(&b.0.0) && a.0.1.same_as(&b.0.1)
}

/// A time-ordered store of keyed updates with a compaction frontier.
pub struct Arrangement {
    /// Every update held, ordered by time and, within one time, by arrival.
    spine: Vec<KeyValDiffRow>,
    /// Number of updates at or before the frontier; they come first.
    settled: usize,
    /// Horizon of the last compaction.
    last_compaction_time: Option<Timestamp>,
}

impl View for Arrangement {
    type V = ArrangementView;

    closed spec fn view(&self) -> ArrangementView {
        ArrangementView { updates: self.spine.deep_view(), frontier: self.last_compaction_time }
    }
}

impl Arrangement {
    /// The arrangement's representation is consistent.
    pub closed spec fn wf(&self) -> bool {
        &&& self@.wf()
        &&& self.settled <= self.spine.len()
        &&& forall|i: int| 0 <= i < self.settled ==> !self@.is_future(#[trigger] self.spine[i].1)
        &&& forall|i: int|
            self.settled <= i < self.spine.len() ==> self@.is_future(#[trigger] self.spine[i].1)
    }

    /// A well-formed arrangement has a well-formed model.
    pub proof fn lemma_wf_view(&self)
        requires
            self.wf(),
        ensures
            self@.wf(),
    {
    }

    /// An arrangement without updates that was never compacted.
    pub fn new() -> (a: Arrangement)
        ensures
            a.wf(),
            a@.updates == Seq::<KeyValDiffRowView>::empty(),
            a@.frontier is None,
    {
        let a = Arrangement { spine: Vec::new(), settled: 0, last_compaction_time: None };
        assert(a@.updates =~= Seq::<KeyValDiffRowView>::empty());
        a
    }

    /// Horizon of the last compaction, `None` before the first.
    pub fn last_compaction_time(&self) -> (t: Option<Timestamp>)
        ensures
            t == self@.frontier,
    {
        self.last_compaction_time
    }

    /// Time of the earliest update beyond the frontier, if there is one.
    pub fn earliest_future_time(&self) -> (t: Option<Timestamp>)
        requires
            self.wf(),
        ensures
            t == self@.earliest_future_time(),
            t is Some <==> self@.has_future(),
            t is Some ==> self@.is_earliest_future_time(t.unwrap()),
    {
        if self.settled < self.spine.len() {
            let t = self.spine[self.settled].1;
            proof {
                let k = self.settled as int;
                assert(self@.updates[k].1 == t);
                assert(self@.is_future(self@.updates[k].1));
                assert(self@.is_earliest_future_time(t)) by {
                    assert forall|j: int|
                        0 <= j < self@.updates.len() && self@.is_future(
                            #[trigger] self@.updates[j].1,
                        ) implies t <= self@.updates[j].1 by {
                        assert(self.spine[j].1 == self@.updates[j].1);
                        assert(j >= k);
                    }
                }
                let c = choose|t: Timestamp| self@.is_earliest_future_time(t);
                assert(self@.is_earliest_future_time(c));
                let ic = choose|i: int|
                    0 <= i < self@.updates.len() && #[trigger] self@.updates[i].1 == c;
                assert(t <= self@.updates[ic].1);
                assert(c <= self@.updates[k].1);
            }
            Some(t)
        } else {
            proof {
                assert forall|i: int| 0 <= i < self@.updates.len() implies !self@.is_future(
                    #[trigger] self@.updates[i].1,
                ) by {
                    assert(self.spine[i].1 == self@.updates[i].1);
                }
            }
            None
        }
    }

    /// Places `u`, which lies beyond the frontier, behind every update dated
    /// `u`'s time or earlier.
    fn place(&mut self, u: KeyValDiffRow)
        requires
            old(self).wf(),
            old(self)@.is_future(u.1),
        ensures
            final(self).wf(),
            final(self)@.frontier == old(self)@.frontier,
            final(self)@.updates == insert_by_time(old(self)@.updates, u.deep_view()),
    {
        let ts = u.1;
        let mut pos: usize = self.spine.len();
        while pos > self.settled && self.spine[pos - 1].1 > ts
            invariant
                self.wf(),
                self.settled <= pos <= self.spine.len(),
                forall|i: int| pos <= i < self.spine.len() ==> #[trigger] self.spine[i].1 > ts,
            decreases pos,
        {
            pos -= 1;
        }
        let ghost before = self.spine.deep_view();
        proof {
            assert forall|i: int| 0 <= i < pos implies (#[trigger] before[i]).1 <= ts by {
                assert(before[i].1 == self.spine[i].1);
                if pos > self.settled {
                    assert(before[pos - 1].1 == self.spine[pos - 1].1);
                    assert(before[i].1 <= before[pos - 1].1);
                }
            }
            assert forall|i: int| pos <= i < before.len() implies (#[trigger] before[i]).1 > ts by {
                assert(before[i].1 == self.spine[i].1);
            }
            lemma_insert_at(self@, u.deep_view(), pos as int);
        }
        self.spine.insert(pos, u);
        proof {
            assert(self.spine.deep_view() =~= before.insert(pos as int, u.deep_view()));
            assert forall|i: int| 0 <= i < self.settled implies !self@.is_future(
                #[trigger] self.spine[i].1,
            ) by {
                assert(self.spine[i].1 == before[i].1);
                assert(before[i].1 == old(self).spine[i].1);
            }
            assert forall|i: int| self.settled <= i < self.spine.len() implies self@.is_future(
                #[trigger] self.spine[i].1,
            ) by {
                if i != pos {
                    let oi = if i < pos { i } else { i - 1 };
                    assert(self.spine[i].1 == before[oi].1);
                    assert(before[oi].1 == old(self).spine[oi].1);
                }
            }
        }
    }

    /// Adds `updates`, written at time `now`, each one behind the updates dated
    /// its time or earlier.
    ///
    /// The write is refused as a whole, and nothing changes, where `now` lies
    /// before the compaction frontier or some update lies at or before it.
    pub fn write(&mut self, now: Timestamp, updates: Vec<KeyValDiffRow>) -> (r: Result<
        (),
        ArrangementError,
    >)
        requires
            old(self).wf(),
        ensures
            final(self).wf(),
            r == old(self)@.write_result(now, updates.deep_view()),
            final(self)@ == old(self)@.after_write(now, updates.deep_view()),
    {
        let ghost batch = updates.deep_view();
        if let Some(f) = self.last_compaction_time {
            if now < f {
                return Err(ArrangementError::WriteBehindFrontier { time: now, frontier: f });
            }
            let mut i: usize = 0;
            while i < updates.len()
                invariant
                    i <= updates.len(),
                    batch == updates.deep_view(),
                    self.wf(),
                    *self == *old(self),
                    self.last_compaction_time == Some(f),
                    now >= f,
                    forall|k: int| 0 <= k < i ==> #[trigger] batch[k].1 > f,
                decreases updates.len() - i,
            {
                if updates[i].1 <= f {
                    assert(batch[i as int].1 <= f);
                    return Err(ArrangementError::UpdateBehindFrontier { frontier: f });
                }
                i += 1;
            }
        }
        let ghost start = self@;
        let ghost items = updates@;
        assert(batch.take(0) =~= Seq::<KeyValDiffRowView>::empty());
        for u in it: updates
            invariant
                self.wf(),
                self@.frontier == start.frontier,
                it.seq() == items,
                batch.len() == items.len(),
                forall|k: int| 0 <= k < items.len() ==> batch[k] == #[trigger] items[k].deep_view(),
                forall|k: int| 0 <= k < batch.len() ==> start.is_future(#[trigger] batch[k].1),
                self@.updates == insert_all(start.updates, batch.take(it.index() as int)),
        {
            proof {
                let n = it.index() as int;
                assert(batch.take(n + 1).drop_last() =~= batch.take(n));
                assert(batch.take(n + 1).last() == batch[n]);
                assert(u == items[n]);
                assert(batch[n] == items[n].deep_view());
                assert(start.is_future(batch[n].1));
            }
            self.place(u);
        }
        assert(batch.take(batch.len() as int) =~= batch);
        Ok(())
    }

    /// Consolidation of the updates at the indices from `start` up to `end`,
    /// or `None` where the multiplicities of some slot sum beyond `Diff`.
    fn consolidate_range(&self, start: usize, end: usize) -> (r: Option<Vec<KeyValDiffRow>>)
        requires
            start <= end <= self.spine.len(),
        ensures
            r is Some <==> consolidates(self.spine.deep_view().subrange(start as int, end as int)),
            r is Some ==> r.unwrap().deep_view() == consolidate(
                self.spine.deep_view().subrange(start as int, end as int),
            ),
    {
        let ghost sec = self.spine.deep_view().subrange(start as int, end as int);
        let mut out: Vec<KeyValDiffRow> = Vec::new();
        let mut i: usize = start;
        assert(out.deep_view() =~= consolidate_prefix(sec, 0));
        while i < end
            invariant
                start <= i <= end <= self.spine.len(),
                sec == self.spine.deep_view().subrange(start as int, end as int),
                out.deep_view() == consolidate_prefix(sec, i - start),
                forall|k: int| 0 <= k < i - start ==> fits_diff(net_diff(sec, #[trigger] sec[k])),
            decreases end - i,
        {
            let ghost u = sec[i - start];
            assert(u == self.spine[i as int].deep_view());
            let mut first = true;
            let mut j: usize = start;
            let ghost mut twin: int = 0;
            while j < i && first
                invariant
                    start <= j <= i < end <= self.spine.len(),
                    sec == self.spine.deep_view().subrange(start as int, end as int),
                    u == sec[i - start],
                    first ==> forall|k: int| 0 <= k < j - start ==> !same_slot(#[trigger] sec[k], u),
                    !first ==> 0 <= twin < i - start && same_slot(sec[twin], u),
                decreases i - j + if first { 1int } else { 0int },
            {
                assert(sec[j - start] == self.spine[j as int].deep_view());
                if same_slot_of(&self.spine[j], &self.spine[i]) {
                    first = false;
                    proof {
                        twin = j - start;
                    }
                } else {
                    j += 1;
                }
            }
            if first {
                assert(first_of_slot(sec, i - start));
                let mut total: i128 = 0;
                let mut j: usize = start;
                assert(sec.take(0) =~= Seq::<KeyValDiffRowView>::empty());
                while j < end
                    invariant
                        start <= j <= end <= self.spine.len(),
                        i < end,
                        start <= i,
                        sec == self.spine.deep_view().subrange(start as int, end as int),
                        u == sec[i - start],
                        total == net_diff(sec.take(j - start), u),
                        -(j - start) * 0x8000_0000_0000_0000 <= total <= (j - start)
                            * 0x8000_0000_0000_0000,
                    decreases end - j,
                {
                    assert(sec[j - start] == self.spine[j as int].deep_view());
                    proof {
                        assert(sec.take(j - start + 1).drop_last() =~= sec.take(j - start));
                        assert(sec.take(j - start + 1).last() == sec[j - start]);
                    }
                    if same_slot_of(&self.spine[j], &self.spine[i]) {
                        total = total + self.spine[j].2 as i128;
                    }
                    j += 1;
                }
                assert(sec.take(end - start) =~= sec);
                if total < i64::MIN as i128 || total > i64::MAX as i128 {
                    assert(!fits_diff(net_diff(sec, sec[i - start])));
                    return None;
                }
                if total != 0 {
                    let key = self.spine[i].0.0.clone();
                    let val = self.spine[i].0.1.clone();
                    let ghost before = out.deep_view();
                    out.push(((key, val), self.spine[i].1, total as i64));
                    assert(out.deep_view() =~= before.push((u.0, u.1, total as Diff)));
                }
            } else {
                proof {
                    lemma_net_diff_same_slot(sec, sec[twin], u);
                    assert(!first_of_slot(sec, i - start));
                }
            }
            i += 1;
        }
        Some(out)
    }

    /// Consolidates the updates dated `horizon` or earlier and moves the
    /// frontier to `horizon`.
    ///
    /// Afterwards every key and value has, at each time up to `horizon`, one
    /// update that carries the sum of its multiplicities at that time, or none
    /// where that sum is zero; later updates are as they were. The compaction is
    /// refused, and nothing changes, where `horizon` lies before the frontier or
    /// such a sum is beyond `Diff`. A frontier, once set, never moves back.
    pub fn compaction(&mut self, horizon: Timestamp) -> (r: Result<(), ArrangementError>)
        requires
            old(self).wf(),
        ensures
            final(self).wf(),
            r == old(self)@.compaction_result(horizon),
            final(self)@ == old(self)@.after_compaction(horizon),
            old(self)@.frontier is Some ==> final(self)@.frontier is Some
                && final(self)@.frontier.unwrap() >= old(self)@.frontier.unwrap(),
    {
        if let Some(f) = self.last_compaction_time {
            if horizon < f {
                return Err(
                    ArrangementError::CompactionBehindFrontier { horizon, frontier: f },
                );
            }
        }
        let mut end: usize = self.settled;
        while end < self.spine.len() && self.spine[end].1 <= horizon
            invariant
                self.wf(),
                *self == *old(self),
                self.settled <= end <= self.spine.len(),
                forall|i: int| self.settled <= i < end ==> #[trigger] self.spine[i].1 <= horizon,
            decreases self.spine.len() - end,
        {
            end += 1;
        }
        let ghost before = self.spine.deep_view();
        let ghost m = self.settled as int;
        let ghost k = end as int;
        proof {
            assert(parts_at(self@, horizon, m, k)) by {
                assert forall|i: int| 0 <= i < before.len() implies before[i].1
                    == #[trigger] self.spine[i].1 by {}
                assert forall|i: int| 0 <= i < k implies (#[trigger] before[i]).1 <= horizon by {
                    assert(before[i].1 == self.spine[i].1);
                    if i < m {
                        assert(!self@.is_future(self.spine[i].1));
                    }
                }
                assert forall|i: int| k <= i < before.len() implies (#[trigger] before[i]).1
                    > horizon by {
                    assert(before[k].1 == self.spine[k].1);
                    assert(before[k].1 <= before[i].1);
                }
                assert forall|i: int| 0 <= i < m implies !self@.is_future(
                    #[trigger] before[i].1,
                ) by {
                    assert(before[i].1 == self.spine[i].1);
                }
                assert forall|i: int| m <= i < before.len() implies self@.is_future(
                    #[trigger] before[i].1,
                ) by {
                    assert(before[i].1 == self.spine[i].1);
                }
            }
            lemma_compaction_parts(self@, horizon, m, k);
        }
        let mut merged = match self.consolidate_range(self.settled, end) {
            Some(merged) => merged,
            None => {
                return Err(ArrangementError::DiffOverflow);
            },
        };
        let ghost fresh = merged.deep_view();
        let mut tail = self.spine.split_off(end);
        self.spine.truncate(self.settled);
        self.spine.append(&mut merged);
        self.settled = self.spine.len();
        self.spine.append(&mut tail);
        self.last_compaction_time = Some(horizon);
        proof {
            let head = before.take(m);
            let rest = before.skip(k);
            let after_view = self.spine.deep_view();
            assert(after_view =~= head + fresh + rest);
            lemma_parts_of(old(self)@, horizon, m, k);
            lemma_parts_wf(head, fresh, rest, old(self)@.frontier, horizon);
            let c = fresh.len() as int;
            assert forall|i: int| 0 <= i < self.settled implies !self@.is_future(
                #[trigger] self.spine[i].1,
            ) by {
                assert(self.spine[i].1 == after_view[i].1);
                if i < m {
                    assert(after_view[i] == head[i]);
                    assert(head[i] == before[i]);
                } else {
                    assert(after_view[i] == fresh[i - m]);
                }
            }
            assert forall|i: int| self.settled <= i < self.spine.len() implies self@.is_future(
                #[trigger] self.spine[i].1,
            ) by {
                assert(self.spine[i].1 == after_view[i].1);
                assert(after_view[i] == rest[i - m - c]);
            }
        }
        Ok(())
    }

    /// The updates dated from `from` through `to`, both included, in the order
    /// in which the arrangement holds them. The arrangement is left as it is.
    pub fn read_range(&self, from: Timestamp, to: Timestamp) -> (out: Vec<KeyValDiffRow>)
        requires
            self.wf(),
        ensures
            out.deep_view() == self@.read_range(from, to),
    {
        let ghost s = self.spine.deep_view();
        // what lies at or before the frontier is skipped where the range begins beyond it
        let start: usize = match self.last_compaction_time {
            Some(frontier) => if from > frontier { self.settled } else { 0 },
            None => 0,
        };
        let mut out: Vec<KeyValDiffRow> = Vec::new();
        let mut i: usize = start;
        proof {
            reveal(Seq::filter);
            assert(s.subrange(start as int, start as int) =~= Seq::<KeyValDiffRowView>::empty());
            assert(out.deep_view() =~= Seq::<KeyValDiffRowView>::empty());
        }
        while i < self.spine.len() && self.spine[i].1 <= to
            invariant
                start <= i <= self.spine.len(),
                s == self.spine.deep_view(),
                out.deep_view() == s.subrange(start as int, i as int).filter(within(from, to)),
            decreases self.spine.len() - i,
        {
            let ts = self.spine[i].1;
            let ghost before = out.deep_view();
            proof {
                let prefix = s.subrange(start as int, i as int);
                prefix.lemma_filter_push(s[i as int], within(from, to));
                assert(s.subrange(start as int, i + 1) =~= prefix.push(s[i as int]));
            }
            if from <= ts {
                let key = self.spine[i].0.0.clone();
                let val = self.spine[i].0.1.clone();
                out.push(((key, val), ts, self.spine[i].2));
                assert(out.deep_view() =~= before.push(s[i as int]));
            }
            i += 1;
        }
        proof {
            let p = within(from, to);
            let head = s.subrange(0, start as int);
            let mid = s.subrange(start as int, i as int);
            let tail = s.subrange(i as int, s.len() as int);
            assert forall|k: int| 0 <= k < head.len() implies !p(#[trigger] head[k]) by {
                assert(head[k] == s[k]);
                assert(s[k].1 == self.spine[k].1);
                assert(!self@.is_future(self.spine[k].1));
            }
            assert forall|k: int| 0 <= k < tail.len() implies !p(#[trigger] tail[k]) by {
                assert(tail[k] == s[k + i]);
                assert(s[i as int].1 == self.spine[i as int].1);
                assert(s[i as int].1 <= s[k + i].1);
            }
            lemma_filter_band(head, p, 0, 0);
            lemma_filter_band(tail, p, 0, 0);
            assert(head.subrange(0, 0) =~= Seq::<KeyValDiffRowView>::empty());
            assert(tail.subrange(0, 0) =~= Seq::<KeyValDiffRowView>::empty());
            assert(s =~= head + mid + tail);
            Seq::filter_distributes_over_add(head + mid, tail, p);
            Seq::filter_distributes_over_add(head, mid, p);
            assert(s.filter(p) =~= mid.filter(p));
        }
        out
    }
}

/// Where the updates dated `t` or earlier are the first `k` of a sequence,
/// they are what the filters by time cut out.
pub proof fn lemma_split_at(s: Seq<KeyValDiffRowView>, t: Timestamp, k: int)
    requires
        0 <= k <= s.len(),
        forall|i: int| 0 <= i < k ==> (#[trigger] s[i]).1 <= t,
        forall|i: int| k <= i < s.len() ==> (#[trigger] s[i]).1 > t,
    ensures
        s.filter(at_or_before(t)) == s.take(k),
        s.filter(after(t)) == s.skip(k),
{
    assert forall|i: int| 0 <= i < s.len() implies (at_or_before(t)(#[trigger] s[i]) <==> 0 <= i
        < k) by {}
    assert forall|i: int| 0 <= i < s.len() implies (after(t)(#[trigger] s[i]) <==> k <= i
        < s.len()) by {}
    lemma_filter_band(s, at_or_before(t), 0, k);
    lemma_filter_band(s, after(t), k, s.len() as int);
    assert(s.subrange(0, k) =~= s.take(k));
    assert(s.subrange(k, s.len() as int) =~= s.skip(k));
}

/// In a sequence ordered by time, the updates dated `t` or earlier come
/// first: there is a place that parts them from the later ones.
pub proof fn lemma_sorted_split(s: Seq<KeyValDiffRowView>, t: Timestamp) -> (k: int)
    requires
        sorted_by_time(s),
    ensures
        0 <= k <= s.len(),
        forall|i: int| 0 <= i < k ==> (#[trigger] s[i]).1 <= t,
        forall|i: int| k <= i < s.len() ==> (#[trigger] s[i]).1 > t,
        s.filter(at_or_before(t)) == s.take(k),
        s.filter(after(t)) == s.skip(k),
    decreases s.len(),
{
    let k = if s.len() == 0 {
        0
    } else if s.last().1 <= t {
        assert forall|i: int| 0 <= i < s.len() implies (#[trigger] s[i]).1 <= t by {
            assert(s[i].1 <= s[s.len() - 1].1);
        }
        s.len() as int
    } else {
        let r = s.drop_last();
        assert(sorted_by_time(r)) by {
            assert forall|i: int, j: int| 0 <= i <= j < r.len() implies r[i].1 <= r[j].1 by {
                assert(r[i] == s[i] && r[j] == s[j]);
            }
        }
        let k = lemma_sorted_split(r, t);
        assert forall|i: int| 0 <= i < k implies (#[trigger] s[i]).1 <= t by {
            assert(s[i] == r[i]);
        }
        assert forall|i: int| k <= i < s.len() implies (#[trigger] s[i]).1 > t by {
            if i < r.len() {
                assert(s[i] == r[i]);
            }
        }
        k
    };
    lemma_split_at(s, t, k);
    k
}

/// Placing an update that lies beyond the frontier puts it at the place `k`
/// that parts the updates dated its time or earlier from the later ones, and
/// keeps the arrangement well formed.
pub proof fn lemma_insert_at(a: ArrangementView, u: KeyValDiffRowView, k: int)
    requires
        a.wf(),
        a.is_future(u.1),
        0 <= k <= a.updates.len(),
        forall|i: int| 0 <= i < k ==> (#[trigger] a.updates[i]).1 <= u.1,
        forall|i: int| k <= i < a.updates.len() ==> (#[trigger] a.updates[i]).1 > u.1,
    ensures
        insert_by_time(a.updates, u) == a.updates.insert(k, u),
        (ArrangementView { updates: insert_by_time(a.updates, u), frontier: a.frontier }).wf(),
{
    let s = a.updates;
    lemma_split_at(s, u.1, k);
    let n = insert_by_time(s, u);
    let b = ArrangementView { updates: n, frontier: a.frontier };
    assert(n =~= s.insert(k, u));
    assert forall|i: int, j: int| 0 <= i <= j < n.len() implies n[i].1 <= n[j].1 by {
        let oi = if i < k { i } else { i - 1 };
        let oj = if j < k { j } else { j - 1 };
        if i != k && j != k {
            assert(s[oi].1 <= s[oj].1);
        } else if i == k && j != k {
            assert(s[oj].1 > u.1);
        } else if j == k && i != k {
            assert(s[oi].1 <= u.1);
        }
    }
    assert forall|i: int| 0 <= i < n.len() && !b.is_future(#[trigger] n[i].1) implies n[i].2
        != 0 by {
        let oi = if i < k { i } else { i - 1 };
        assert(n[i] == s[oi]);
    }
    assert forall|i: int, j: int|
        0 <= i < n.len() && 0 <= j < n.len() && i != j && !b.is_future(
            n[i].1,
        ) implies !same_slot(#[trigger] n[i], #[trigger] n[j]) by {
        let oi = if i < k { i } else { i - 1 };
        let oj = if j < k { j } else { j - 1 };
        assert(n[i] == s[oi]);
        if j != k {
            assert(n[j] == s[oj]);
            assert(!same_slot(s[oi], s[oj]));
        }
    }
}

/// Placing an update that lies beyond the frontier keeps an arrangement well
/// formed, and adds the update to what the arrangement held.
pub proof fn lemma_insert_by_time_wf(a: ArrangementView, u: KeyValDiffRowView)
    requires
        a.wf(),
        a.is_future(u.1),
    ensures
        (ArrangementView { updates: insert_by_time(a.updates, u), frontier: a.frontier }).wf(),
        forall|x: KeyValDiffRowView| a.updates.contains(x) ==> #[trigger] insert_by_time(
            a.updates,
            u,
        ).contains(x),
        insert_by_time(a.updates, u).contains(u),
{
    let s = a.updates;
    let k = lemma_sorted_split(s, u.1);
    lemma_insert_at(a, u, k);
    let n = insert_by_time(s, u);
    assert forall|x: KeyValDiffRowView| s.contains(x) implies #[trigger] n.contains(x) by {
        let i = choose|i: int| 0 <= i < s.len() && s[i] == x;
        let ni = if i < k { i } else { i + 1 };
        assert(n[ni] == x);
    }
    assert(n[k] == u);
}

/// A write keeps an arrangement well formed, and whatever it held it holds still.
pub proof fn lemma_after_write_wf(a: ArrangementView, now: Timestamp, batch: Seq<KeyValDiffRowView>)
    requires
        a.wf(),
    ensures
        a.after_write(now, batch).wf(),
        a.after_write(now, batch).frontier == a.frontier,
        forall|x: KeyValDiffRowView| a.updates.contains(x) ==> #[trigger] a.after_write(
            now,
            batch,
        ).updates.contains(x),
        a.write_result(now, batch) is Ok ==> forall|i: int|
            0 <= i < batch.len() ==> a.after_write(now, batch).updates.contains(
                #[trigger] batch[i],
            ),
    decreases batch.len(),
{
    if a.write_result(now, batch) is Ok {
        assert forall|k: int| 0 <= k < batch.len() implies a.is_future(#[trigger] batch[k].1) by {}
        lemma_insert_all_wf(a, batch);
    }
}

/// Placing updates that lie beyond the frontier keeps an arrangement well formed.
pub proof fn lemma_insert_all_wf(a: ArrangementView, batch: Seq<KeyValDiffRowView>)
    requires
        a.wf(),
        forall|k: int| 0 <= k < batch.len() ==> a.is_future(#[trigger] batch[k].1),
    ensures
        (ArrangementView { updates: insert_all(a.updates, batch), frontier: a.frontier }).wf(),
        forall|x: KeyValDiffRowView| a.updates.contains(x) ==> #[trigger] insert_all(
            a.updates,
            batch,
        ).contains(x),
        forall|i: int| 0 <= i < batch.len() ==> insert_all(a.updates, batch).contains(
            #[trigger] batch[i],
        ),
    decreases batch.len(),
{
    if batch.len() > 0 {
        let rest = batch.drop_last();
        assert forall|k: int| 0 <= k < rest.len() implies a.is_future(#[trigger] rest[k].1) by {
            assert(rest[k] == batch[k]);
        }
        lemma_insert_all_wf(a, rest);
        let mid = ArrangementView { updates: insert_all(a.updates, rest), frontier: a.frontier };
        assert(a.is_future(batch[batch.len() - 1].1));
        lemma_insert_by_time_wf(mid, batch.last());
        let n = insert_all(a.updates, batch);
        assert(n == insert_by_time(mid.updates, batch.last()));
        assert forall|x: KeyValDiffRowView| a.updates.contains(x) implies #[trigger] n.contains(
            x,
        ) by {
            assert(mid.updates.contains(x));
        }
        assert forall|i: int| 0 <= i < batch.len() implies n.contains(#[trigger] batch[i]) by {
            if i < rest.len() {
                assert(rest[i] == batch[i]);
                assert(mid.updates.contains(rest[i]));
            }
        }
    }
}

/// The parts of an arrangement that a compaction up to `horizon` tells apart:
/// `m` updates at or before the frontier, the updates from there up to place
/// `k`, which lie beyond the frontier and are dated `horizon` or earlier, and
/// the later ones.
pub open spec fn parts_at(a: ArrangementView, horizon: Timestamp, m: int, k: int) -> bool {
    let s = a.updates;
    &&& 0 <= m <= k <= s.len()
    &&& forall|i: int| 0 <= i < m ==> !a.is_future(#[trigger] s[i].1)
    &&& forall|i: int| m <= i < s.len() ==> a.is_future(#[trigger] s[i].1)
    &&& forall|i: int| 0 <= i < k ==> (#[trigger] s[i]).1 <= horizon
    &&& forall|i: int| k <= i < s.len() ==> (#[trigger] s[i]).1 > horizon
}

/// What a consolidation of the middle part holds.
pub open spec fn fresh_part(
    a: ArrangementView,
    horizon: Timestamp,
    fresh: Seq<KeyValDiffRowView>,
) -> bool {
    &&& sorted_by_time(fresh)
    &&& forall|i: int|
        0 <= i < fresh.len() ==> a.is_future((#[trigger] fresh[i]).1) && fresh[i].1 <= horizon
            && fresh[i].2 != 0
    &&& forall|i: int, j: int|
        0 <= i < fresh.len() && 0 <= j < fresh.len() && i != j ==> !same_slot(
            #[trigger] fresh[i],
            #[trigger] fresh[j],
        )
}

/// There are places that tell the parts of a well-formed arrangement apart.
pub proof fn lemma_parts_exist(a: ArrangementView, horizon: Timestamp) -> (r: (int, int))
    requires
        a.wf(),
        a.frontier is Some ==> a.frontier.unwrap() <= horizon,
    ensures
        parts_at(a, horizon, r.0, r.1),
{
    let s = a.updates;
    let k = lemma_sorted_split(s, horizon);
    let m = match a.frontier {
        Some(f) => lemma_sorted_split(s, f),
        None => 0,
    };
    assert(m <= k) by {
        if m > k {
            assert(s[k].1 > horizon);
        }
    }
    assert forall|i: int| 0 <= i < m implies !a.is_future(#[trigger] s[i].1) by {}
    assert forall|i: int| m <= i < s.len() implies a.is_future(#[trigger] s[i].1) by {}
    (m, k)
}

/// A compaction of the parts told apart at `m` and `k` consolidates the
/// middle part and leaves the others: the first part is consolidated already
/// and shares no slot with the middle one.
pub proof fn lemma_compaction_parts(a: ArrangementView, horizon: Timestamp, m: int, k: int)
    requires
        a.wf(),
        a.frontier is Some ==> a.frontier.unwrap() <= horizon,
        parts_at(a, horizon, m, k),
    ensures
        a.updates.filter(at_or_before(horizon)) == a.updates.take(k),
        a.updates.filter(after(horizon)) == a.updates.skip(k),
        a.frontier is Some ==> a.updates.filter(at_or_before(a.frontier.unwrap()))
            == a.updates.take(m),
        a.frontier is None ==> m == 0,
        consolidates(a.updates.take(k)) <==> consolidates(a.updates.subrange(m, k)),
        consolidate(a.updates.take(k)) == a.updates.take(m) + consolidate(
            a.updates.subrange(m, k),
        ),
        a.compaction_result(horizon) is Ok <==> consolidates(a.updates.subrange(m, k)),
        a.compaction_result(horizon) is Ok ==> fresh_part(
            a,
            horizon,
            consolidate(a.updates.subrange(m, k)),
        ) && a.after_compaction(horizon).updates == a.updates.take(m) + consolidate(
            a.updates.subrange(m, k),
        ) + a.updates.skip(k),
{
    let s = a.updates;
    lemma_split_at(s, horizon, k);
    if a.frontier is Some {
        assert forall|i: int| 0 <= i < m implies (#[trigger] s[i]).1 <= a.frontier.unwrap() by {
            assert(!a.is_future(s[i].1));
        }
        assert forall|i: int| m <= i < s.len() implies (#[trigger] s[i]).1
            > a.frontier.unwrap() by {
            assert(a.is_future(s[i].1));
        }
        lemma_split_at(s, a.frontier.unwrap(), m);
    } else if m > 0 {
        assert(!a.is_future(s[0].1));
    }
    let head = s.take(m);
    let sec = s.subrange(m, k);
    assert(s.take(k) =~= head + sec);
    assert forall|i: int, j: int|
        0 <= i < head.len() && 0 <= j < head.len() && i != j implies !same_slot(
        #[trigger] head[i],
        #[trigger] head[j],
    ) by {
        assert(head[i] == s[i] && head[j] == s[j]);
        assert(!a.is_future(s[i].1));
    }
    assert forall|i: int| 0 <= i < head.len() implies (#[trigger] head[i]).2 != 0 by {
        assert(head[i] == s[i]);
        assert(!a.is_future(s[i].1));
    }
    assert forall|i: int, j: int| 0 <= i < head.len() && 0 <= j < sec.len() implies !same_slot(
        #[trigger] head[i],
        #[trigger] sec[j],
    ) by {
        assert(head[i] == s[i] && sec[j] == s[j + m]);
        assert(!a.is_future(s[i].1));
        assert(a.is_future(s[j + m].1));
    }
    lemma_consolidate_settled(head, sec);
    if a.compaction_result(horizon) is Ok {
        let fresh = consolidate(sec);
        lemma_consolidate_prefix(sec, sec.len() as int);
        assert(sorted_by_time(sec)) by {
            assert forall|i: int, j: int| 0 <= i <= j < sec.len() implies sec[i].1 <= sec[j].1 by {
                assert(sec[i] == s[i + m] && sec[j] == s[j + m]);
            }
        }
        assert forall|i: int| 0 <= i < fresh.len() implies a.is_future((#[trigger] fresh[i]).1)
            && fresh[i].1 <= horizon && fresh[i].2 != 0 by {
            assert(has_origin(fresh[i], sec, sec.len() as int));
            let o = choose|o: int| 0 <= o < sec.len() && stems_from(fresh[i], sec, o);
            assert(sec[o] == s[o + m]);
            assert(a.is_future(s[o + m].1));
            assert(fits_diff(net_diff(sec, sec[o])));
        }
    }
}

/// The three parts that a compaction leaves: `head` at or before the old
/// frontier, `fresh` beyond it and up to `horizon`, `rest` after `horizon`;
/// each ordered by time, the first two consolidated.
pub open spec fn compacted_parts(
    head: Seq<KeyValDiffRowView>,
    fresh: Seq<KeyValDiffRowView>,
    rest: Seq<KeyValDiffRowView>,
    frontier: Option<Timestamp>,
    horizon: Timestamp,
) -> bool {
    &&& sorted_by_time(head)
    &&& sorted_by_time(fresh)
    &&& sorted_by_time(rest)
    &&& frontier is Some ==> frontier.unwrap() <= horizon
    &&& head.len() > 0 ==> frontier is Some
    &&& forall|i: int|
        0 <= i < head.len() ==> (#[trigger] head[i]).1 <= frontier.unwrap() && head[i].2 != 0
    &&& forall|i: int|
        0 <= i < fresh.len() ==> (frontier is Some ==> (#[trigger] fresh[i]).1
            > frontier.unwrap()) && fresh[i].1 <= horizon && fresh[i].2 != 0
    &&& forall|i: int| 0 <= i < rest.len() ==> (#[trigger] rest[i]).1 > horizon
    &&& forall|i: int, j: int|
        0 <= i < head.len() && 0 <= j < head.len() && i != j ==> !same_slot(
            #[trigger] head[i],
            #[trigger] head[j],
        )
    &&& forall|i: int, j: int|
        0 <= i < fresh.len() && 0 <= j < fresh.len() && i != j ==> !same_slot(
            #[trigger] fresh[i],
            #[trigger] fresh[j],
        )
}

/// The three parts in a row are ordered by time.
proof fn lemma_parts_sorted(
    head: Seq<KeyValDiffRowView>,
    fresh: Seq<KeyValDiffRowView>,
    rest: Seq<KeyValDiffRowView>,
    frontier: Option<Timestamp>,
    horizon: Timestamp,
)
    requires
        compacted_parts(head, fresh, rest, frontier, horizon),
    ensures
        sorted_by_time(head + fresh + rest),
{
    let n = head + fresh + rest;
    let m = head.len() as int;
    let c = fresh.len() as int;
    assert forall|i: int, j: int| 0 <= i <= j < n.len() implies n[i].1 <= n[j].1 by {
        if i < m {
            assert(n[i] == head[i]);
            if j < m {
                assert(n[j] == head[j]);
            } else if j < m + c {
                assert(n[j] == fresh[j - m]);
            } else {
                assert(n[j] == rest[j - m - c]);
            }
        } else if i < m + c {
            assert(n[i] == fresh[i - m]);
            if j < m + c {
                assert(n[j] == fresh[j - m]);
            } else {
                assert(n[j] == rest[j - m - c]);
            }
        } else {
            assert(n[i] == rest[i - m - c]);
            assert(n[j] == rest[j - m - c]);
        }
    }
}

/// The three parts in a row are consolidated up to `horizon`.
proof fn lemma_parts_consolidated(
    head: Seq<KeyValDiffRowView>,
    fresh: Seq<KeyValDiffRowView>,
    rest: Seq<KeyValDiffRowView>,
    frontier: Option<Timestamp>,
    horizon: Timestamp,
)
    requires
        compacted_parts(head, fresh, rest, frontier, horizon),
    ensures
        forall|i: int|
            0 <= i < (head + fresh + rest).len() && (#[trigger] (head + fresh + rest)[i]).1
                <= horizon ==> (head + fresh + rest)[i].2 != 0,
        forall|i: int, j: int|
            0 <= i < (head + fresh + rest).len() && 0 <= j < (head + fresh + rest).len() && i != j
                && (head + fresh + rest)[i].1 <= horizon ==> !same_slot(
                #[trigger] (head + fresh + rest)[i],
                #[trigger] (head + fresh + rest)[j],
            ),
{
    let n = head + fresh + rest;
    let m = head.len() as int;
    let c = fresh.len() as int;
    assert forall|i: int| 0 <= i < n.len() && (#[trigger] n[i]).1 <= horizon implies n[i].2
        != 0 by {
        if i < m {
            assert(n[i] == head[i]);
        } else if i < m + c {
            assert(n[i] == fresh[i - m]);
        } else {
            assert(n[i] == rest[i - m - c]);
        }
    }
    assert forall|i: int, j: int|
        0 <= i < n.len() && 0 <= j < n.len() && i != j && n[i].1 <= horizon implies !same_slot(
        #[trigger] n[i],
        #[trigger] n[j],
    ) by {
        if i >= m + c {
            assert(n[i] == rest[i - m - c]);
        } else if j >= m + c {
            assert(n[j] == rest[j - m - c]);
        } else if i < m {
            assert(n[i] == head[i]);
            if j < m {
                assert(n[j] == head[j]);
            } else {
                assert(n[j] == fresh[j - m]);
            }
        } else {
            assert(n[i] == fresh[i - m]);
            if j < m {
                assert(n[j] == head[j]);
            } else {
                assert(n[j] == fresh[j - m]);
            }
        }
    }
}

/// Of the three parts in a row, the first is what lies at or before the old
/// frontier, and the last is what lies after `horizon`.
proof fn lemma_parts_filters(
    head: Seq<KeyValDiffRowView>,
    fresh: Seq<KeyValDiffRowView>,
    rest: Seq<KeyValDiffRowView>,
    frontier: Option<Timestamp>,
    horizon: Timestamp,
)
    requires
        compacted_parts(head, fresh, rest, frontier, horizon),
    ensures
        frontier is Some ==> (head + fresh + rest).filter(at_or_before(frontier.unwrap())) == head,
        (head + fresh + rest).filter(after(horizon)) == rest,
{
    let n = head + fresh + rest;
    let m = head.len() as int;
    let c = fresh.len() as int;
    if frontier is Some {
        let f = frontier.unwrap();
        assert forall|i: int| 0 <= i < n.len() implies (at_or_before(f)(#[trigger] n[i]) <==> 0 <= i
            < m) by {
            if i < m {
                assert(n[i] == head[i]);
            } else if i < m + c {
                assert(n[i] == fresh[i - m]);
            } else {
                assert(n[i] == rest[i - m - c]);
            }
        }
        lemma_filter_band(n, at_or_before(f), 0, m);
        assert(n.subrange(0, m) =~= head);
    }
    assert forall|i: int| 0 <= i < n.len() implies (after(horizon)(#[trigger] n[i]) <==> m + c <= i
        < n.len()) by {
        if i < m {
            assert(n[i] == head[i]);
        } else if i < m + c {
            assert(n[i] == fresh[i - m]);
        } else {
            assert(n[i] == rest[i - m - c]);
        }
    }
    lemma_filter_band(n, after(horizon), m + c, n.len() as int);
    assert(n.subrange(m + c, n.len() as int) =~= rest);
}

/// The parts that a compaction tells apart are parts as it leaves them.
proof fn lemma_parts_of(a: ArrangementView, horizon: Timestamp, m: int, k: int)
    requires
        a.wf(),
        parts_at(a, horizon, m, k),
        a.frontier is Some ==> a.frontier.unwrap() <= horizon,
        fresh_part(a, horizon, consolidate(a.updates.subrange(m, k))),
    ensures
        compacted_parts(
            a.updates.take(m),
            consolidate(a.updates.subrange(m, k)),
            a.updates.skip(k),
            a.frontier,
            horizon,
        ),
{
    let s = a.updates;
    let head = s.take(m);
    let rest = s.skip(k);
    let fresh = consolidate(a.updates.subrange(m, k));
    assert forall|i: int|
        0 <= i < fresh.len() implies (a.frontier is Some ==> (#[trigger] fresh[i]).1
        > a.frontier.unwrap()) && fresh[i].1 <= horizon && fresh[i].2 != 0 by {
        assert(a.is_future(fresh[i].1));
    }
    assert forall|i: int, j: int| 0 <= i <= j < head.len() implies head[i].1 <= head[j].1 by {
        assert(head[i] == s[i] && head[j] == s[j]);
    }
    assert forall|i: int, j: int| 0 <= i <= j < rest.len() implies rest[i].1 <= rest[j].1 by {
        assert(rest[i] == s[i + k] && rest[j] == s[j + k]);
    }
    if head.len() > 0 {
        assert(head[0] == s[0]);
        assert(!a.is_future(s[0].1));
    }
    assert forall|i: int| 0 <= i < head.len() implies (#[trigger] head[i]).1
        <= a.frontier.unwrap() && head[i].2 != 0 by {
        assert(head[i] == s[i]);
        assert(!a.is_future(s[i].1));
    }
    assert forall|i: int| 0 <= i < rest.len() implies (#[trigger] rest[i]).1 > horizon by {
        assert(rest[i] == s[i + k]);
    }
    assert forall|i: int, j: int|
        0 <= i < head.len() && 0 <= j < head.len() && i != j implies !same_slot(
        #[trigger] head[i],
        #[trigger] head[j],
    ) by {
        assert(head[i] == s[i] && head[j] == s[j]);
        assert(!a.is_future(s[i].1));
    }
}

/// The three parts in a row make a well-formed arrangement with its frontier
/// at `horizon`.
proof fn lemma_parts_wf(
    head: Seq<KeyValDiffRowView>,
    fresh: Seq<KeyValDiffRowView>,
    rest: Seq<KeyValDiffRowView>,
    frontier: Option<Timestamp>,
    horizon: Timestamp,
)
    requires
        compacted_parts(head, fresh, rest, frontier, horizon),
    ensures
        (ArrangementView { updates: head + fresh + rest, frontier: Some(horizon) }).wf(),
{
    lemma_parts_sorted(head, fresh, rest, frontier, horizon);
    lemma_parts_consolidated(head, fresh, rest, frontier, horizon);
}

/// What a compaction makes of a well-formed arrangement: it stays well formed,
/// its frontier does not move back, the updates at or before the old frontier
/// and those after the horizon are as they were.
pub proof fn lemma_after_compaction(a: ArrangementView, horizon: Timestamp)
    requires
        a.wf(),
    ensures
        a.after_compaction(horizon).wf(),
        a.frontier is Some ==> a.after_compaction(horizon).frontier is Some && a.after_compaction(
            horizon,
        ).frontier.unwrap() >= a.frontier.unwrap(),
        a.frontier is Some ==> a.after_compaction(horizon).updates.filter(
            at_or_before(a.frontier.unwrap()),
        ) == a.updates.filter(at_or_before(a.frontier.unwrap())),
        a.after_compaction(horizon).updates.filter(after(horizon)) == a.updates.filter(
            after(horizon),
        ),
{
    if a.compaction_result(horizon) is Ok {
        let (m, k) = lemma_parts_exist(a, horizon);
        lemma_compaction_parts(a, horizon, m, k);
        let head = a.updates.take(m);
        let fresh = consolidate(a.updates.subrange(m, k));
        let rest = a.updates.skip(k);
        lemma_parts_of(a, horizon, m, k);
        lemma_parts_wf(head, fresh, rest, a.frontier, horizon);
        lemma_parts_filters(head, fresh, rest, a.frontier, horizon);
        assert(a.after_compaction(horizon) == (ArrangementView {
            updates: head + fresh + rest,
            frontier: Some(horizon),
        }));
    }
}

/// Updates that are consolidated already are left as they are by a
/// consolidation: where no slot occurs twice and no multiplicity is zero,
/// there is nothing to sum up and nothing to drop.
pub proof fn lemma_consolidate_of_consolidated(s: Seq<KeyValDiffRowView>)
    requires
        forall|i: int, j: int|
            0 <= i < s.len() && 0 <= j < s.len() && i != j ==> !same_slot(
                #[trigger] s[i],
                #[trigger] s[j],
            ),
        forall|i: int| 0 <= i < s.len() ==> (#[trigger] s[i]).2 != 0,
    ensures
        consolidates(s),
        consolidate(s) == s,
{
    let none = Seq::<KeyValDiffRowView>::empty();
    lemma_consolidate_settled(s, none);
    assert(s + none =~= s);
    assert(consolidate(none) =~= none);
    assert(consolidates(none));
}

/// Consolidating twice is consolidating once.
pub proof fn lemma_consolidate_twice(s: Seq<KeyValDiffRowView>)
    requires
        consolidates(s),
    ensures
        consolidate(consolidate(s)) == consolidate(s),
{
    let once = consolidate(s);
    lemma_consolidate_prefix(s, s.len() as int);
    assert forall|i: int| 0 <= i < once.len() implies (#[trigger] once[i]).2 != 0 by {
        assert(has_origin(once[i], s, s.len() as int));
        let o = choose|o: int| 0 <= o < s.len() && stems_from(once[i], s, o);
        assert(fits_diff(net_diff(s, s[o])));
    }
    lemma_consolidate_of_consolidated(once);
}

/// A consolidation keeps the net multiplicity of every slot.
pub proof fn lemma_consolidate_keeps_net(s: Seq<KeyValDiffRowView>, u: KeyValDiffRowView)
    requires
        consolidates(s),
    ensures
        net_diff(consolidate(s), u) == net_diff(s, u),
{
    lemma_consolidate_prefix_net(s, s.len() as int, u);
    if !exists|i: int| 0 <= i < s.len() && same_slot(#[trigger] s[i], u) {
        lemma_net_diff_absent(s, u);
    }
}

/// The consolidation of the slots that first occur among the first `n`
/// updates holds, for a slot that occurs among them, its net multiplicity in
/// the whole, and nothing for any other slot.
proof fn lemma_consolidate_prefix_net(s: Seq<KeyValDiffRowView>, n: int, u: KeyValDiffRowView)
    requires
        0 <= n <= s.len(),
        consolidates(s),
    ensures
        net_diff(consolidate_prefix(s, n), u) == if exists|i: int|
            0 <= i < n && same_slot(#[trigger] s[i], u) {
            net_diff(s, u)
        } else {
            0
        },
    decreases n,
{
    if n > 0 {
        lemma_consolidate_prefix_net(s, n - 1, u);
        let rest = consolidate_prefix(s, n - 1);
        let last = s[n - 1];
        let total = net_diff(s, last);
        let e = (last.0, last.1, total as Diff);
        assert(fits_diff(total));
        if first_of_slot(s, n - 1) && total != 0 {
            assert(rest.push(e).drop_last() =~= rest);
            assert(rest.push(e).last() == e);
        }
        if same_slot(last, u) {
            lemma_net_diff_same_slot(s, last, u);
            if first_of_slot(s, n - 1) {
                assert(!exists|i: int| 0 <= i < n - 1 && same_slot(#[trigger] s[i], u)) by {
                    if exists|i: int| 0 <= i < n - 1 && same_slot(#[trigger] s[i], u) {
                        let i = choose|i: int| 0 <= i < n - 1 && same_slot(#[trigger] s[i], u);
                        assert(same_slot(s[i], s[n - 1]));
                    }
                }
            } else {
                let j = choose|j: int| 0 <= j < n - 1 && same_slot(#[trigger] s[j], s[n - 1]);
                assert(same_slot(s[j], u));
            }
        } else {
            if exists|i: int| 0 <= i < n && same_slot(#[trigger] s[i], u) {
                let i = choose|i: int| 0 <= i < n && same_slot(#[trigger] s[i], u);
                assert(0 <= i < n - 1 && same_slot(s[i], u));
            }
        }
    }
}

/// Consolidating the first `k` updates of a sequence keeps the net
/// multiplicity of every slot in the whole.
proof fn lemma_consolidate_front_keeps_net(s: Seq<KeyValDiffRowView>, k: int, u: KeyValDiffRowView)
    requires
        0 <= k <= s.len(),
        consolidates(s.take(k)),
    ensures
        net_diff(consolidate(s.take(k)) + s.skip(k), u) == net_diff(s, u),
{
    let early = s.take(k);
    let late = s.skip(k);
    assert(s =~= early + late);
    lemma_consolidate_keeps_net(early, u);
    lemma_net_diff_add(consolidate(early), late, u);
    lemma_net_diff_add(early, late, u);
}

/// A compaction keeps the net multiplicity of every key and value at every
/// time: what a reader sums up is what it would have summed up before.
pub proof fn lemma_compaction_keeps_net(
    a: ArrangementView,
    horizon: Timestamp,
    u: KeyValDiffRowView,
)
    requires
        a.wf(),
    ensures
        net_diff(a.after_compaction(horizon).updates, u) == net_diff(a.updates, u),
{
    if a.compaction_result(horizon) is Ok {
        let k = lemma_sorted_split(a.updates, horizon);
        lemma_consolidate_front_keeps_net(a.updates, k, u);
    }
}

/// Of two compactions in a row, the second with the earlier horizon, the
/// second neither moves the frontier back nor changes what lies at or before
/// it. Where the first was carried out, the second is refused and changes
/// nothing at all.
pub proof fn lemma_compaction_monotonic(a: ArrangementView, h1: Timestamp, h2: Timestamp)
    requires
        a.wf(),
        h2 < h1,
    ensures
        ({
            let first = a.after_compaction(h1);
            let second = first.after_compaction(h2);
            &&& first.frontier is Some ==> second.frontier is Some && second.frontier.unwrap()
                >= first.frontier.unwrap()
            &&& first.frontier is Some ==> second.updates.filter(
                at_or_before(first.frontier.unwrap()),
            ) == first.updates.filter(at_or_before(first.frontier.unwrap()))
            &&& a.compaction_result(h1) is Ok ==> second == first && first.compaction_result(h2)
                == Err::<(), _>(
                ArrangementError::CompactionBehindFrontier { horizon: h2, frontier: h1 },
            )
        }),
{
    lemma_after_compaction(a, h1);
    lemma_after_compaction(a.after_compaction(h1), h2);
}

/// The earliest time beyond the frontier of a well-formed arrangement is the
/// time of an update beyond the frontier, and of the earliest such.
pub proof fn lemma_earliest_future_time(a: ArrangementView)
    requires
        a.wf(),
    ensures
        a.earliest_future_time() is Some <==> a.has_future(),
        a.earliest_future_time() matches Some(t) ==> a.is_earliest_future_time(t),
{
    if a.has_future() {
        let s = a.updates;
        let m = match a.frontier {
            Some(f) => lemma_sorted_split(s, f),
            None => 0,
        };
        let w = choose|i: int| 0 <= i < s.len() && a.is_future(#[trigger] s[i].1);
        assert(m <= w);
        let t = s[m].1;
        assert(a.is_earliest_future_time(t)) by {
            assert forall|j: int| 0 <= j < s.len() && a.is_future(#[trigger] s[j].1) implies t
                <= s[j].1 by {
                assert(m <= j);
            }
        }
    }
}

/// Reading one range twice from an arrangement that was not changed in between
/// returns the same updates in the same order.
pub proof fn lemma_read_range_repeatable(
    a: &Arrangement,
    from: Timestamp,
    to: Timestamp,
    first: Vec<KeyValDiffRow>,
    second: Vec<KeyValDiffRow>,
)
    requires
        first.deep_view() == a@.read_range(from, to),
        second.deep_view() == a@.read_range(from, to),
    ensures
        first.deep_view() == second.deep_view(),
{
}

} // verus!
