//! One activation of a map-filter-project operator.
//!
//! An operator is activated when input has arrived or when a wake-up that it
//! asked for is due. It evaluates its plan on the input, writes the updates
//! that result into its arrangement, hands on those that have become due since
//! it last ran, compacts the arrangement up to the present, and asks to be
//! woken for the earliest update that is still to come.

use vstd::prelude::*;
use crate::arrangement::{Arrangement, ArrangementView};
use crate::error::{arrangement_errors, ErrCollector, RuntimeError};
use crate::filters::{lemma_filter_agree, lemma_filter_band};
use crate::linear::{evaluated_views, EvaluatedView, MfpPlan, MfpPlanView};
use crate::repr::{DiffRow, DiffRowView, KeyValDiffRow, KeyValDiffRowView, Row, Timestamp, Value};
use crate::scheduler::Scheduler;

verus! {

/// The updates among the evaluation results `rs`, each keyed by its row and
/// with an empty value.
pub open spec fn kept(rs: Seq<EvaluatedView>) -> Seq<KeyValDiffRowView>
    decreases rs.len(),
{
    if rs.len() == 0 {
        Seq::empty()
    } else {
        kept(rs.drop_last()) + match rs.last() {
            Ok((row, time, diff)) => seq![((row, Seq::<Value>::empty()), time, diff)],
            Err(_) => Seq::empty(),
        }
    }
}

/// The errors among the evaluation results `rs`.
pub open spec fn failed(rs: Seq<EvaluatedView>) -> Seq<RuntimeError>
    decreases rs.len(),
{
    if rs.len() == 0 {
        Seq::empty()
    } else {
        failed(rs.drop_last()) + match rs.last() {
            Ok(_) => Seq::empty(),
            Err((e, _, _)) => seq![RuntimeError::Eval(e)],
        }
    }
}

/// The updates that `plan` makes of the rows of `input` when the clock shows
/// `now`, row by row. The time that a row of the input states is not read.
pub open spec fn updates_of(plan: MfpPlanView, input: Seq<DiffRowView>, now: Timestamp) -> Seq<
    KeyValDiffRowView,
>
    decreases input.len(),
{
    if input.len() == 0 {
        Seq::empty()
    } else {
        updates_of(plan, input.drop_last(), now) + kept(
            plan.evaluate(input.last().0, now, input.last().2),
        )
    }
}

/// The errors that `plan` meets on the rows of `input` when the clock shows
/// `now`, row by row.
pub open spec fn errors_of(plan: MfpPlanView, input: Seq<DiffRowView>, now: Timestamp) -> Seq<
    RuntimeError,
>
    decreases input.len(),
{
    if input.len() == 0 {
        Seq::empty()
    } else {
        errors_of(plan, input.drop_last(), now) + failed(
            plan.evaluate(input.last().0, now, input.last().2),
        )
    }
}

/// Updates beyond `frontier` that are dated `now` or earlier.
pub open spec fn due_since(frontier: Option<Timestamp>, now: Timestamp) -> spec_fn(
    KeyValDiffRowView,
) -> bool {
    |u: KeyValDiffRowView|
        (match frontier {
            None => true,
            Some(f) => u.1 > f,
        }) && u.1 <= now
}

/// The update without its value.
pub open spec fn key_only(u: KeyValDiffRowView) -> DiffRowView {
    (u.0.0, u.1, u.2)
}

/// The errors of the arrangement in an activation that writes `updates` when
/// the clock shows `now`: that of the write, where it is refused, then that of
/// the compaction, where it is refused.
pub open spec fn refusals(
    arrange: ArrangementView,
    updates: Seq<KeyValDiffRowView>,
    now: Timestamp,
) -> Seq<RuntimeError> {
    arrangement_errors(arrange.write_result(now, updates)) + arrangement_errors(
        arrange.after_write(now, updates).compaction_result(now),
    )
}

/// What one activation does.
pub struct Activation {
    /// The arrangement after the activation.
    pub arrangement: ArrangementView,
    /// The updates handed on.
    pub output: Seq<DiffRowView>,
    /// The errors recorded, in the order in which they occurred.
    pub errors: Seq<RuntimeError>,
    /// The time for which a wake-up is asked, if any.
    pub wake: Option<Timestamp>,
}

/// The activation of an operator with plan `plan` and arrangement `arrange`
/// on the batch `input` when the clock shows `now`.
pub open spec fn activation(
    plan: MfpPlanView,
    arrange: ArrangementView,
    input: Seq<DiffRowView>,
    now: Timestamp,
) -> Activation {
    let updates = updates_of(plan, input, now);
    let written = arrange.after_write(now, updates);
    let compacted = written.after_compaction(now);
    Activation {
        arrangement: compacted,
        output: written.updates.filter(due_since(written.frontier, now)).map_values(
            |u: KeyValDiffRowView| key_only(u),
        ),
        errors: errors_of(plan, input, now) + refusals(arrange, updates, now),
        wake: compacted.earliest_future_time(),
    }
}

/// The core of the operator: evaluates `mfp_plan` on every row of `input` at
/// the time `now`. Returns the updates that result, keyed by the output row
/// and with an empty value, in the order of the input. A row that cannot be
/// evaluated adds its error to `err_collector` and nothing to the result; the
/// other rows are not touched by it.
pub fn eval_mfp_core(
    input: Vec<DiffRow>,
    mfp_plan: &MfpPlan,
    now: Timestamp,
    err_collector: &mut ErrCollector,
) -> (all_updates: Vec<KeyValDiffRow>)
    ensures
        all_updates.deep_view() == updates_of(mfp_plan@, input.deep_view(), now),
        final(err_collector)@ == old(err_collector)@ + errors_of(
            mfp_plan@,
            input.deep_view(),
            now,
        ),
{
    let ghost batch = input.deep_view();
    let ghost items = input@;
    let ghost plan = mfp_plan@;
    let ghost errors0 = err_collector@;
    let mut all_updates: Vec<KeyValDiffRow> = Vec::new();
    assert(batch.take(0) =~= Seq::<DiffRowView>::empty());
    assert(all_updates.deep_view() =~= Seq::<KeyValDiffRowView>::empty());
    assert(errors0 + Seq::<RuntimeError>::empty() =~= errors0);
    for row in it: input
        invariant
            it.seq() == items,
            plan == mfp_plan@,
            batch.len() == items.len(),
            forall|k: int| 0 <= k < items.len() ==> batch[k] == #[trigger] items[k].deep_view(),
            all_updates.deep_view() == updates_of(plan, batch.take(it.index() as int), now),
            err_collector@ == errors0 + errors_of(plan, batch.take(it.index() as int), now),
    {
        let ghost n = it.index() as int;
        let ghost before = all_updates.deep_view();
        let ghost errors1 = err_collector@;
        proof {
            assert(row == items[n]);
            assert(batch[n] == items[n].deep_view());
            assert(batch.take(n + 1).drop_last() =~= batch.take(n));
            assert(batch.take(n + 1).last() == batch[n]);
        }
        let (row, _sys_time, diff) = row;
        let updates = mfp_plan.evaluate(row.unpack(), now, diff);
        let ghost results = evaluated_views(updates@);
        let ghost outcomes = updates@;
        assert(results == plan.evaluate(batch[n].0, now, batch[n].2));
        assert(results.take(0) =~= Seq::<EvaluatedView>::empty());
        assert(before + Seq::<KeyValDiffRowView>::empty() =~= before);
        assert(errors1 + Seq::<RuntimeError>::empty() =~= errors1);
        for r in inner: updates
            invariant
                inner.seq() == outcomes,
                results == evaluated_views(outcomes),
                all_updates.deep_view() == before + kept(results.take(inner.index() as int)),
                err_collector@ == errors1 + failed(results.take(inner.index() as int)),
        {
            let ghost m = inner.index() as int;
            let ghost so_far = all_updates.deep_view();
            proof {
                assert(r == outcomes[m]);
                assert(results.take(m + 1).drop_last() =~= results.take(m));
                assert(results.take(m + 1).last() == results[m]);
            }
            match r {
                Ok((key, ts, diff)) => {
                    let ghost kv = key@;
                    all_updates.push(((key, Row::empty()), ts, diff));
                    assert(all_updates.deep_view() =~= so_far.push(
                        ((kv, Seq::<Value>::empty()), ts, diff),
                    ));
                    assert(so_far.push(((kv, Seq::<Value>::empty()), ts, diff)) =~= before + kept(
                        results.take(m + 1),
                    ));
                    assert(err_collector@ =~= errors1 + failed(results.take(m + 1)));
                },
                Err((err, _ts, _diff)) => {
                    err_collector.push_err(RuntimeError::Eval(err));
                    assert(err_collector@ =~= errors1 + failed(results.take(m + 1)));
                    assert(all_updates.deep_view() =~= before + kept(results.take(m + 1)));
                },
            }
        }
        proof {
            assert(results.take(results.len() as int) =~= results);
            assert(all_updates.deep_view() =~= updates_of(plan, batch.take(n + 1), now));
            assert(err_collector@ =~= errors0 + errors_of(plan, batch.take(n + 1), now));
        }
    }
    assert(batch.take(batch.len() as int) =~= batch);
    all_updates
}

/// The updates of `output_kv` without their values, in order.
fn strip_values(output_kv: Vec<KeyValDiffRow>) -> (output: Vec<DiffRow>)
    ensures
        output.deep_view() == output_kv.deep_view().map_values(|u: KeyValDiffRowView| key_only(u)),
{
    let ghost items = output_kv@;
    let ghost views = output_kv.deep_view();
    let mut output: Vec<DiffRow> = Vec::new();
    for update in it: output_kv
        invariant
            it.seq() == items,
            views.len() == items.len(),
            forall|k: int| 0 <= k < items.len() ==> views[k] == #[trigger] items[k].deep_view(),
            output.deep_view() == views.take(it.index() as int).map_values(
                |u: KeyValDiffRowView| key_only(u),
            ),
    {
        let ghost n = it.index() as int;
        let ghost before = output.deep_view();
        assert(update == items[n]);
        assert(views[n] == items[n].deep_view());
        let ((key, _value), ts, diff) = update;
        output.push((key, ts, diff));
        assert(output.deep_view() =~= before.push(key_only(views[n])));
        assert(views.take(n + 1).map_values(|u: KeyValDiffRowView| key_only(u)) =~= before.push(
            key_only(views[n]),
        ));
    }
    assert(views.take(views.len() as int) =~= views);
    output
}

/// One activation of the operator with plan `mfp_plan` and arrangement
/// `arrange`, on the batch `input`, when the clock shows `now`.
///
/// The plan is evaluated on `input`, and the updates that result are written
/// to the arrangement. Returned are the updates of the arrangement that lie
/// beyond its frontier and are dated `now` or earlier, without their values
/// and in the arrangement's order: what has become due since the last
/// activation. Then the arrangement is compacted up to `now`, and a wake-up of
/// the scheduler's current operator is asked for the earliest update that
/// remains beyond the frontier. A row that cannot be evaluated, a write and a
/// compaction that the arrangement refuses are recorded in `err_collector`,
/// and the activation goes on.
pub fn mfp_subgraph(
    arrange: &mut Arrangement,
    input: Vec<DiffRow>,
    mfp_plan: &MfpPlan,
    now: Timestamp,
    err_collector: &mut ErrCollector,
    scheduler: &mut Scheduler,
) -> (output: Vec<DiffRow>)
    requires
        old(arrange).wf(),
        old(scheduler).wf(),
        old(scheduler)@.cur_subgraph is Some,
    ensures
        final(arrange).wf(),
        final(scheduler).wf(),
        final(arrange)@ == activation(mfp_plan@, old(arrange)@, input.deep_view(), now).arrangement,
        output.deep_view() == activation(mfp_plan@, old(arrange)@, input.deep_view(), now).output,
        final(err_collector)@ == old(err_collector)@ + activation(
            mfp_plan@,
            old(arrange)@,
            input.deep_view(),
            now,
        ).errors,
        final(scheduler)@ == old(scheduler)@.after_schedule_for(
            activation(mfp_plan@, old(arrange)@, input.deep_view(), now).wake,
        ),
{
    let ghost act = activation(mfp_plan@, old(arrange)@, input.deep_view(), now);
    let ghost errors0 = err_collector@;
    let ghost updates = updates_of(mfp_plan@, input.deep_view(), now);
    let all_updates = eval_mfp_core(input, mfp_plan, now, err_collector);
    let written = arrange.write(now, all_updates);
    err_collector.run(written);
    let ghost mid = arrange@;
    let output_kv = match arrange.last_compaction_time() {
        None => {
            proof {
                lemma_filter_agree(
                    mid.updates,
                    crate::arrangement::within(i64::MIN, now),
                    due_since(mid.frontier, now),
                );
            }
            arrange.read_range(i64::MIN, now)
        },
        Some(frontier) => if frontier < i64::MAX {
            proof {
                lemma_filter_agree(
                    mid.updates,
                    crate::arrangement::within((frontier + 1) as i64, now),
                    due_since(mid.frontier, now),
                );
            }
            arrange.read_range(frontier + 1, now)
        } else {
            let nothing: Vec<KeyValDiffRow> = Vec::new();
            proof {
                lemma_filter_band(
                    mid.updates,
                    due_since(mid.frontier, now),
                    0,
                    0,
                );
                assert(nothing.deep_view() =~= mid.updates.subrange(0, 0));
            }
            nothing
        },
    };
    let output = strip_values(output_kv);
    let compacted = arrange.compaction(now);
    err_collector.run(compacted);
    scheduler.schedule_for_arrange(arrange);
    proof {
        assert(err_collector@ =~= errors0 + act.errors);
    }
    output
}

/// The updates of a batch are those of its parts, one behind the other; and
/// so are its errors.
pub proof fn lemma_batch_concat(
    plan: MfpPlanView,
    first: Seq<DiffRowView>,
    second: Seq<DiffRowView>,
    now: Timestamp,
)
    ensures
        updates_of(plan, first + second, now) == updates_of(plan, first, now) + updates_of(
            plan,
            second,
            now,
        ),
        errors_of(plan, first + second, now) == errors_of(plan, first, now) + errors_of(
            plan,
            second,
            now,
        ),
    decreases second.len(),
{
    if second.len() == 0 {
        assert(first + second =~= first);
        assert(updates_of(plan, first, now) + updates_of(plan, second, now) =~= updates_of(
            plan,
            first,
            now,
        ));
        assert(errors_of(plan, first, now) + errors_of(plan, second, now) =~= errors_of(
            plan,
            first,
            now,
        ));
    } else {
        let rest = second.drop_last();
        let last = second.last();
        assert((first + second).drop_last() =~= first + rest);
        assert((first + second).last() == last);
        lemma_batch_concat(plan, first, rest, now);
        let k = kept(plan.evaluate(last.0, now, last.2));
        let f = failed(plan.evaluate(last.0, now, last.2));
        assert((updates_of(plan, first, now) + updates_of(plan, rest, now)) + k =~= updates_of(
            plan,
            first,
            now,
        ) + (updates_of(plan, rest, now) + k));
        assert((errors_of(plan, first, now) + errors_of(plan, rest, now)) + f =~= errors_of(
            plan,
            first,
            now,
        ) + (errors_of(plan, rest, now) + f));
    }
}

/// A row that cannot be evaluated touches no other row of its batch: the
/// updates of the batch are those of the rows before it and behind it, and its
/// error is recorded once, between theirs.
pub proof fn lemma_error_isolation(
    plan: MfpPlanView,
    before: Seq<DiffRowView>,
    bad: DiffRowView,
    behind: Seq<DiffRowView>,
    now: Timestamp,
    e: crate::expr::EvalError,
)
    requires
        plan.outcome(bad.0, now, bad.2) == Err::<crate::linear::Outcome, _>(e),
    ensures
        updates_of(plan, before + seq![bad] + behind, now) == updates_of(plan, before, now)
            + updates_of(plan, behind, now),
        errors_of(plan, before + seq![bad] + behind, now) == errors_of(plan, before, now)
            + seq![RuntimeError::Eval(e)] + errors_of(plan, behind, now),
{
    let one = seq![bad];
    lemma_batch_concat(plan, before + one, behind, now);
    lemma_batch_concat(plan, before, one, now);
    let results = plan.evaluate(bad.0, now, bad.2);
    assert(results == seq![Err::<DiffRowView, _>((e, now, bad.2))]);
    assert(results.drop_last() =~= Seq::<EvaluatedView>::empty());
    assert(results.last() == Err::<DiffRowView, _>((e, now, bad.2)));
    assert(kept(Seq::<EvaluatedView>::empty()) =~= Seq::<KeyValDiffRowView>::empty());
    assert(failed(Seq::<EvaluatedView>::empty()) =~= Seq::<RuntimeError>::empty());
    assert(kept(results) =~= Seq::<KeyValDiffRowView>::empty());
    assert(failed(results) =~= seq![RuntimeError::Eval(e)]);
    assert(one.drop_last() =~= Seq::<DiffRowView>::empty());
    assert(one.last() == bad);
    assert(updates_of(plan, Seq::<DiffRowView>::empty(), now) =~= Seq::<
        KeyValDiffRowView,
    >::empty());
    assert(errors_of(plan, Seq::<DiffRowView>::empty(), now) =~= Seq::<RuntimeError>::empty());
    assert(updates_of(plan, one, now) =~= Seq::<KeyValDiffRowView>::empty());
    assert(errors_of(plan, one, now) =~= seq![RuntimeError::Eval(e)]);
    assert(updates_of(plan, before, now) + Seq::<KeyValDiffRowView>::empty() =~= updates_of(
        plan,
        before,
        now,
    ));
}

/// A row that cannot be evaluated touches nothing of its activation but the
/// recorded errors: the arrangement, what is handed on and the wake-up are
/// what they would be without the row, and so are the errors but for the
/// row's own, which is recorded once, at the row's place.
pub proof fn lemma_activation_error_isolation(
    plan: MfpPlanView,
    arrange: ArrangementView,
    before: Seq<DiffRowView>,
    bad: DiffRowView,
    behind: Seq<DiffRowView>,
    now: Timestamp,
    e: crate::expr::EvalError,
)
    requires
        plan.outcome(bad.0, now, bad.2) == Err::<crate::linear::Outcome, _>(e),
    ensures
        ({
            let with = activation(plan, arrange, before + seq![bad] + behind, now);
            let without = activation(plan, arrange, before + behind, now);
            &&& with.arrangement == without.arrangement
            &&& with.output == without.output
            &&& with.wake == without.wake
            &&& without.errors == errors_of(plan, before, now) + errors_of(plan, behind, now)
                + refusals(arrange, updates_of(plan, before + behind, now), now)
            &&& with.errors == errors_of(plan, before, now) + seq![RuntimeError::Eval(e)]
                + errors_of(plan, behind, now) + refusals(
                arrange,
                updates_of(plan, before + behind, now),
                now,
            )
        }),
{
    lemma_error_isolation(plan, before, bad, behind, now, e);
    lemma_batch_concat(plan, before, behind, now);
}

/// The arrangement as an activation leaves it, and the wake-up that it asks
/// for: the arrangement is well formed; a wake-up is asked for exactly where
/// an update remains beyond the frontier, and it is dated at the earliest of
/// them, so that the operator is woken for no time before an update is due
/// and for no time after. Where the compaction is carried out, the frontier is
/// at the clock, and the wake-up is dated at the earliest update after the
/// clock.
pub proof fn lemma_wake_is_earliest(
    plan: MfpPlanView,
    arrange: ArrangementView,
    input: Seq<DiffRowView>,
    now: Timestamp,
)
    requires
        arrange.wf(),
    ensures
        activation(plan, arrange, input, now).arrangement.wf(),
        activation(plan, arrange, input, now).wake is Some <==> activation(
            plan,
            arrange,
            input,
            now,
        ).arrangement.has_future(),
        activation(plan, arrange, input, now).wake matches Some(w) ==> activation(
            plan,
            arrange,
            input,
            now,
        ).arrangement.is_earliest_future_time(w),
        activation(plan, arrange, input, now).arrangement.frontier == Some(now) ==> (activation(
            plan,
            arrange,
            input,
            now,
        ).wake matches Some(w) ==> w > now),
        arrange.after_write(now, updates_of(plan, input, now)).compaction_result(now) is Ok
            ==> activation(plan, arrange, input, now).arrangement.frontier == Some(now),
{
    let updates = updates_of(plan, input, now);
    let written = arrange.after_write(now, updates);
    crate::arrangement::lemma_after_write_wf(arrange, now, updates);
    crate::arrangement::lemma_after_compaction(written, now);
    crate::arrangement::lemma_earliest_future_time(written.after_compaction(now));
}

/// An update that the arrangement holds beyond its frontier once the
/// activation has written is handed on where its time has come; otherwise the
/// arrangement holds it still, as it is and beyond its frontier, and the
/// wake-up that is asked for is dated no later than it.
proof fn lemma_written_not_lost(
    plan: MfpPlanView,
    arrange: ArrangementView,
    input: Seq<DiffRowView>,
    now: Timestamp,
    u: KeyValDiffRowView,
)
    requires
        arrange.wf(),
        arrange.after_write(now, updates_of(plan, input, now)).updates.contains(u),
        arrange.is_future(u.1),
    ensures
        u.1 <= now ==> activation(plan, arrange, input, now).output.contains(key_only(u)),
        u.1 > now ==> activation(plan, arrange, input, now).arrangement.updates.contains(u)
            && activation(plan, arrange, input, now).arrangement.is_future(u.1) && activation(
            plan,
            arrange,
            input,
            now,
        ).wake is Some && activation(plan, arrange, input, now).wake.unwrap() <= u.1,
{
    let act = activation(plan, arrange, input, now);
    let updates = updates_of(plan, input, now);
    let written = arrange.after_write(now, updates);
    crate::arrangement::lemma_after_write_wf(arrange, now, updates);
    assert(written.is_future(u.1));
    let i = choose|i: int| 0 <= i < written.updates.len() && written.updates[i] == u;
    if u.1 <= now {
        let due = written.updates.filter(due_since(written.frontier, now));
        assert(due_since(written.frontier, now)(written.updates[i]));
        written.updates.lemma_filter_contains(due_since(written.frontier, now), i);
        let j = choose|j: int| 0 <= j < due.len() && due[j] == u;
        assert(act.output[j] == key_only(u));
    } else {
        crate::arrangement::lemma_after_compaction(written, now);
        lemma_wake_is_earliest(plan, arrange, input, now);
        assert(crate::arrangement::after(now)(written.updates[i]));
        written.updates.lemma_filter_contains(crate::arrangement::after(now), i);
        assert(act.arrangement.updates.filter(crate::arrangement::after(now)).contains(u));
        act.arrangement.updates.lemma_filter_contains_rev(crate::arrangement::after(now), u);
        let k = choose|k: int|
            0 <= k < act.arrangement.updates.len() && act.arrangement.updates[k] == u;
        assert(act.arrangement.is_future(act.arrangement.updates[k].1));
    }
}

/// No update is lost. An update that the arrangement holds beyond its
/// frontier when an activation begins is handed on by the activation where
/// its time has come; otherwise the arrangement holds it still beyond its
/// frontier, and the wake-up that is asked for is dated no later than it.
pub proof fn lemma_no_update_lost(
    plan: MfpPlanView,
    arrange: ArrangementView,
    input: Seq<DiffRowView>,
    now: Timestamp,
    u: KeyValDiffRowView,
)
    requires
        arrange.wf(),
        arrange.updates.contains(u),
        arrange.is_future(u.1),
    ensures
        u.1 <= now ==> activation(plan, arrange, input, now).output.contains(key_only(u)),
        u.1 > now ==> activation(plan, arrange, input, now).arrangement.updates.contains(u)
            && activation(plan, arrange, input, now).arrangement.is_future(u.1) && activation(
            plan,
            arrange,
            input,
            now,
        ).wake is Some && activation(plan, arrange, input, now).wake.unwrap() <= u.1,
{
    crate::arrangement::lemma_after_write_wf(arrange, now, updates_of(plan, input, now));
    lemma_written_not_lost(plan, arrange, input, now, u);
}

/// No update of the input is lost either. Where the arrangement takes the
/// write, an update that the plan makes of the input is handed on by the same
/// activation where its time has come. Otherwise it is not handed on yet: the
/// arrangement holds it beyond its frontier, as it was written, neither
/// dropped nor summed up by the compaction, and the wake-up that is asked for
/// is dated no later than it. A later activation hands it on, as
/// [`lemma_no_update_lost`] says of every update that is held.
pub proof fn lemma_new_update_not_lost(
    plan: MfpPlanView,
    arrange: ArrangementView,
    input: Seq<DiffRowView>,
    now: Timestamp,
    u: KeyValDiffRowView,
)
    requires
        arrange.wf(),
        updates_of(plan, input, now).contains(u),
        arrange.write_result(now, updates_of(plan, input, now)) is Ok,
    ensures
        arrange.is_future(u.1),
        u.1 <= now ==> activation(plan, arrange, input, now).output.contains(key_only(u)),
        u.1 > now ==> activation(plan, arrange, input, now).arrangement.updates.contains(u)
            && activation(plan, arrange, input, now).arrangement.is_future(u.1) && activation(
            plan,
            arrange,
            input,
            now,
        ).wake is Some && activation(plan, arrange, input, now).wake.unwrap() <= u.1,
        forall|i: int|
            0 <= i < activation(plan, arrange, input, now).output.len() ==> (
            #[trigger] activation(plan, arrange, input, now).output[i]).1 <= now,
{
    let updates = updates_of(plan, input, now);
    let i = choose|i: int| 0 <= i < updates.len() && updates[i] == u;
    assert(arrange.is_future(updates[i].1));
    crate::arrangement::lemma_after_write_wf(arrange, now, updates);
    assert(arrange.after_write(now, updates).updates.contains(updates[i]));
    lemma_written_not_lost(plan, arrange, input, now, u);
    lemma_output_beyond_frontier(plan, arrange, input, now);
}

/// Nothing is handed on twice, and nothing early: whatever an activation
/// hands on is dated beyond the frontier that the arrangement had when the
/// activation began, and no later than the clock. Once the frontier has
/// passed a time, no update of that time is handed on again.
pub proof fn lemma_output_beyond_frontier(
    plan: MfpPlanView,
    arrange: ArrangementView,
    input: Seq<DiffRowView>,
    now: Timestamp,
)
    ensures
        forall|i: int|
            0 <= i < activation(plan, arrange, input, now).output.len() ==> arrange.is_future(
                (#[trigger] activation(plan, arrange, input, now).output[i]).1,
            ) && activation(plan, arrange, input, now).output[i].1 <= now,
{
    let act = activation(plan, arrange, input, now);
    assert forall|i: int| 0 <= i < act.output.len() implies arrange.is_future(
        (#[trigger] act.output[i]).1,
    ) && act.output[i].1 <= now by {
        lemma_output_is_due(plan, arrange, input, now, i);
    }
}

/// Nothing is handed on early or twice: every update that an activation hands
/// on is an update of the arrangement that lay beyond the frontier and whose
/// time has come.
pub proof fn lemma_output_is_due(
    plan: MfpPlanView,
    arrange: ArrangementView,
    input: Seq<DiffRowView>,
    now: Timestamp,
    i: int,
)
    requires
        0 <= i < activation(plan, arrange, input, now).output.len(),
    ensures
        exists|u: KeyValDiffRowView|
            #![trigger key_only(u)]
            arrange.after_write(now, updates_of(plan, input, now)).updates.contains(u)
                && key_only(u) == activation(plan, arrange, input, now).output[i]
                && arrange.is_future(u.1) && u.1 <= now,
{
    let written = arrange.after_write(now, updates_of(plan, input, now));
    let p = due_since(written.frontier, now);
    let due = written.updates.filter(p);
    let u = due[i];
    written.updates.lemma_filter_pred(p, i);
    assert(due.contains(u));
    written.updates.lemma_filter_contains_rev(p, u);
    assert(written.frontier == arrange.frontier);
    assert(key_only(u) == activation(plan, arrange, input, now).output[i]);
}

/// Of updates that are ordered by time, those due are ordered by time.
proof fn lemma_due_in_time_order(
    s: Seq<KeyValDiffRowView>,
    frontier: Option<Timestamp>,
    now: Timestamp,
)
    requires
        crate::arrangement::sorted_by_time(s),
    ensures
        crate::arrangement::sorted_by_time(s.filter(due_since(frontier, now))),
{
    let p = due_since(frontier, now);
    let k = crate::arrangement::lemma_sorted_split(s, now);
    let m = match frontier {
        Some(f) => crate::arrangement::lemma_sorted_split(s, f),
        None => 0,
    };
    let from = if m <= k { m } else { k };
    assert forall|i: int| 0 <= i < s.len() implies (p(#[trigger] s[i]) <==> from <= i < k) by {}
    lemma_filter_band(s, p, from, k);
    let due = s.filter(p);
    assert forall|i: int, j: int| 0 <= i <= j < due.len() implies due[i].1 <= due[j].1 by {
        assert(due[i] == s[from + i] && due[j] == s[from + j]);
    }
}

/// What an activation hands on comes in the order of time, so that the
/// updates of one time stand together; and the frontier of the arrangement
/// does not move back.
pub proof fn lemma_output_in_time_order(
    plan: MfpPlanView,
    arrange: ArrangementView,
    input: Seq<DiffRowView>,
    now: Timestamp,
)
    requires
        arrange.wf(),
    ensures
        forall|i: int, j: int|
            0 <= i <= j < activation(plan, arrange, input, now).output.len() ==> activation(
                plan,
                arrange,
                input,
                now,
            ).output[i].1 <= activation(plan, arrange, input, now).output[j].1,
        arrange.frontier is Some ==> activation(plan, arrange, input, now).arrangement.frontier
            is Some && activation(plan, arrange, input, now).arrangement.frontier.unwrap()
            >= arrange.frontier.unwrap(),
{
    let act = activation(plan, arrange, input, now);
    let updates = updates_of(plan, input, now);
    let written = arrange.after_write(now, updates);
    crate::arrangement::lemma_after_write_wf(arrange, now, updates);
    crate::arrangement::lemma_after_compaction(written, now);
    lemma_due_in_time_order(written.updates, written.frontier, now);
    let due = written.updates.filter(due_since(written.frontier, now));
    assert forall|i: int, j: int| 0 <= i <= j < act.output.len() implies act.output[i].1
        <= act.output[j].1 by {
        assert(act.output[i] == key_only(due[i]) && act.output[j] == key_only(due[j]));
        assert(due[i].1 <= due[j].1);
    }
}

} // verus!
