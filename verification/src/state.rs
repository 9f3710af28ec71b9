//! What the operators of one dataflow graph share: the clock, the scheduler,
//! the recorded errors and the arrangements.

use vstd::prelude::*;
use crate::arrangement::{Arrangement, ArrangementView};
use crate::error::{ErrCollector, RuntimeError};
use crate::linear::MfpPlan;
use crate::mfp::{activation, mfp_subgraph};
use crate::repr::{DiffRow, DiffRowView, Timestamp};
use crate::scheduler::{Scheduler, SchedulerView, SubgraphId};

verus! {

/// Names one arrangement of a [`DataflowState`]. Whoever holds the handle can
/// read the arrangement through the state; the operator that asked for the
/// arrangement is the only one that writes it.
#[derive(Clone, Copy, Debug, PartialEq, Eq, Structural, PartialOrd, Ord, Hash)]
pub struct ArrangeHandler {
    /// Place of the arrangement among those of its state.
    pub index: usize,
}

/// Mathematical model of a [`DataflowState`].
pub struct DataflowStateView {
    pub scheduler: SchedulerView,
    /// What the clock shows.
    pub as_of: Timestamp,
    /// The errors recorded so far, oldest first.
    pub errors: Seq<RuntimeError>,
    /// The arrangements, each at the place that its handle names.
    pub arrangements: Seq<ArrangementView>,
}

impl DataflowStateView {
    /// The state after the operator `subgraph`, with the arrangement at
    /// `index` and the plan `plan`, was activated on `input`.
    pub open spec fn after_mfp(
        self,
        subgraph: SubgraphId,
        index: int,
        plan: crate::linear::MfpPlanView,
        input: Seq<DiffRowView>,
    ) -> Self
        recommends
            0 <= index < self.arrangements.len(),
    {
        let act = activation(plan, self.arrangements[index], input, self.as_of);
        DataflowStateView {
            scheduler: (SchedulerView {
                pending: self.scheduler.pending,
                cur_subgraph: Some(subgraph),
            }).after_schedule_for(act.wake),
            as_of: self.as_of,
            errors: self.errors + act.errors,
            arrangements: self.arrangements.update(index, act.arrangement),
        }
    }
}

/// What the operators of one dataflow graph share.
pub struct DataflowState {
    scheduler: Scheduler,
    as_of: Timestamp,
    err_collector: ErrCollector,
    arrangements: Vec<Arrangement>,
}

impl View for DataflowState {
    type V = DataflowStateView;

    closed spec fn view(&self) -> DataflowStateView {
        DataflowStateView {
            scheduler: self.scheduler@,
            as_of: self.as_of,
            errors: self.err_collector@,
            arrangements: Seq::new(self.arrangements.len() as nat, |i: int| self.arrangements[i]@),
        }
    }
}

impl DataflowState {
    /// The state's representation is consistent.
    pub closed spec fn wf(&self) -> bool {
        &&& self.scheduler.wf()
        &&& forall|i: int| 0 <= i < self.arrangements.len() ==> (#[trigger] self.arrangements[i]).wf()
    }

    /// A well-formed state has well-formed parts.
    pub proof fn lemma_wf_view(&self)
        requires
            self.wf(),
        ensures
            self@.scheduler.wf(),
            forall|i: int| 0 <= i < self@.arrangements.len() ==> (#[trigger] self@.arrangements[i]).wf(),
    {
        self.scheduler.lemma_wf_view();
        assert forall|i: int| 0 <= i < self@.arrangements.len() implies (
        #[trigger] self@.arrangements[i]).wf() by {
            self.arrangements[i].lemma_wf_view();
        }
    }

    /// A state without arrangements, wake-ups or errors, whose clock shows zero.
    pub fn new() -> (s: DataflowState)
        ensures
            s.wf(),
            s@.as_of == 0,
            s@.errors == Seq::<RuntimeError>::empty(),
            s@.arrangements == Seq::<ArrangementView>::empty(),
            s@.scheduler.pending == Seq::<crate::scheduler::Wake>::empty(),
            s@.scheduler.cur_subgraph is None,
    {
        let s = DataflowState {
            scheduler: Scheduler::new(),
            as_of: 0,
            err_collector: ErrCollector::new(),
            arrangements: Vec::new(),
        };
        assert(s@.arrangements =~= Seq::<ArrangementView>::empty());
        s
    }

    /// What the clock shows.
    pub fn current_ts(&self) -> (now: Timestamp)
        ensures
            now == self@.as_of,
    {
        self.as_of
    }

    /// Sets the clock to `now`.
    pub fn set_current_ts(&mut self, now: Timestamp)
        requires
            old(self).wf(),
        ensures
            final(self).wf(),
            final(self)@ == (DataflowStateView { as_of: now, ..old(self)@ }),
    {
        self.as_of = now;
        assert(self@.arrangements =~= old(self)@.arrangements);
    }

    /// The errors recorded so far.
    pub fn get_err_collector(&self) -> (errors: &ErrCollector)
        ensures
            errors@ == self@.errors,
    {
        &self.err_collector
    }

    /// The scheduler.
    pub fn get_scheduler(&self) -> (scheduler: &Scheduler)
        ensures
            scheduler@ == self@.scheduler,
            self.wf() ==> scheduler.wf(),
    {
        &self.scheduler
    }

    /// Number of arrangements.
    pub fn arrangement_count(&self) -> (n: usize)
        ensures
            n == self@.arrangements.len(),
    {
        self.arrangements.len()
    }

    /// The arrangement that `handle` names, if it is one of this state.
    pub fn arrangement(&self, handle: ArrangeHandler) -> (arrange: Option<&Arrangement>)
        ensures
            arrange is Some <==> handle.index < self@.arrangements.len(),
            arrange is Some ==> arrange.unwrap()@ == self@.arrangements[handle.index as int],
            arrange is Some && self.wf() ==> arrange.unwrap().wf(),
    {
        if handle.index < self.arrangements.len() {
            Some(&self.arrangements[handle.index])
        } else {
            None
        }
    }

    /// Adds an arrangement without updates that was never compacted.
    pub fn new_arrange(&mut self) -> (handle: ArrangeHandler)
        requires
            old(self).wf(),
        ensures
            final(self).wf(),
            handle.index == old(self)@.arrangements.len(),
            final(self)@ == (DataflowStateView {
                arrangements: old(self)@.arrangements.push(
                    ArrangementView { updates: Seq::empty(), frontier: None },
                ),
                ..old(self)@
            }),
    {
        let handle = ArrangeHandler { index: self.arrangements.len() };
        let fresh = Arrangement::new();
        let ghost fresh_view = fresh@;
        self.arrangements.push(fresh);
        assert(fresh_view == (ArrangementView { updates: Seq::empty(), frontier: None }));
        assert(self@.arrangements =~= old(self)@.arrangements.push(fresh_view));
        handle
    }

    /// Asks that `subgraph` run again when the clock reaches `time`.
    pub fn schedule_at(&mut self, subgraph: SubgraphId, time: Timestamp)
        requires
            old(self).wf(),
        ensures
            final(self).wf(),
            final(self)@ == (DataflowStateView {
                scheduler: (SchedulerView {
                    pending: old(self)@.scheduler.pending,
                    cur_subgraph: Some(subgraph),
                }).after_schedule(time),
                ..old(self)@
            }),
    {
        self.scheduler.set_cur_subgraph(subgraph);
        self.scheduler.schedule_at(time);
        assert(self@.arrangements =~= old(self)@.arrangements);
    }

    /// Notes that `subgraph` ran and asks for no wake-up.
    pub fn schedule_none(&mut self, subgraph: SubgraphId)
        requires
            old(self).wf(),
        ensures
            final(self).wf(),
            final(self)@ == (DataflowStateView {
                scheduler: SchedulerView {
                    pending: old(self)@.scheduler.pending,
                    cur_subgraph: Some(subgraph),
                },
                ..old(self)@
            }),
    {
        self.scheduler.set_cur_subgraph(subgraph);
        assert(self@.arrangements =~= old(self)@.arrangements);
    }

    /// Takes the wake-ups that are due by what the clock shows, and returns
    /// their operators, each once: the operators to run at this tick besides
    /// those that have input.
    pub fn take_due(&mut self) -> (due: Vec<SubgraphId>)
        requires
            old(self).wf(),
        ensures
            final(self).wf(),
            final(self)@ == (DataflowStateView {
                scheduler: old(self)@.scheduler.after_take(old(self)@.as_of),
                ..old(self)@
            }),
            due@ == old(self)@.scheduler.due(old(self)@.as_of),
            due@.no_duplicates(),
            forall|g: SubgraphId| #[trigger]
                due@.contains(g) <==> old(self)@.scheduler.is_due(g, old(self)@.as_of),
    {
        let due = self.scheduler.take_due(self.as_of);
        assert(self@.arrangements =~= old(self)@.arrangements);
        due
    }

    /// Activates the operator `subgraph`, whose plan is `plan` and whose
    /// arrangement `arrange` names, on the batch `input`, at the time that the
    /// clock shows. Returns the updates that the operator hands on. Where
    /// `arrange` names no arrangement of this state, nothing is done.
    pub fn run_mfp(
        &mut self,
        subgraph: SubgraphId,
        arrange: ArrangeHandler,
        plan: &MfpPlan,
        input: Vec<DiffRow>,
    ) -> (output: Vec<DiffRow>)
        requires
            old(self).wf(),
        ensures
            final(self).wf(),
            arrange.index < old(self)@.arrangements.len() ==> final(self)@ == old(self)@.after_mfp(
                subgraph,
                arrange.index as int,
                plan@,
                input.deep_view(),
            ) && output.deep_view() == activation(
                plan@,
                old(self)@.arrangements[arrange.index as int],
                input.deep_view(),
                old(self)@.as_of,
            ).output,
            arrange.index >= old(self)@.arrangements.len() ==> final(self)@ == old(self)@
                && output.deep_view() == Seq::<DiffRowView>::empty(),
    {
        if arrange.index >= self.arrangements.len() {
            let output: Vec<DiffRow> = Vec::new();
            assert(output.deep_view() =~= Seq::<DiffRowView>::empty());
            return output;
        }
        self.scheduler.set_cur_subgraph(subgraph);
        let now = self.as_of;
        let output = mfp_subgraph(
            &mut self.arrangements[arrange.index],
            input,
            plan,
            now,
            &mut self.err_collector,
            &mut self.scheduler,
        );
        proof {
            let act = activation(
                plan@,
                old(self)@.arrangements[arrange.index as int],
                input.deep_view(),
                old(self)@.as_of,
            );
            assert(self@.arrangements =~= old(self)@.arrangements.update(
                arrange.index as int,
                act.arrangement,
            ));
        }
        output
    }
}

} // verus!
