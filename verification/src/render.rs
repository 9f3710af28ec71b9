//! Rendering of plans into the operators of a dataflow graph.
//!
//! A [`Context`] holds one dataflow graph: its operators, in the order in
//! which they were rendered, and the state that they share. Rendering a plan
//! adds operators; running an operator activates it once, at the time that
//! the clock shows. Which operator runs when is up to whoever drives the
//! graph: at each tick, the operators whose wake-up is due and those for which
//! input has arrived.

use vstd::prelude::*;
use crate::arrangement::ArrangementView;
use crate::error::{Error, RuntimeError};
use crate::expr::{EvalError, GlobalId, Id, ScalarExpr};
use crate::linear::{MapFilterProject, MapFilterProjectView, MfpPlan, MfpPlanView, Outcome};
use crate::mfp::{activation, errors_of, lemma_activation_error_isolation, refusals, updates_of};
use crate::repr::{DiffRow, DiffRowView, KeyValDiffRow, KeyValDiffRowView, Timestamp};
use crate::scheduler::{SchedulerView, SubgraphId};
use crate::state::{ArrangeHandler, DataflowState, DataflowStateView};

verus! {

/// A plan of what to compute.
#[derive(Debug, PartialEq, Eq)]
pub enum Plan {
    /// The rows given, each from the time that it states.
    Constant { rows: Vec<DiffRow> },
    /// A collection that the context knows under `id`.
    Get { id: Id },
    /// The rows of `input`, mapped, filtered and projected by `mfp`.
    Mfp { input: Box<Plan>, mfp: MapFilterProject },
}

/// A stream of updates: what one operator hands on.
#[derive(Clone, Copy, Debug, PartialEq, Eq, Structural)]
pub struct Collection {
    /// The operator whose output the stream is.
    pub stream: SubgraphId,
}

impl Collection {
    /// The stream of the updates that `stream` hands on.
    pub fn from_port(stream: SubgraphId) -> (c: Collection)
        ensures
            c.stream == stream,
    {
        Collection { stream }
    }
}

/// A collection that is kept in an arrangement.
#[derive(Clone, Copy, Debug, PartialEq, Eq, Structural)]
pub struct Arranged {
    pub arrangement: ArrangeHandler,
}

impl Arranged {
    pub fn new(arrangement: ArrangeHandler) -> (a: Arranged)
        ensures
            a.arrangement == arrangement,
    {
        Arranged { arrangement }
    }
}

/// What an operator offers to those that read it: the stream of its updates
/// and, by key, the arrangements that hold them. In a bundle that this
/// library makes, no key occurs twice.
#[derive(Debug, PartialEq, Eq)]
pub struct CollectionBundle {
    pub collection: Collection,
    /// Arrangements of the collection, each with the expressions that make up
    /// its key.
    pub arranged: Vec<(Vec<ScalarExpr>, Arranged)>,
}

/// Mathematical model of a [`CollectionBundle`].
pub struct CollectionBundleView {
    pub collection: Collection,
    pub arranged: Seq<(Seq<ScalarExpr>, Arranged)>,
}

impl CollectionBundleView {
    /// No key names two arrangements: the bundle is a mapping from keys to
    /// arrangements.
    pub open spec fn keys_distinct(self) -> bool {
        forall|i: int, j: int|
            0 <= i < self.arranged.len() && 0 <= j < self.arranged.len() && i != j ==> (
            #[trigger] self.arranged[i]).0 != (#[trigger] self.arranged[j]).0
    }
}

impl View for CollectionBundle {
    type V = CollectionBundleView;

    open spec fn view(&self) -> CollectionBundleView {
        CollectionBundleView {
            collection: self.collection,
            arranged: self.arranged@.map_values(|p: (Vec<ScalarExpr>, Arranged)| (p.0@, p.1)),
        }
    }
}

/// The columns `0` up to `arity` as expressions.
pub open spec fn all_columns(arity: nat) -> Seq<ScalarExpr> {
    Seq::new(arity, |i: int| ScalarExpr::Column(i as usize))
}

/// The columns `0` up to `arity` as expressions.
fn columns(arity: usize) -> (key: Vec<ScalarExpr>)
    ensures
        key@ == all_columns(arity as nat),
{
    let mut key: Vec<ScalarExpr> = Vec::new();
    let mut c: usize = 0;
    while c < arity
        invariant
            c <= arity,
            key@ == all_columns(c as nat),
        decreases arity - c,
    {
        key.push(ScalarExpr::Column(c));
        assert(key@ =~= all_columns((c + 1) as nat));
        c += 1;
    }
    key
}

impl CollectionBundle {
    /// The bundle of a stream that is kept in no arrangement.
    pub fn from_collection(collection: Collection) -> (b: CollectionBundle)
        ensures
            b@ == (CollectionBundleView { collection, arranged: Seq::empty() }),
            b@.keys_distinct(),
    {
        let b = CollectionBundle { collection, arranged: Vec::new() };
        assert(b@.arranged =~= Seq::empty());
        b
    }

    /// A copy of the bundle.
    pub fn duplicate(&self) -> (b: CollectionBundle)
        ensures
            b@ == self@,
            self@.keys_distinct() ==> b@.keys_distinct(),
    {
        let mut arranged: Vec<(Vec<ScalarExpr>, Arranged)> = Vec::new();
        let mut i: usize = 0;
        while i < self.arranged.len()
            invariant
                i <= self.arranged.len(),
                arranged.len() == i,
                forall|k: int|
                    0 <= k < i ==> (#[trigger] arranged[k]).0@ == self.arranged[k].0@
                        && arranged[k].1 == self.arranged[k].1,
            decreases self.arranged.len() - i,
        {
            let mut key: Vec<ScalarExpr> = Vec::new();
            let mut j: usize = 0;
            while j < self.arranged[i].0.len()
                invariant
                    i < self.arranged.len(),
                    j <= self.arranged[i as int].0.len(),
                    key@ == self.arranged[i as int].0@.take(j as int),
                decreases self.arranged[i as int].0.len() - j,
            {
                key.push(self.arranged[i].0[j].duplicate());
                assert(key@ =~= self.arranged[i as int].0@.take(j + 1));
                j += 1;
            }
            assert(key@ =~= self.arranged[i as int].0@);
            arranged.push((key, self.arranged[i].1));
            i += 1;
        }
        let b = CollectionBundle { collection: self.collection, arranged };
        assert(b@.arranged =~= self@.arranged);
        b
    }
}

/// Rows that have arrived when the clock shows `now`.
pub open spec fn arrived_by(now: Timestamp) -> spec_fn(DiffRowView) -> bool {
    |r: DiffRowView| r.1 <= now
}

/// Rows that are still to come when the clock shows `now`.
pub open spec fn later_than(now: Timestamp) -> spec_fn(DiffRowView) -> bool {
    |r: DiffRowView| r.1 > now
}

/// The earliest time that a row of `rows` states.
pub open spec fn earliest(rows: Seq<DiffRowView>) -> Option<Timestamp>
    decreases rows.len(),
{
    if rows.len() == 0 {
        None
    } else {
        match earliest(rows.drop_last()) {
            None => Some(rows.last().1),
            Some(t) => Some(if rows.last().1 < t { rows.last().1 } else { t }),
        }
    }
}

/// An operator of a dataflow graph.
#[derive(Debug)]
pub enum Subgraph {
    /// A source that hands on each of its rows once the clock has reached the
    /// time that the row states. It holds the rows not yet handed on.
    Constant { rows: Vec<DiffRow> },
    /// A map-filter-project operator that reads the output of `input`.
    Mfp { input: SubgraphId, plan: MfpPlan, arrange: ArrangeHandler },
}

/// Mathematical model of a [`Subgraph`].
pub enum SubgraphView {
    Constant { rows: Seq<DiffRowView> },
    Mfp { input: SubgraphId, plan: MfpPlanView, arrange: ArrangeHandler },
}

impl View for Subgraph {
    type V = SubgraphView;

    open spec fn view(&self) -> SubgraphView {
        match self {
            Subgraph::Constant { rows } => SubgraphView::Constant { rows: rows.deep_view() },
            Subgraph::Mfp { input, plan, arrange } => SubgraphView::Mfp {
                input: *input,
                plan: plan@,
                arrange: *arrange,
            },
        }
    }
}

/// The collection that `globals` knows under `id`: the one registered last.
pub open spec fn find_global(
    globals: Seq<(GlobalId, CollectionBundleView)>,
    id: GlobalId,
) -> Option<CollectionBundleView>
    decreases globals.len(),
{
    if globals.len() == 0 {
        None
    } else if globals.last().0 == id {
        Some(globals.last().1)
    } else {
        find_global(globals.drop_last(), id)
    }
}

/// Mathematical model of a [`Context`].
pub struct ContextView {
    /// What the operators share.
    pub state: DataflowStateView,
    /// The operators, each at the place that its id names.
    pub subgraphs: Seq<SubgraphView>,
    /// The collections known by a global id, in the order of their registration.
    pub globals: Seq<(GlobalId, CollectionBundleView)>,
}

impl ContextView {
    /// Every operator's arrangement is one of the state.
    pub open spec fn wf(self) -> bool {
        forall|i: int|
            0 <= i < self.subgraphs.len() ==> (#[trigger] self.subgraphs[i] matches SubgraphView::Mfp {
                arrange,
                ..
            } ==> arrange.index < self.state.arrangements.len())
    }

    /// The id that the next operator gets.
    pub open spec fn next_subgraph(self) -> SubgraphId {
        SubgraphId(self.subgraphs.len() as usize)
    }

    /// The state after `subgraph` asked to be woken at `time`, if it is a time.
    pub open spec fn state_after_wake(self, subgraph: SubgraphId, time: Option<Timestamp>)
        -> DataflowStateView {
        DataflowStateView {
            scheduler: (SchedulerView {
                pending: self.state.scheduler.pending,
                cur_subgraph: Some(subgraph),
            }).after_schedule_for(time),
            ..self.state
        }
    }

    /// The context with a source of `rows` added, and the source's bundle. The
    /// source asks to be woken at the earliest time that one of its rows
    /// states, if it has a row.
    pub open spec fn with_constant(self, rows: Seq<DiffRowView>) -> (Self, CollectionBundleView) {
        (
            ContextView {
                state: self.state_after_wake(self.next_subgraph(), earliest(rows)),
                subgraphs: self.subgraphs.push(SubgraphView::Constant { rows }),
                globals: self.globals,
            },
            CollectionBundleView {
                collection: Collection { stream: self.next_subgraph() },
                arranged: Seq::empty(),
            },
        )
    }

    /// The context with a map-filter-project operator added that reads `input`
    /// and has the plan `plan` and a new, empty arrangement; and the operator's
    /// bundle, which offers this arrangement under the key of all its columns.
    pub open spec fn with_mfp(self, input: Collection, plan: MfpPlanView) -> (
        Self,
        CollectionBundleView,
    ) {
        let handle = ArrangeHandler { index: self.state.arrangements.len() as usize };
        (
            ContextView {
                state: DataflowStateView {
                    arrangements: self.state.arrangements.push(
                        ArrangementView { updates: Seq::empty(), frontier: None },
                    ),
                    ..self.state
                },
                subgraphs: self.subgraphs.push(
                    SubgraphView::Mfp { input: input.stream, plan, arrange: handle },
                ),
                globals: self.globals,
            },
            CollectionBundleView {
                collection: Collection { stream: self.next_subgraph() },
                arranged: seq![(all_columns(plan.projection.len()), Arranged { arrangement: handle })],
            },
        )
    }

    /// What rendering a map-filter-project operator gives, from the outcome
    /// `input` of rendering what it reads and the outcome `created` of
    /// compiling it. The error of the input comes first.
    pub open spec fn finish_mfp(
        input: Result<(Self, CollectionBundleView), Error>,
        created: Result<MfpPlanView, Error>,
    ) -> Result<(Self, CollectionBundleView), Error> {
        match input {
            Err(e) => Err(e),
            Ok((context, bundle)) => match created {
                Err(e) => Err(e),
                Ok(plan) => Ok(context.with_mfp(bundle.collection, plan)),
            },
        }
    }

    /// The context after rendering `plan`, and the bundle of what `plan`
    /// computes; or the error that ends the rendering.
    pub open spec fn rendered(self, plan: Plan) -> Result<(Self, CollectionBundleView), Error>
        decreases plan,
    {
        match plan {
            Plan::Constant { rows } => Ok(self.with_constant(rows.deep_view())),
            Plan::Get { id: Id::Global(id) } => match find_global(self.globals, id) {
                Some(bundle) => Ok((self, bundle)),
                None => Err(Error::UndefinedCollection { id }),
            },
            Plan::Mfp { input, mfp } => Self::finish_mfp(
                self.rendered(*input),
                MfpPlanView::create(mfp@),
            ),
        }
    }

    /// The context after rendering the operator `mfp` over `input`, and the
    /// operator's bundle; or the error that ends the rendering.
    pub open spec fn rendered_mfp(self, input: Plan, mfp: MapFilterProjectView) -> Result<
        (Self, CollectionBundleView),
        Error,
    > {
        Self::finish_mfp(self.rendered(input), MfpPlanView::create(mfp))
    }

    /// Whether `plan` can be rendered, and the error that ends the rendering
    /// where it cannot.
    pub open spec fn checked(self, plan: Plan) -> Result<(), Error> {
        match self.rendered(plan) {
            Ok(_) => Ok(()),
            Err(e) => Err(e),
        }
    }

    /// No collection that is known by a global id has a key twice.
    pub open spec fn globals_keys_distinct(self) -> bool {
        forall|i: int| 0 <= i < self.globals.len() ==> (#[trigger] self.globals[i]).1.keys_distinct()
    }

    /// The arrangement of the operator `subgraph`, where it is a
    /// map-filter-project operator.
    pub open spec fn arrangement_of(self, subgraph: SubgraphId) -> Option<ArrangeHandler> {
        if subgraph.0 < self.subgraphs.len() {
            match self.subgraphs[subgraph.0 as int] {
                SubgraphView::Constant { .. } => None,
                SubgraphView::Mfp { arrange, .. } => Some(arrange),
            }
        } else {
            None
        }
    }

    /// The plan of the operator `subgraph`, where it is a map-filter-project
    /// operator.
    pub open spec fn plan_of(self, subgraph: SubgraphId) -> Option<MfpPlanView> {
        if subgraph.0 < self.subgraphs.len() {
            match self.subgraphs[subgraph.0 as int] {
                SubgraphView::Constant { .. } => None,
                SubgraphView::Mfp { plan, .. } => Some(plan),
            }
        } else {
            None
        }
    }

    /// What a reader of the arrangement that `handle` names gets for the time
    /// from `from` through `to`; `None` where `handle` names no arrangement.
    pub open spec fn read(self, handle: ArrangeHandler, from: Timestamp, to: Timestamp) -> Option<
        Seq<KeyValDiffRowView>,
    > {
        if handle.index < self.state.arrangements.len() {
            Some(self.state.arrangements[handle.index as int].read_range(from, to))
        } else {
            None
        }
    }

    /// What the clock shows.
    pub open spec fn now(self) -> Timestamp {
        self.state.as_of
    }

    /// What the operator `subgraph` hands on when it is run on `input`.
    pub open spec fn output_of_run(self, subgraph: SubgraphId, input: Seq<DiffRowView>) -> Seq<
        DiffRowView,
    > {
        if subgraph.0 >= self.subgraphs.len() {
            Seq::empty()
        } else {
            match self.subgraphs[subgraph.0 as int] {
                SubgraphView::Constant { rows } => rows.filter(arrived_by(self.now())),
                SubgraphView::Mfp { input: _, plan, arrange } => activation(
                    plan,
                    self.state.arrangements[arrange.index as int],
                    input,
                    self.now(),
                ).output,
            }
        }
    }

    /// The context after the operator `subgraph` was run on `input`.
    pub open spec fn after_run(self, subgraph: SubgraphId, input: Seq<DiffRowView>) -> Self {
        if subgraph.0 >= self.subgraphs.len() {
            self
        } else {
            match self.subgraphs[subgraph.0 as int] {
                SubgraphView::Constant { rows } => {
                    let rest = rows.filter(later_than(self.now()));
                    ContextView {
                        state: self.state_after_wake(subgraph, earliest(rest)),
                        subgraphs: self.subgraphs.update(
                            subgraph.0 as int,
                            SubgraphView::Constant { rows: rest },
                        ),
                        globals: self.globals,
                    }
                },
                SubgraphView::Mfp { input: _, plan, arrange } => ContextView {
                    state: self.state.after_mfp(subgraph, arrange.index as int, plan, input),
                    ..self
                },
            }
        }
    }
}

/// Model of what rendering returns, beside the context that it leaves.
pub open spec fn rendered_view(r: Result<CollectionBundle, Error>, context: ContextView) -> Result<
    (ContextView, CollectionBundleView),
    Error,
> {
    match r {
        Ok(bundle) => Ok((context, bundle@)),
        Err(e) => Err(e),
    }
}

/// The earliest time that a row of `rows` states.
fn earliest_of(rows: &Vec<DiffRow>) -> (t: Option<Timestamp>)
    ensures
        t == earliest(rows.deep_view()),
{
    let ghost views = rows.deep_view();
    let mut t: Option<Timestamp> = None;
    let mut i: usize = 0;
    assert(views.take(0) =~= Seq::<DiffRowView>::empty());
    while i < rows.len()
        invariant
            i <= rows.len(),
            views == rows.deep_view(),
            t == earliest(views.take(i as int)),
        decreases rows.len() - i,
    {
        proof {
            assert(views.take(i + 1).drop_last() =~= views.take(i as int));
            assert(views.take(i + 1).last() == views[i as int]);
        }
        let time = rows[i].1;
        t = match t {
            None => Some(time),
            Some(least) => Some(if time < least { time } else { least }),
        };
        i += 1;
    }
    assert(views.take(rows.len() as int) =~= views);
    t
}

/// One dataflow graph: its operators and what they share.
pub struct Context {
    compute_state: DataflowState,
    subgraphs: Vec<Subgraph>,
    input_collection: Vec<(GlobalId, CollectionBundle)>,
}

impl View for Context {
    type V = ContextView;

    closed spec fn view(&self) -> ContextView {
        ContextView {
            state: self.compute_state@,
            subgraphs: Seq::new(self.subgraphs.len() as nat, |i: int| self.subgraphs[i]@),
            globals: Seq::new(
                self.input_collection.len() as nat,
                |i: int| (self.input_collection[i].0, self.input_collection[i].1@),
            ),
        }
    }
}

impl Context {
    /// The context's representation is consistent.
    pub closed spec fn wf(&self) -> bool {
        &&& self.compute_state.wf()
        &&& self@.wf()
    }

    /// A well-formed context has a well-formed model.
    pub proof fn lemma_wf_view(&self)
        requires
            self.wf(),
        ensures
            self@.wf(),
            self@.state.scheduler.wf(),
            forall|i: int|
                0 <= i < self@.state.arrangements.len() ==> (#[trigger] self@.state.arrangements[i]).wf(),
    {
        self.compute_state.lemma_wf_view();
    }

    /// A context without operators, collections, arrangements, wake-ups or
    /// errors, whose clock shows zero and whose scheduler has no current
    /// operator.
    pub fn new() -> (c: Context)
        ensures
            c.wf(),
            c@.subgraphs == Seq::<SubgraphView>::empty(),
            c@.globals == Seq::<(GlobalId, CollectionBundleView)>::empty(),
            c@.state.as_of == 0,
            c@.state.errors.len() == 0,
            c@.state.arrangements.len() == 0,
            c@.state.scheduler.pending.len() == 0,
            c@.state.scheduler.cur_subgraph is None,
    {
        let c = Context {
            compute_state: DataflowState::new(),
            subgraphs: Vec::new(),
            input_collection: Vec::new(),
        };
        assert(c@.subgraphs =~= Seq::<SubgraphView>::empty());
        assert(c@.globals =~= Seq::<(GlobalId, CollectionBundleView)>::empty());
        c
    }

    /// What the operators share.
    pub fn compute_state(&self) -> (state: &DataflowState)
        ensures
            state@ == self@.state,
            self.wf() ==> state.wf(),
    {
        &self.compute_state
    }

    /// Sets the clock to `now`.
    pub fn set_current_ts(&mut self, now: Timestamp)
        requires
            old(self).wf(),
        ensures
            final(self).wf(),
            final(self)@ == (ContextView {
                state: DataflowStateView { as_of: now, ..old(self)@.state },
                ..old(self)@
            }),
    {
        self.compute_state.set_current_ts(now);
        assert(self@.subgraphs =~= old(self)@.subgraphs);
        assert(self@.globals =~= old(self)@.globals);
    }

    /// Takes the wake-ups that are due by what the clock shows, and returns
    /// their operators, each once.
    pub fn take_due(&mut self) -> (due: Vec<SubgraphId>)
        requires
            old(self).wf(),
        ensures
            final(self).wf(),
            final(self)@ == (ContextView {
                state: DataflowStateView {
                    scheduler: old(self)@.state.scheduler.after_take(old(self)@.now()),
                    ..old(self)@.state
                },
                ..old(self)@
            }),
            due@ == old(self)@.state.scheduler.due(old(self)@.now()),
            due@.no_duplicates(),
            forall|g: SubgraphId| #[trigger]
                due@.contains(g) <==> old(self)@.state.scheduler.is_due(g, old(self)@.now()),
    {
        let due = self.compute_state.take_due();
        assert(self@.subgraphs =~= old(self)@.subgraphs);
        assert(self@.globals =~= old(self)@.globals);
        due
    }

    /// Reads, through the handle that a bundle offers, the updates of an
    /// arrangement that are dated from `from` through `to`, in the
    /// arrangement's order. Neither the arrangement nor anything else of the
    /// context is changed by it, so that a read that follows, with nothing run
    /// in between, returns the same.
    pub fn read_range(&self, handle: ArrangeHandler, from: Timestamp, to: Timestamp) -> (r: Option<
        Vec<KeyValDiffRow>,
    >)
        requires
            self.wf(),
        ensures
            match r {
                Some(updates) => self@.read(handle, from, to) == Some(updates.deep_view()),
                None => self@.read(handle, from, to) is None,
            },
    {
        match self.compute_state.arrangement(handle) {
            Some(arrangement) => Some(arrangement.read_range(from, to)),
            None => None,
        }
    }

    /// Number of operators.
    pub fn subgraph_count(&self) -> (n: usize)
        ensures
            n == self@.subgraphs.len(),
    {
        self.subgraphs.len()
    }

    /// The operator whose output the operator `subgraph` reads, if it reads one.
    pub fn input_of(&self, subgraph: SubgraphId) -> (input: Option<SubgraphId>)
        ensures
            input == if subgraph.0 < self@.subgraphs.len() {
                match self@.subgraphs[subgraph.0 as int] {
                    SubgraphView::Constant { .. } => None,
                    SubgraphView::Mfp { input, .. } => Some(input),
                }
            } else {
                None
            },
    {
        if subgraph.0 < self.subgraphs.len() {
            match &self.subgraphs[subgraph.0] {
                Subgraph::Constant { .. } => None,
                Subgraph::Mfp { input, .. } => Some(*input),
            }
        } else {
            None
        }
    }

    /// Makes `collection` known under `id`, in place of what was known under it.
    pub fn insert_global(&mut self, id: GlobalId, collection: CollectionBundle)
        requires
            old(self).wf(),
        ensures
            final(self).wf(),
            final(self)@ == (ContextView {
                globals: old(self)@.globals.push((id, collection@)),
                ..old(self)@
            }),
    {
        self.input_collection.push((id, collection));
        assert(self@.subgraphs =~= old(self)@.subgraphs);
        assert(self@.globals =~= old(self)@.globals.push((id, collection@)));
    }

    /// The place of the collection known under `id`.
    fn find(&self, id: GlobalId) -> (place: Option<usize>)
        ensures
            match place {
                Some(i) => i < self@.globals.len() && find_global(self@.globals, id) == Some(
                    self@.globals[i as int].1,
                ),
                None => find_global(self@.globals, id) is None,
            },
    {
        let ghost globals = self@.globals;
        let mut i: usize = self.input_collection.len();
        assert(globals.take(i as int) =~= globals);
        while i > 0
            invariant
                i <= self.input_collection.len(),
                globals == self@.globals,
                find_global(globals, id) == find_global(globals.take(i as int), id),
            decreases i,
        {
            proof {
                assert(globals.take(i as int).drop_last() =~= globals.take(i - 1));
                assert(globals.take(i as int).last() == globals[i - 1]);
            }
            if self.input_collection[i - 1].0 == id {
                return Some(i - 1);
            }
            i -= 1;
        }
        None
    }

    /// The collection known under `id`.
    fn get_global(&self, id: GlobalId) -> (bundle: Option<CollectionBundle>)
        ensures
            match bundle {
                Some(b) => find_global(self@.globals, id) == Some(b@),
                None => find_global(self@.globals, id) is None,
            },
            self@.globals_keys_distinct() ==> (bundle matches Some(b) ==> b@.keys_distinct()),
    {
        match self.find(id) {
            Some(i) => Some(self.input_collection[i].1.duplicate()),
            None => None,
        }
    }

    /// Whether `plan` can be rendered, and the error that ends the rendering
    /// where it cannot: the error of the innermost input that cannot be read,
    /// or else of the innermost operator that cannot be compiled. The context
    /// is left as it is.
    pub fn check_plan(&self, plan: &Plan) -> (r: Result<(), Error>)
        ensures
            r == self@.checked(*plan),
        decreases plan,
    {
        match plan {
            Plan::Constant { .. } => Ok(()),
            Plan::Get { id: Id::Global(id) } => match self.find(*id) {
                Some(_) => Ok(()),
                None => Err(Error::UndefinedCollection { id: *id }),
            },
            Plan::Mfp { input, mfp } => match self.check_plan(input) {
                Err(e) => Err(e),
                Ok(()) => MfpPlan::check(mfp),
            },
        }
    }

    /// Adds a source that hands on each row of `rows` once the clock has
    /// reached the time that the row states, and returns its bundle.
    pub fn render_constant(&mut self, rows: Vec<DiffRow>) -> (bundle: CollectionBundle)
        requires
            old(self).wf(),
        ensures
            final(self).wf(),
            (final(self)@, bundle@) == old(self)@.with_constant(rows.deep_view()),
            bundle@.keys_distinct(),
    {
        let subgraph = SubgraphId(self.subgraphs.len());
        if let Some(time) = earliest_of(&rows) {
            self.compute_state.schedule_at(subgraph, time);
        } else {
            self.compute_state.schedule_none(subgraph);
        }
        let ghost views = rows.deep_view();
        self.subgraphs.push(Subgraph::Constant { rows });
        proof {
            assert(self@.subgraphs =~= old(self)@.subgraphs.push(
                SubgraphView::Constant { rows: views },
            ));
            assert(self@.globals =~= old(self)@.globals);
            assert(self@.wf()) by {
                assert forall|i: int| 0 <= i < self@.subgraphs.len() implies (
                #[trigger] self@.subgraphs[i] matches SubgraphView::Mfp { arrange, .. }
                    ==> arrange.index < self@.state.arrangements.len()) by {
                    if i < old(self)@.subgraphs.len() {
                        assert(self@.subgraphs[i] == old(self)@.subgraphs[i]);
                    }
                }
            }
        }
        CollectionBundle::from_collection(Collection::from_port(subgraph))
    }

    /// Runs the operator `subgraph` once, on the batch `input`, at the time that
    /// the clock shows, and returns what it hands on.
    ///
    /// A source hands on the rows whose time has come, keeps the others, and
    /// asks to be woken at the earliest time among them; it reads no input. A
    /// map-filter-project operator is activated as [`crate::mfp::mfp_subgraph`]
    /// says. An id that names no operator changes nothing and hands on nothing.
    pub fn run_subgraph(&mut self, subgraph: SubgraphId, input: Vec<DiffRow>) -> (output: Vec<
        DiffRow,
    >)
        requires
            old(self).wf(),
        ensures
            final(self).wf(),
            final(self)@ == old(self)@.after_run(subgraph, input.deep_view()),
            output.deep_view() == old(self)@.output_of_run(subgraph, input.deep_view()),
    {
        if subgraph.0 >= self.subgraphs.len() {
            let output: Vec<DiffRow> = Vec::new();
            assert(output.deep_view() =~= Seq::<DiffRowView>::empty());
            return output;
        }
        let now = self.compute_state.current_ts();
        let ghost before = self@;
        match &self.subgraphs[subgraph.0] {
            Subgraph::Constant { rows } => {
                let ghost views = rows.deep_view();
                let mut output: Vec<DiffRow> = Vec::new();
                let mut rest: Vec<DiffRow> = Vec::new();
                let mut i: usize = 0;
                proof {
                    reveal(Seq::filter);
                    assert(views.take(0) =~= Seq::<DiffRowView>::empty());
                    assert(output.deep_view() =~= Seq::<DiffRowView>::empty());
                    assert(rest.deep_view() =~= Seq::<DiffRowView>::empty());
                }
                while i < rows.len()
                    invariant
                        i <= rows.len(),
                        views == rows.deep_view(),
                        output.deep_view() == views.take(i as int).filter(arrived_by(now)),
                        rest.deep_view() == views.take(i as int).filter(later_than(now)),
                    decreases rows.len() - i,
                {
                    let ghost out0 = output.deep_view();
                    let ghost rest0 = rest.deep_view();
                    proof {
                        let prefix = views.take(i as int);
                        prefix.lemma_filter_push(views[i as int], arrived_by(now));
                        prefix.lemma_filter_push(views[i as int], later_than(now));
                        assert(views.take(i + 1) =~= prefix.push(views[i as int]));
                    }
                    let row = (rows[i].0.clone(), rows[i].1, rows[i].2);
                    assert(row.deep_view() == views[i as int]);
                    if row.1 <= now {
                        output.push(row);
                        assert(output.deep_view() =~= out0.push(views[i as int]));
                    } else {
                        rest.push(row);
                        assert(rest.deep_view() =~= rest0.push(views[i as int]));
                    }
                    i += 1;
                }
                assert(views.take(rows.len() as int) =~= views);
                if let Some(time) = earliest_of(&rest) {
                    self.compute_state.schedule_at(subgraph, time);
                } else {
                    self.compute_state.schedule_none(subgraph);
                }
                let ghost rest_view = rest.deep_view();
                self.subgraphs[subgraph.0] = Subgraph::Constant { rows: rest };
                proof {
                    assert(self@.subgraphs =~= before.subgraphs.update(
                        subgraph.0 as int,
                        SubgraphView::Constant { rows: rest_view },
                    ));
                    assert(self@.globals =~= before.globals);
                    assert(self@.wf()) by {
                        assert forall|i: int| 0 <= i < self@.subgraphs.len() implies (
                        #[trigger] self@.subgraphs[i] matches SubgraphView::Mfp { arrange, .. }
                            ==> arrange.index < self@.state.arrangements.len()) by {
                            if i != subgraph.0 {
                                assert(self@.subgraphs[i] == before.subgraphs[i]);
                            }
                        }
                    }
                }
                output
            },
            Subgraph::Mfp { input: _, plan, arrange } => {
                assert(before.subgraphs[subgraph.0 as int] == self.subgraphs[subgraph.0 as int]@);
                let output = self.compute_state.run_mfp(subgraph, *arrange, plan, input);
                proof {
                    assert(self@.subgraphs =~= before.subgraphs);
                    assert(self@.globals =~= before.globals);
                    assert(self@.wf()) by {
                        assert forall|i: int| 0 <= i < self@.subgraphs.len() implies (
                        #[trigger] self@.subgraphs[i] matches SubgraphView::Mfp { arrange, .. }
                            ==> arrange.index < self@.state.arrangements.len()) by {
                            assert(self@.subgraphs[i] == before.subgraphs[i]);
                        }
                    }
                }
                output
            },
        }
    }

    /// Adds a map-filter-project operator that reads `input` and has the plan
    /// `mfp_plan` and a new, empty arrangement; returns the operator's bundle.
    fn add_mfp(&mut self, input: Collection, mfp_plan: MfpPlan) -> (bundle: CollectionBundle)
        requires
            old(self).wf(),
        ensures
            final(self).wf(),
            (final(self)@, bundle@) == old(self)@.with_mfp(input, mfp_plan@),
            bundle@.keys_distinct(),
            bundle@.arranged.len() == 1,
            bundle@.arranged[0].1.arrangement.index < final(self)@.state.arrangements.len(),
            final(self)@.arrangement_of(bundle.collection.stream) == Some(
                bundle@.arranged[0].1.arrangement,
            ),
    {
        let ghost plan = mfp_plan@;
        let output_arity = mfp_plan.output_arity();
        let arrange_handler = self.compute_state.new_arrange();
        let subgraph = SubgraphId(self.subgraphs.len());
        self.subgraphs.push(
            Subgraph::Mfp { input: input.stream, plan: mfp_plan, arrange: arrange_handler },
        );
        let mut arranged: Vec<(Vec<ScalarExpr>, Arranged)> = Vec::new();
        arranged.push((columns(output_arity), Arranged::new(arrange_handler)));
        let bundle = CollectionBundle { collection: Collection::from_port(subgraph), arranged };
        proof {
            assert(self@.subgraphs =~= old(self)@.subgraphs.push(
                SubgraphView::Mfp { input: input.stream, plan, arrange: arrange_handler },
            ));
            assert(self@.globals =~= old(self)@.globals);
            assert(bundle@.arranged =~= seq![
                (all_columns(plan.projection.len()), Arranged { arrangement: arrange_handler }),
            ]);
            assert(self@.wf()) by {
                assert forall|i: int| 0 <= i < self@.subgraphs.len() implies (
                #[trigger] self@.subgraphs[i] matches SubgraphView::Mfp { arrange, .. }
                    ==> arrange.index < self@.state.arrangements.len()) by {
                    if i < old(self)@.subgraphs.len() {
                        assert(self@.subgraphs[i] == old(self)@.subgraphs[i]);
                    }
                }
            }
        }
        bundle
    }

    /// Renders a plan that is known to render.
    fn render_known(&mut self, plan: Plan) -> (bundle: CollectionBundle)
        requires
            old(self).wf(),
            old(self)@.rendered(plan) is Ok,
        ensures
            final(self).wf(),
            old(self)@.rendered(plan) == Ok::<_, Error>((final(self)@, bundle@)),
        decreases plan,
    {
        match plan {
            Plan::Constant { rows } => self.render_constant(rows),
            Plan::Get { id: Id::Global(id) } => self.get_global(id).unwrap(),
            Plan::Mfp { input, mfp } => {
                let input = self.render_known(*input);
                let mfp_plan = MfpPlan::create_from(mfp).unwrap();
                self.add_mfp(input.collection, mfp_plan)
            },
        }
    }

    /// Renders `plan`: adds the operators that compute it, and returns the
    /// bundle of what it computes. Where it fails, nothing is added.
    pub fn render_plan(&mut self, plan: Plan) -> (r: Result<CollectionBundle, Error>)
        requires
            old(self).wf(),
        ensures
            final(self).wf(),
            rendered_view(r, final(self)@) == old(self)@.rendered(plan),
            r is Err ==> final(self)@ == old(self)@,
            old(self)@.globals_keys_distinct() ==> (r matches Ok(bundle) ==> bundle@.keys_distinct()),
    {
        match plan {
            Plan::Constant { rows } => Ok(self.render_constant(rows)),
            Plan::Get { id: Id::Global(id) } => match self.get_global(id) {
                Some(bundle) => Ok(bundle),
                None => Err(Error::UndefinedCollection { id }),
            },
            Plan::Mfp { input, mfp } => self.render_mfp(input, mfp),
        }
    }

    /// Renders the map-filter-project operator `mfp` over what `input`
    /// computes.
    ///
    /// `input` is rendered, the operator is compiled, and the operator is added
    /// with a new, empty arrangement of its own. The bundle returned names the
    /// operator's output and offers its arrangement under the key of all output
    /// columns, so that a reader may use the arrangement in place of the stream.
    ///
    /// Fails where `input` cannot be rendered, with the error of `input`, and
    /// else where `mfp` cannot be compiled, with the error that
    /// [`MfpPlan::create_from`] gives. Where it fails, nothing is added: that
    /// `input` renders is found out before anything is rendered.
    pub fn render_mfp(&mut self, input: Box<Plan>, mfp: MapFilterProject) -> (r: Result<
        CollectionBundle,
        Error,
    >)
        requires
            old(self).wf(),
        ensures
            final(self).wf(),
            rendered_view(r, final(self)@) == old(self)@.rendered_mfp(*input, mfp@),
            r is Err ==> final(self)@ == old(self)@,
            r matches Ok(bundle) ==> bundle@.keys_distinct() && bundle@.arranged.len() == 1
                && bundle@.arranged[0].1.arrangement.index < final(self)@.state.arrangements.len()
                && final(self)@.arrangement_of(bundle.collection.stream) == Some(
                bundle@.arranged[0].1.arrangement,
            ),
    {
        match self.check_plan(&input) {
            Err(e) => {
                return Err(e);
            },
            Ok(()) => {},
        }
        let mfp_plan = match MfpPlan::create_from(mfp) {
            Ok(mfp_plan) => mfp_plan,
            Err(e) => {
                return Err(e);
            },
        };
        let input = self.render_known(*input);
        Ok(self.add_mfp(input.collection, mfp_plan))
    }
}

/// Where the input of an operator cannot be rendered, rendering the operator
/// ends with the error of the input, whether or not the operator can be
/// compiled; where the input renders, it ends with the compiler's error, if
/// the operator cannot be compiled.
pub proof fn lemma_input_error_comes_first(c: ContextView, input: Plan, mfp: MapFilterProjectView)
    ensures
        c.rendered(input) matches Err(e) ==> c.rendered_mfp(input, mfp) == Err::<
            (ContextView, CollectionBundleView),
            _,
        >(e),
        c.rendered(input) is Ok ==> (MfpPlanView::create(mfp) matches Err(e) ==> c.rendered_mfp(
            input,
            mfp,
        ) == Err::<(ContextView, CollectionBundleView), _>(e)),
        c.rendered_mfp(input, mfp) is Ok <==> c.rendered(input) is Ok && MfpPlanView::create(mfp)
            is Ok,
{
}

/// Running an operator removes no arrangement, and changes none but the
/// operator's own: what a reader gets from any other arrangement is what it
/// got before.
pub proof fn lemma_run_keeps_arrangements(
    c: ContextView,
    subgraph: SubgraphId,
    input: Seq<DiffRowView>,
    handle: ArrangeHandler,
)
    requires
        c.wf(),
        handle.index < c.state.arrangements.len(),
    ensures
        handle.index < c.after_run(subgraph, input).state.arrangements.len(),
        c.arrangement_of(subgraph) != Some(handle) ==> c.after_run(
            subgraph,
            input,
        ).state.arrangements[handle.index as int] == c.state.arrangements[handle.index as int],
{
}

/// Rendering a plan removes no arrangement and changes none: the handles
/// that were given out name what they named.
pub proof fn lemma_render_keeps_arrangements(c: ContextView, plan: Plan, handle: ArrangeHandler)
    requires
        handle.index < c.state.arrangements.len(),
    ensures
        c.rendered(plan) matches Ok((after, _)) ==> handle.index < after.state.arrangements.len()
            && after.state.arrangements[handle.index as int] == c.state.arrangements[handle.index as int],
    decreases plan,
{
    match plan {
        Plan::Constant { rows } => {},
        Plan::Get { id } => {},
        Plan::Mfp { input, mfp } => {
            lemma_render_keeps_arrangements(c, *input, handle);
        },
    }
}

/// The bundle of a rendered operator offers one arrangement: that of the
/// operator, which is new, empty and never compacted, and which its handle
/// names in the context that rendering leaves, where that context is one that
/// a machine can hold.
pub proof fn lemma_bundle_of_mfp(c: ContextView, input: Plan, mfp: MapFilterProjectView)
    ensures
        c.rendered_mfp(input, mfp) matches Ok((after, bundle)) ==> {
            &&& after.state.arrangements.len() <= usize::MAX && after.subgraphs.len()
                <= usize::MAX ==> {
                &&& bundle.arranged[0].1.arrangement.index < after.state.arrangements.len()
                &&& after.state.arrangements[bundle.arranged[0].1.arrangement.index as int] == (
                ArrangementView { updates: Seq::empty(), frontier: None })
                &&& after.arrangement_of(bundle.collection.stream) == Some(
                    bundle.arranged[0].1.arrangement,
                )
            }
            &&& bundle.arranged.len() == 1
            &&& bundle.keys_distinct()
        },
{
}

/// A row that cannot be evaluated touches nothing of the run of its operator
/// but the recorded errors. What the operator hands on, and the context that
/// the run leaves, are what they would be without the row, but that the
/// row's error is recorded once, at the row's place among the errors.
pub proof fn lemma_run_error_isolation(
    c: ContextView,
    subgraph: SubgraphId,
    before: Seq<DiffRowView>,
    bad: DiffRowView,
    behind: Seq<DiffRowView>,
    e: EvalError,
)
    requires
        c.plan_of(subgraph) is Some,
        c.plan_of(subgraph).unwrap().outcome(bad.0, c.now(), bad.2) == Err::<Outcome, _>(e),
    ensures
        ({
            let with = before + seq![bad] + behind;
            let without = before + behind;
            let plan = c.plan_of(subgraph).unwrap();
            let arrange = c.state.arrangements[c.arrangement_of(subgraph).unwrap().index as int];
            let rest = refusals(arrange, updates_of(plan, without, c.now()), c.now());
            &&& c.output_of_run(subgraph, with) == c.output_of_run(subgraph, without)
            &&& c.after_run(subgraph, without).state.errors == c.state.errors + (errors_of(
                plan,
                before,
                c.now(),
            ) + errors_of(plan, behind, c.now()) + rest)
            &&& c.after_run(subgraph, with).state.errors == c.state.errors + (errors_of(
                plan,
                before,
                c.now(),
            ) + seq![RuntimeError::Eval(e)] + errors_of(plan, behind, c.now()) + rest)
            &&& c.after_run(subgraph, with) == (ContextView {
                state: DataflowStateView {
                    errors: c.after_run(subgraph, with).state.errors,
                    ..c.after_run(subgraph, without).state
                },
                ..c.after_run(subgraph, without)
            })
        }),
{
    let plan = c.plan_of(subgraph).unwrap();
    let arrange = c.state.arrangements[c.arrangement_of(subgraph).unwrap().index as int];
    lemma_activation_error_isolation(plan, arrange, before, bad, behind, c.now(), e);
}

} // verus!
