//! Map-filter-project operators: their description, their compiled plan, and
//! the evaluation of a plan on one row.
//!
//! An operator widens each input row by its mapped expressions, keeps the rows
//! on which every predicate is true, and hands on the projected columns.
//! Columns are numbered over the input row followed by the mapped expressions.
//! A predicate may compare the clock with an expression over the row: such a
//! predicate bounds the time during which the row is in the output.

use vstd::prelude::*;
use crate::error::Error;
use crate::expr::{
    value_to_internal_ts, value_to_ts_spec, BinaryFunc, EvalError, ScalarExpr, UnaryFunc,
    UnmaterializableFunc,
};
use crate::repr::{Diff, DiffRow, DiffRowView, Row, Timestamp, Value};

verus! {

/// What the evaluation of a plan makes of one row: an update, or an error with
/// the time and multiplicity of the row that caused it.
pub type Evaluated = Result<DiffRow, (EvalError, Timestamp, Diff)>;

/// Mathematical model of an [`Evaluated`].
pub type EvaluatedView = Result<DiffRowView, (EvalError, Timestamp, Diff)>;

/// Model of one evaluation result.
pub open spec fn evaluated_view(r: Evaluated) -> EvaluatedView {
    match r {
        Ok(update) => Ok(update.deep_view()),
        Err(e) => Err(e),
    }
}

/// Model of a list of evaluation results.
pub open spec fn evaluated_views(rs: Seq<Evaluated>) -> Seq<EvaluatedView> {
    rs.map_values(|r: Evaluated| evaluated_view(r))
}

/// The expression of `o` as a sequence of at most one expression.
pub open spec fn optional(o: Option<ScalarExpr>) -> Seq<ScalarExpr> {
    match o {
        Some(e) => seq![e],
        None => Seq::empty(),
    }
}

/// The instant after the one that `e` names.
pub open spec fn step(e: ScalarExpr) -> ScalarExpr {
    ScalarExpr::CallUnary { func: UnaryFunc::StepTimestamp, expr: Box::new(e) }
}

/// The bounds that the predicate `p` puts on the clock: an expression for the
/// first instant at which it holds, and one for the first instant at which it
/// holds no more. `None` where `p` is no comparison of the clock with an
/// expression that does not read the clock.
pub open spec fn bound_of(p: ScalarExpr) -> Option<(Option<ScalarExpr>, Option<ScalarExpr>)> {
    match p {
        ScalarExpr::CallBinary { func, expr1, expr2 } => {
            let now = ScalarExpr::CallUnmaterializable(UnmaterializableFunc::Now);
            let first_is_now = *expr1 == now;
            let second_is_now = *expr2 == now;
            if first_is_now == second_is_now {
                None
            } else {
                // the predicate reads `now func other`
                let other = if second_is_now { *expr1 } else { *expr2 };
                let func = if second_is_now { func.reverse_spec() } else { Some(func) };
                if other.temporal() {
                    None
                } else {
                    match func {
                        Some(BinaryFunc::Eq) => Some((Some(other), Some(step(other)))),
                        Some(BinaryFunc::Lt) => Some((None, Some(other))),
                        Some(BinaryFunc::Lte) => Some((None, Some(step(other)))),
                        Some(BinaryFunc::Gt) => Some((Some(step(other)), None)),
                        Some(BinaryFunc::Gte) => Some((Some(other), None)),
                        _ => None,
                    }
                }
            }
        },
        _ => None,
    }
}

/// The first `n` predicates of `preds`, parted into those that do not read the
/// clock, the lower bounds and the upper bounds that the others put on it.
/// `None` where one of them reads the clock and gives no bound.
pub open spec fn split_predicates(preds: Seq<ScalarExpr>, n: int) -> Option<
    (Seq<ScalarExpr>, Seq<ScalarExpr>, Seq<ScalarExpr>),
>
    decreases n,
{
    if n <= 0 {
        Some((Seq::empty(), Seq::empty(), Seq::empty()))
    } else {
        match split_predicates(preds, n - 1) {
            None => None,
            Some((plain, lower, upper)) => {
                let p = preds[n - 1];
                if !p.temporal() {
                    Some((plain.push(p), lower, upper))
                } else {
                    match bound_of(p) {
                        None => None,
                        Some((lo, up)) => Some((plain, lower + optional(lo), upper + optional(up))),
                    }
                }
            },
        }
    }
}

/// Mathematical model of a [`MapFilterProject`].
pub struct MapFilterProjectView {
    pub expressions: Seq<ScalarExpr>,
    pub predicates: Seq<ScalarExpr>,
    pub projection: Seq<usize>,
    pub input_arity: usize,
}

impl MapFilterProjectView {
    /// Number of columns of a widened row.
    pub open spec fn width(self) -> int {
        self.input_arity + self.expressions.len()
    }

    /// Every column that is named exists: a mapped expression reads the input
    /// and the expressions before it, a predicate and the projection read the
    /// widened row.
    pub open spec fn valid(self) -> bool {
        &&& self.width() <= usize::MAX
        &&& forall|k: int|
            0 <= k < self.expressions.len() ==> (#[trigger] self.expressions[k]).within_arity(
                (self.input_arity + k) as usize,
            )
        &&& forall|k: int|
            0 <= k < self.predicates.len() ==> (#[trigger] self.predicates[k]).within_arity(
                self.width() as usize,
            )
        &&& forall|k: int|
            0 <= k < self.projection.len() ==> (#[trigger] self.projection[k]) < self.width()
    }

    /// `exprs` can be mapped behind the expressions mapped so far.
    pub open spec fn can_map(self, exprs: Seq<ScalarExpr>) -> bool {
        &&& self.width() + exprs.len() <= usize::MAX
        &&& forall|k: int|
            0 <= k < exprs.len() ==> (#[trigger] exprs[k]).within_arity(
                (self.width() + k) as usize,
            )
    }

    /// The operator that also maps `exprs` and hands their columns on.
    pub open spec fn mapped(self, exprs: Seq<ScalarExpr>) -> Self {
        MapFilterProjectView {
            expressions: self.expressions + exprs,
            predicates: self.predicates,
            projection: self.projection + Seq::new(
                exprs.len(),
                |i: int| (self.width() + i) as usize,
            ),
            input_arity: self.input_arity,
        }
    }

    /// `preds` read only columns of the widened row.
    pub open spec fn can_filter(self, preds: Seq<ScalarExpr>) -> bool {
        &&& self.width() <= usize::MAX
        &&& forall|k: int|
            0 <= k < preds.len() ==> (#[trigger] preds[k]).within_arity(self.width() as usize)
    }

    /// The operator that also asks `preds` of a row.
    pub open spec fn filtered(self, preds: Seq<ScalarExpr>) -> Self {
        MapFilterProjectView {
            expressions: self.expressions,
            predicates: self.predicates + preds,
            projection: self.projection,
            input_arity: self.input_arity,
        }
    }

    /// `columns` are columns of the widened row.
    pub open spec fn can_project(self, columns: Seq<usize>) -> bool {
        forall|k: int| 0 <= k < columns.len() ==> (#[trigger] columns[k]) < self.width()
    }

    /// The operator that hands on `columns` of the widened row.
    pub open spec fn projected(self, columns: Seq<usize>) -> Self {
        MapFilterProjectView {
            expressions: self.expressions,
            predicates: self.predicates,
            projection: columns,
            input_arity: self.input_arity,
        }
    }
}

/// No expression of `s` reads the clock.
pub open spec fn temporal_free(s: Seq<ScalarExpr>) -> bool {
    forall|k: int| 0 <= k < s.len() ==> !(#[trigger] s[k]).temporal()
}

/// Description of a map-filter-project operator.
#[derive(Debug, PartialEq, Eq)]
pub struct MapFilterProject {
    /// Expressions that widen the row, each reading the input and the
    /// expressions before it.
    pub expressions: Vec<ScalarExpr>,
    /// Predicates that a widened row has to meet.
    pub predicates: Vec<ScalarExpr>,
    /// Columns of the widened row that are handed on, in this order.
    pub projection: Vec<usize>,
    /// Number of columns of an input row.
    pub input_arity: usize,
}

impl View for MapFilterProject {
    type V = MapFilterProjectView;

    open spec fn view(&self) -> MapFilterProjectView {
        MapFilterProjectView {
            expressions: self.expressions@,
            predicates: self.predicates@,
            projection: self.projection@,
            input_arity: self.input_arity,
        }
    }
}

/// Whether each expression of `exprs` reads only columns below `base`, the
/// first of them, or below `base` plus its place where `growing`.
fn all_within(exprs: &Vec<ScalarExpr>, base: usize, growing: bool) -> (b: bool)
    requires
        growing ==> base + exprs.len() <= usize::MAX,
    ensures
        b == forall|k: int|
            0 <= k < exprs.len() ==> (#[trigger] exprs[k]).within_arity(
                if growing { (base + k) as usize } else { base },
            ),
{
    let mut k: usize = 0;
    while k < exprs.len()
        invariant
            k <= exprs.len(),
            growing ==> base + exprs.len() <= usize::MAX,
            forall|j: int|
                0 <= j < k ==> (#[trigger] exprs[j]).within_arity(
                    if growing { (base + j) as usize } else { base },
                ),
        decreases exprs.len() - k,
    {
        let arity = if growing { base + k } else { base };
        if !exprs[k].is_within_arity(arity) {
            return false;
        }
        k += 1;
    }
    true
}

/// Whether every column of `columns` is below `width`.
fn all_below(columns: &Vec<usize>, width: usize) -> (b: bool)
    ensures
        b == forall|k: int| 0 <= k < columns.len() ==> (#[trigger] columns[k]) < width,
{
    let mut k: usize = 0;
    while k < columns.len()
        invariant
            k <= columns.len(),
            forall|j: int| 0 <= j < k ==> (#[trigger] columns[j]) < width,
        decreases columns.len() - k,
    {
        if columns[k] >= width {
            return false;
        }
        k += 1;
    }
    true
}

impl MapFilterProject {
    /// The operator that hands on every row of `input_arity` columns as it is.
    pub fn new(input_arity: usize) -> (m: MapFilterProject)
        ensures
            m@.expressions == Seq::<ScalarExpr>::empty(),
            m@.predicates == Seq::<ScalarExpr>::empty(),
            m@.projection == Seq::new(input_arity as nat, |i: int| i as usize),
            m@.input_arity == input_arity,
            m@.valid(),
    {
        let mut projection: Vec<usize> = Vec::new();
        let mut c: usize = 0;
        while c < input_arity
            invariant
                c <= input_arity,
                projection@ == Seq::new(c as nat, |i: int| i as usize),
            decreases input_arity - c,
        {
            projection.push(c);
            assert(projection@ =~= Seq::new((c + 1) as nat, |i: int| i as usize));
            c += 1;
        }
        MapFilterProject {
            expressions: Vec::new(),
            predicates: Vec::new(),
            projection,
            input_arity,
        }
    }

    /// Number of columns of a widened row, where it can be counted.
    fn width(&self) -> (w: Option<usize>)
        ensures
            w is Some <==> self@.width() <= usize::MAX,
            w is Some ==> w.unwrap() == self@.width(),
    {
        self.input_arity.checked_add(self.expressions.len())
    }

    /// Number of columns that the operator hands on.
    pub fn output_arity(&self) -> (n: usize)
        ensures
            n == self@.projection.len(),
    {
        self.projection.len()
    }

    /// Also maps `expressions`, each of which may read the columns before it,
    /// and hands their columns on behind the others.
    pub fn map(self, expressions: Vec<ScalarExpr>) -> (r: Result<MapFilterProject, Error>)
        ensures
            r is Ok <==> self@.can_map(expressions@),
            r matches Ok(m) ==> m@ == self@.mapped(expressions@),
            r matches Err(e) ==> e == Error::UndefinedColumn,
    {
        let width = match self.width() {
            Some(width) => width,
            None => {
                return Err(Error::UndefinedColumn);
            },
        };
        if expressions.len() > usize::MAX - width {
            return Err(Error::UndefinedColumn);
        }
        if !all_within(&expressions, width, true) {
            return Err(Error::UndefinedColumn);
        }
        let mut m = self;
        let mut expressions = expressions;
        let ghost added = expressions@;
        let ghost start = m.projection@;
        let n = expressions.len();
        let mut k: usize = 0;
        while k < n
            invariant
                k <= n,
                width + n <= usize::MAX,
                m.expressions == self.expressions,
                m.predicates == self.predicates,
                m.input_arity == self.input_arity,
                m.projection@ == start + Seq::new(k as nat, |i: int| (width + i) as usize),
            decreases n - k,
        {
            m.projection.push(width + k);
            assert(m.projection@ =~= start + Seq::new(
                (k + 1) as nat,
                |i: int| (width + i) as usize,
            ));
            k += 1;
        }
        m.expressions.append(&mut expressions);
        assert(m@.projection =~= self@.mapped(added).projection);
        Ok(m)
    }

    /// Also asks `predicates` of each widened row.
    pub fn filter(self, predicates: Vec<ScalarExpr>) -> (r: Result<MapFilterProject, Error>)
        ensures
            r is Ok <==> self@.can_filter(predicates@),
            r matches Ok(m) ==> m@ == self@.filtered(predicates@),
            r matches Err(e) ==> e == Error::UndefinedColumn,
    {
        let width = match self.width() {
            Some(width) => width,
            None => {
                return Err(Error::UndefinedColumn);
            },
        };
        if !all_within(&predicates, width, false) {
            return Err(Error::UndefinedColumn);
        }
        let mut m = self;
        let mut predicates = predicates;
        m.predicates.append(&mut predicates);
        Ok(m)
    }

    /// Hands on `columns` of the widened row, in this order, and no others.
    pub fn project(self, columns: Vec<usize>) -> (r: Result<MapFilterProject, Error>)
        ensures
            r is Ok <==> self@.can_project(columns@),
            r matches Ok(m) ==> m@ == self@.projected(columns@),
            r matches Err(e) ==> e == Error::UndefinedColumn,
    {
        let mut k: usize = 0;
        while k < columns.len()
            invariant
                k <= columns.len(),
                forall|j: int| 0 <= j < k ==> (#[trigger] columns[j]) < self@.width(),
            decreases columns.len() - k,
        {
            let c = columns[k];
            if c < self.input_arity || c - self.input_arity < self.expressions.len() {
            } else {
                return Err(Error::UndefinedColumn);
            }
            k += 1;
        }
        let mut m = self;
        m.projection = columns;
        Ok(m)
    }

    /// Whether every column that the operator names exists.
    pub fn is_valid(&self) -> (b: bool)
        ensures
            b == self@.valid(),
    {
        let width = match self.width() {
            Some(width) => width,
            None => {
                return false;
            },
        };
        let expressions = all_within(&self.expressions, self.input_arity, true);
        let predicates = all_within(&self.predicates, width, false);
        let projection = all_below(&self.projection, width);
        proof {
            let v = self@;
            assert(width == v.width());
            assert(v.width() as usize == width);
            assert(v.predicates == self.predicates@);
            assert(v.projection == self.projection@);
            assert(v.expressions == self.expressions@);
            assert(predicates == forall|k: int|
                0 <= k < self.predicates.len() ==> (#[trigger] self.predicates[k]).within_arity(
                    width,
                ));
            assert(expressions == forall|k: int|
                0 <= k < v.expressions.len() ==> (#[trigger] v.expressions[k]).within_arity(
                    (v.input_arity + k) as usize,
                ));
            assert(predicates == forall|k: int|
                0 <= k < v.predicates.len() ==> (#[trigger] v.predicates[k]).within_arity(
                    v.width() as usize,
                ));
            assert(projection == forall|k: int|
                0 <= k < self.projection.len() ==> (#[trigger] self.projection[k]) < width);
            assert(projection == forall|k: int|
                0 <= k < v.projection.len() ==> (#[trigger] v.projection[k]) < v.width());
        }
        expressions && predicates && projection
    }
}

/// Mathematical model of an [`MfpPlan`].
pub struct MfpPlanView {
    /// Expressions that widen the row.
    pub expressions: Seq<ScalarExpr>,
    /// Predicates that do not read the clock.
    pub predicates: Seq<ScalarExpr>,
    /// Instants before which the row is not in the output.
    pub lower_bounds: Seq<ScalarExpr>,
    /// Instants from which on the row is no more in the output.
    pub upper_bounds: Seq<ScalarExpr>,
    /// Columns of the widened row that are handed on.
    pub projection: Seq<usize>,
    /// Number of columns of an input row.
    pub input_arity: usize,
}

/// What is to be done with a row that was evaluated: nothing, or an update of
/// the projected row from a first instant on and, where the row leaves the
/// output again, its retraction at a later instant.
pub type Outcome = Option<(Seq<Value>, Timestamp, Option<Timestamp>)>;

impl MfpPlanView {
    /// The plan of the operator `mfp`, or why it has none.
    pub open spec fn create(mfp: MapFilterProjectView) -> Result<MfpPlanView, Error> {
        if !mfp.valid() {
            Err(Error::UndefinedColumn)
        } else if !temporal_free(mfp.expressions) {
            Err(Error::UnsupportedTemporalFilter)
        } else {
            match split_predicates(mfp.predicates, mfp.predicates.len() as int) {
                None => Err(Error::UnsupportedTemporalFilter),
                Some((plain, lower, upper)) => Ok(
                    MfpPlanView {
                        expressions: mfp.expressions,
                        predicates: plain,
                        lower_bounds: lower,
                        upper_bounds: upper,
                        projection: mfp.projection,
                        input_arity: mfp.input_arity,
                    },
                ),
            }
        }
    }

    /// The row `values` widened by the first `k` expressions.
    pub open spec fn widened(self, values: Seq<Value>, k: int) -> Result<Seq<Value>, EvalError>
        decreases k,
    {
        if k <= 0 {
            Ok(values)
        } else {
            match self.widened(values, k - 1) {
                Err(e) => Err(e),
                Ok(wide) => match self.expressions[k - 1].eval_spec(wide) {
                    Err(e) => Err(e),
                    Ok(v) => Ok(wide.push(v)),
                },
            }
        }
    }

    /// Whether the widened row `wide` meets the first `k` predicates, asked in
    /// order up to the first that it does not meet.
    pub open spec fn passes(self, wide: Seq<Value>, k: int) -> Result<bool, EvalError>
        decreases k,
    {
        if k <= 0 {
            Ok(true)
        } else {
            match self.passes(wide, k - 1) {
                Err(e) => Err(e),
                Ok(false) => Ok(false),
                Ok(true) => match self.predicates[k - 1].eval_spec(wide) {
                    Err(e) => Err(e),
                    Ok(v) => Ok(v == Value::Boolean(true)),
                },
            }
        }
    }

    /// The latest of `sys_time` and the first `k` lower bounds on `wide`, and
    /// whether one of these bounds is null.
    pub open spec fn lower_bound(self, wide: Seq<Value>, sys_time: Timestamp, k: int) -> Result<
        (Timestamp, bool),
        EvalError,
    >
        decreases k,
    {
        if k <= 0 {
            Ok((sys_time, false))
        } else {
            match self.lower_bound(wide, sys_time, k - 1) {
                Err(e) => Err(e),
                Ok((lower, null)) => match self.lower_bounds[k - 1].eval_spec(wide) {
                    Err(e) => Err(e),
                    Ok(v) => if v is Null {
                        Ok((lower, true))
                    } else {
                        match value_to_ts_spec(v) {
                            Err(e) => Err(e),
                            Ok(ts) => Ok((if ts > lower { ts } else { lower }, null)),
                        }
                    },
                },
            }
        }
    }

    /// The earliest of the first `k` upper bounds on `wide`, but not before
    /// `lower`, and whether one of these bounds is null. Once the bound has
    /// come down to `lower`, the bounds that follow are not read.
    pub open spec fn upper_bound(self, wide: Seq<Value>, lower: Timestamp, k: int) -> Result<
        (Option<Timestamp>, bool),
        EvalError,
    >
        decreases k,
    {
        if k <= 0 {
            Ok((None, false))
        } else {
            match self.upper_bound(wide, lower, k - 1) {
                Err(e) => Err(e),
                Ok((upper, null)) => if upper == Some(lower) {
                    Ok((upper, null))
                } else {
                    match self.upper_bounds[k - 1].eval_spec(wide) {
                        Err(e) => Err(e),
                        Ok(v) => if v is Null {
                            Ok((upper, true))
                        } else {
                            match value_to_ts_spec(v) {
                                Err(e) => Err(e),
                                Ok(ts) => {
                                    let least = if upper is Some && upper.unwrap() < ts {
                                        upper.unwrap()
                                    } else {
                                        ts
                                    };
                                    Ok((Some(if least < lower { lower } else { least }), null))
                                },
                            }
                        },
                    }
                },
            }
        }
    }

    /// The first `k` projected columns of `wide`.
    pub open spec fn picked(self, wide: Seq<Value>, k: int) -> Result<Seq<Value>, EvalError>
        decreases k,
    {
        if k <= 0 {
            Ok(Seq::empty())
        } else {
            match self.picked(wide, k - 1) {
                Err(e) => Err(e),
                Ok(row) => {
                    let c = self.projection[k - 1];
                    if c < wide.len() {
                        Ok(row.push(wide[c as int]))
                    } else {
                        Err(EvalError::ColumnOutOfRange { column: c })
                    }
                },
            }
        }
    }

    /// What is to be done with the row `values` of multiplicity `diff` that
    /// arrives when the clock shows `sys_time`.
    ///
    /// The row is dropped where it fails a predicate, where a bound on the
    /// clock is null, and where the time during which it holds is empty.
    pub open spec fn outcome(self, values: Seq<Value>, sys_time: Timestamp, diff: Diff) -> Result<
        Outcome,
        EvalError,
    > {
        match self.widened(values, self.expressions.len() as int) {
            Err(e) => Err(e),
            Ok(wide) => match self.passes(wide, self.predicates.len() as int) {
                Err(e) => Err(e),
                Ok(false) => Ok(None),
                Ok(true) => match self.lower_bound(
                    wide,
                    sys_time,
                    self.lower_bounds.len() as int,
                ) {
                    Err(e) => Err(e),
                    Ok((lower, null_below)) => match self.upper_bound(
                        wide,
                        lower,
                        self.upper_bounds.len() as int,
                    ) {
                        Err(e) => Err(e),
                        Ok((upper, null_above)) => if upper == Some(lower) || null_below
                            || null_above {
                            Ok(None)
                        } else {
                            match self.picked(wide, self.projection.len() as int) {
                                Err(e) => Err(e),
                                Ok(row) => if upper is Some && diff == i64::MIN {
                                    Err(EvalError::Overflow)
                                } else {
                                    Ok(Some((row, lower, upper)))
                                },
                            }
                        },
                    },
                },
            },
        }
    }

    /// The updates that the row `values` of multiplicity `diff` gives when the
    /// clock shows `sys_time`: none, one (the row from some instant on), two
    /// (and its retraction at a later instant), or an error.
    pub open spec fn evaluate(self, values: Seq<Value>, sys_time: Timestamp, diff: Diff) -> Seq<
        EvaluatedView,
    > {
        match self.outcome(values, sys_time, diff) {
            Err(e) => seq![Err((e, sys_time, diff))],
            Ok(None) => Seq::empty(),
            Ok(Some((row, from, None))) => seq![Ok((row, from, diff))],
            Ok(Some((row, from, Some(until)))) => seq![
                Ok((row, from, diff)),
                Ok((row, until, (-diff) as Diff)),
            ],
        }
    }
}

/// A map-filter-project operator that is ready to be evaluated: its predicates
/// on the clock are turned into bounds on the time during which a row holds.
#[derive(Debug)]
pub struct MfpPlan {
    expressions: Vec<ScalarExpr>,
    predicates: Vec<ScalarExpr>,
    lower_bounds: Vec<ScalarExpr>,
    upper_bounds: Vec<ScalarExpr>,
    projection: Vec<usize>,
    input_arity: usize,
}

impl View for MfpPlan {
    type V = MfpPlanView;

    closed spec fn view(&self) -> MfpPlanView {
        MfpPlanView {
            expressions: self.expressions@,
            predicates: self.predicates@,
            lower_bounds: self.lower_bounds@,
            upper_bounds: self.upper_bounds@,
            projection: self.projection@,
            input_arity: self.input_arity,
        }
    }
}

/// Whether the operator `mfp` can be compiled, and the error where it cannot.
pub open spec fn checked(mfp: MapFilterProjectView) -> Result<(), Error> {
    match MfpPlanView::create(mfp) {
        Ok(_) => Ok(()),
        Err(e) => Err(e),
    }
}

/// Model of what [`MfpPlan::create_from`] returns.
pub open spec fn created_view(r: Result<MfpPlan, Error>) -> Result<MfpPlanView, Error> {
    match r {
        Ok(plan) => Ok(plan@),
        Err(e) => Err(e),
    }
}

/// The bounds that the predicate `p` puts on the clock.
fn extract_bound(p: ScalarExpr) -> (r: Option<(Option<ScalarExpr>, Option<ScalarExpr>)>)
    ensures
        r == bound_of(p),
{
    match p {
        ScalarExpr::CallBinary { func, expr1, expr2 } => {
            let first_is_now = expr1.is_now();
            let second_is_now = expr2.is_now();
            if first_is_now == second_is_now {
                return None;
            }
            let other = if second_is_now { *expr1 } else { *expr2 };
            let func = if second_is_now { func.reverse_compare() } else { Some(func) };
            if other.contains_temporal() {
                return None;
            }
            match func {
                Some(BinaryFunc::Eq) => {
                    let next = other.duplicate().call_unary(UnaryFunc::StepTimestamp);
                    Some((Some(other), Some(next)))
                },
                Some(BinaryFunc::Lt) => Some((None, Some(other))),
                Some(BinaryFunc::Lte) => Some(
                    (None, Some(other.call_unary(UnaryFunc::StepTimestamp))),
                ),
                Some(BinaryFunc::Gt) => Some(
                    (Some(other.call_unary(UnaryFunc::StepTimestamp)), None),
                ),
                Some(BinaryFunc::Gte) => Some((Some(other), None)),
                _ => None,
            }
        },
        _ => None,
    }
}

/// Whether the predicate `p` puts a bound on the clock.
fn gives_bound(p: &ScalarExpr) -> (b: bool)
    ensures
        b == bound_of(*p) is Some,
{
    match p {
        ScalarExpr::CallBinary { func, expr1, expr2 } => {
            let first_is_now = expr1.is_now();
            let second_is_now = expr2.is_now();
            if first_is_now == second_is_now {
                return false;
            }
            let temporal = if second_is_now {
                expr1.contains_temporal()
            } else {
                expr2.contains_temporal()
            };
            if temporal {
                return false;
            }
            let func = if second_is_now { func.reverse_compare() } else { Some(*func) };
            match func {
                Some(BinaryFunc::Eq) => true,
                Some(BinaryFunc::Lt) => true,
                Some(BinaryFunc::Lte) => true,
                Some(BinaryFunc::Gt) => true,
                Some(BinaryFunc::Gte) => true,
                _ => false,
            }
        },
        _ => false,
    }
}

impl MfpPlan {
    /// Whether the operator `mfp` can be compiled, and the error that
    /// [`MfpPlan::create_from`] gives where it cannot. The operator is left as
    /// it is.
    #[verifier::loop_isolation(false)]
    pub fn check(mfp: &MapFilterProject) -> (r: Result<(), Error>)
        ensures
            r == checked(mfp@),
    {
        if !mfp.is_valid() {
            return Err(Error::UndefinedColumn);
        }
        let mut k: usize = 0;
        while k < mfp.expressions.len()
            invariant
                k <= mfp.expressions.len(),
                forall|j: int| 0 <= j < k ==> !(#[trigger] mfp.expressions[j]).temporal(),
            decreases mfp.expressions.len() - k,
        {
            if mfp.expressions[k].contains_temporal() {
                assert(mfp@.expressions[k as int].temporal());
                return Err(Error::UnsupportedTemporalFilter);
            }
            k += 1;
        }
        assert(temporal_free(mfp@.expressions));
        let ghost preds = mfp@.predicates;
        let mut k: usize = 0;
        while k < mfp.predicates.len()
            invariant
                k <= mfp.predicates.len(),
                split_predicates(preds, k as int) is Some,
            decreases mfp.predicates.len() - k,
        {
            if mfp.predicates[k].contains_temporal() && !gives_bound(&mfp.predicates[k]) {
                proof {
                    assert(split_predicates(preds, k + 1) is None);
                    lemma_split_fails(preds, k + 1, preds.len() as int);
                }
                return Err(Error::UnsupportedTemporalFilter);
            }
            k += 1;
        }
        Ok(())
    }

    /// Number of columns that the plan hands on.
    pub fn output_arity(&self) -> (n: usize)
        ensures
            n == self@.projection.len(),
    {
        self.projection.len()
    }

    /// Compiles the operator `mfp`.
    ///
    /// Fails where `mfp` names a column that does not exist, where a mapped
    /// expression reads the clock, and where a predicate reads the clock
    /// otherwise than by comparing it with an expression over the row.
    #[verifier::loop_isolation(false)]
    pub fn create_from(mfp: MapFilterProject) -> (r: Result<MfpPlan, Error>)
        ensures
            created_view(r) == MfpPlanView::create(mfp@),
    {
        if !mfp.is_valid() {
            return Err(Error::UndefinedColumn);
        }
        let mut k: usize = 0;
        while k < mfp.expressions.len()
            invariant
                k <= mfp.expressions.len(),
                forall|j: int| 0 <= j < k ==> !(#[trigger] mfp.expressions[j]).temporal(),
            decreases mfp.expressions.len() - k,
        {
            if mfp.expressions[k].contains_temporal() {
                assert(mfp@.expressions[k as int].temporal());
                return Err(Error::UnsupportedTemporalFilter);
            }
            k += 1;
        }
        assert(temporal_free(mfp@.expressions));
        let MapFilterProject { expressions, predicates, projection, input_arity } = mfp;
        let ghost preds = predicates@;
        let mut plain: Vec<ScalarExpr> = Vec::new();
        let mut lower_bounds: Vec<ScalarExpr> = Vec::new();
        let mut upper_bounds: Vec<ScalarExpr> = Vec::new();
        for p in it: predicates
            invariant
                it.seq() == preds,
                split_predicates(preds, it.index() as int) == Some(
                    (plain@, lower_bounds@, upper_bounds@),
                ),
        {
            if !p.contains_temporal() {
                plain.push(p);
            } else {
                match extract_bound(p) {
                    None => {
                        proof {
                            lemma_split_fails(preds, it.index() + 1, preds.len() as int);
                        }
                        return Err(Error::UnsupportedTemporalFilter);
                    },
                    Some((lo, up)) => {
                        let ghost l0 = lower_bounds@;
                        let ghost u0 = upper_bounds@;
                        if let Some(lo) = lo {
                            lower_bounds.push(lo);
                        }
                        if let Some(up) = up {
                            upper_bounds.push(up);
                        }
                        assert(lower_bounds@ =~= l0 + optional(lo));
                        assert(upper_bounds@ =~= u0 + optional(up));
                    },
                }
            }
        }
        Ok(
            MfpPlan {
                expressions,
                predicates: plain,
                lower_bounds,
                upper_bounds,
                projection,
                input_arity,
            },
        )
    }

    /// Evaluates the plan on the row `values` of multiplicity `diff`, which
    /// arrives when the clock shows `sys_time`.
    ///
    /// Returns the row's update, dated `sys_time` or the later instant from
    /// which the row holds, followed by its retraction where the row holds up
    /// to some instant only. Returns nothing where the row is dropped, and one
    /// error where an expression cannot be evaluated on it.
    pub fn evaluate(&self, values: Vec<Value>, sys_time: Timestamp, diff: Diff) -> (r: Vec<
        Evaluated,
    >)
        ensures
            evaluated_views(r@) == self@.evaluate(values@, sys_time, diff),
    {
        let mut out: Vec<Evaluated> = Vec::new();
        match self.evaluate_inner(values, sys_time, diff) {
            Err(e) => {
                out.push(Err((e, sys_time, diff)));
                assert(evaluated_views(out@) =~= seq![Err((e, sys_time, diff))]);
            },
            Ok(None) => {
                assert(evaluated_views(out@) =~= Seq::empty());
            },
            Ok(Some((row, from, None))) => {
                let ghost rv = row@;
                out.push(Ok((row, from, diff)));
                assert(evaluated_views(out@) =~= seq![Ok((rv, from, diff))]);
            },
            Ok(Some((row, from, Some(until)))) => {
                let ghost rv = row@;
                let again = row.clone();
                out.push(Ok((row, from, diff)));
                out.push(Ok((again, until, -diff)));
                assert(evaluated_views(out@) =~= seq![
                    Ok((rv, from, diff)),
                    Ok((rv, until, (-diff) as Diff)),
                ]);
            },
        }
        out
    }

    /// What is to be done with the row `values`.
    #[verifier::loop_isolation(false)]
    fn evaluate_inner(&self, values: Vec<Value>, sys_time: Timestamp, diff: Diff) -> (r: Result<
        Option<(Row, Timestamp, Option<Timestamp>)>,
        EvalError,
    >)
        ensures
            r is Err <==> self@.outcome(values@, sys_time, diff) is Err,
            r matches Err(e) ==> self@.outcome(values@, sys_time, diff) == Err::<Outcome, _>(e),
            r matches Ok(o) ==> (o is None <==> self@.outcome(values@, sys_time, diff)
                == Ok::<Outcome, EvalError>(None)),
            r matches Ok(Some(o)) ==> self@.outcome(values@, sys_time, diff) == Ok::<
                Outcome,
                EvalError,
            >(Some((o.0@, o.1, o.2))),
    {
        let ghost plan = self@;
        let ghost input = values@;
        let mut wide = values;
        let mut k: usize = 0;
        while k < self.expressions.len()
            invariant
                k <= self.expressions.len(),
                plan == self@,
                plan.widened(input, k as int) == Ok::<_, EvalError>(wide@),
            decreases self.expressions.len() - k,
        {
            match self.expressions[k].eval(&wide) {
                Err(e) => {
                    proof {
                        lemma_widened_fails(plan, input, k + 1, plan.expressions.len() as int);
                    }
                    return Err(e);
                },
                Ok(v) => {
                    wide.push(v);
                },
            }
            k += 1;
        }
        let mut k: usize = 0;
        while k < self.predicates.len()
            invariant
                k <= self.predicates.len(),
                plan == self@,
                plan.passes(wide@, k as int) == Ok::<_, EvalError>(true),
            decreases self.predicates.len() - k,
        {
            match self.predicates[k].eval(&wide) {
                Err(e) => {
                    proof {
                        lemma_passes_stops(plan, wide@, k + 1, plan.predicates.len() as int);
                    }
                    return Err(e);
                },
                Ok(v) => {
                    if v != Value::Boolean(true) {
                        proof {
                            lemma_passes_stops(plan, wide@, k + 1, plan.predicates.len() as int);
                        }
                        return Ok(None);
                    }
                },
            }
            k += 1;
        }
        let mut lower = sys_time;
        let mut null_below = false;
        let mut k: usize = 0;
        while k < self.lower_bounds.len()
            invariant
                k <= self.lower_bounds.len(),
                plan == self@,
                plan.lower_bound(wide@, sys_time, k as int) == Ok::<_, EvalError>(
                    (lower, null_below),
                ),
            decreases self.lower_bounds.len() - k,
        {
            match self.lower_bounds[k].eval(&wide) {
                Err(e) => {
                    proof {
                        lemma_lower_bound_fails(
                            plan,
                            wide@,
                            sys_time,
                            k + 1,
                            plan.lower_bounds.len() as int,
                        );
                    }
                    return Err(e);
                },
                Ok(v) => {
                    if v.is_null() {
                        null_below = true;
                    } else {
                        match value_to_internal_ts(v) {
                            Err(e) => {
                                proof {
                                    lemma_lower_bound_fails(
                                        plan,
                                        wide@,
                                        sys_time,
                                        k + 1,
                                        plan.lower_bounds.len() as int,
                                    );
                                }
                                return Err(e);
                            },
                            Ok(ts) => {
                                if ts > lower {
                                    lower = ts;
                                }
                            },
                        }
                    }
                },
            }
            k += 1;
        }
        let mut upper: Option<Timestamp> = None;
        let mut null_above = false;
        let mut k: usize = 0;
        while k < self.upper_bounds.len()
            invariant
                k <= self.upper_bounds.len(),
                plan == self@,
                plan.upper_bound(wide@, lower, k as int) == Ok::<_, EvalError>((upper, null_above)),
            decreases self.upper_bounds.len() - k,
        {
            let settled = match upper {
                Some(u) => u == lower,
                None => false,
            };
            if !settled {
                match self.upper_bounds[k].eval(&wide) {
                    Err(e) => {
                        proof {
                            lemma_upper_bound_fails(
                                plan,
                                wide@,
                                lower,
                                k + 1,
                                plan.upper_bounds.len() as int,
                            );
                        }
                        return Err(e);
                    },
                    Ok(v) => {
                        if v.is_null() {
                            null_above = true;
                        } else {
                            match value_to_internal_ts(v) {
                                Err(e) => {
                                    proof {
                                        lemma_upper_bound_fails(
                                            plan,
                                            wide@,
                                            lower,
                                            k + 1,
                                            plan.upper_bounds.len() as int,
                                        );
                                    }
                                    return Err(e);
                                },
                                Ok(ts) => {
                                    let least = match upper {
                                        Some(u) => if u < ts { u } else { ts },
                                        None => ts,
                                    };
                                    upper = Some(if least < lower { lower } else { least });
                                },
                            }
                        }
                    },
                }
            }
            k += 1;
        }
        let empty = match upper {
            Some(u) => u == lower,
            None => false,
        };
        if empty || null_below || null_above {
            return Ok(None);
        }
        let mut row: Vec<Value> = Vec::new();
        let mut k: usize = 0;
        while k < self.projection.len()
            invariant
                k <= self.projection.len(),
                plan == self@,
                plan.picked(wide@, k as int) == Ok::<_, EvalError>(row@),
            decreases self.projection.len() - k,
        {
            let c = self.projection[k];
            if c < wide.len() {
                row.push(wide[c]);
            } else {
                proof {
                    lemma_picked_fails(plan, wide@, k + 1, plan.projection.len() as int);
                }
                return Err(EvalError::ColumnOutOfRange { column: c });
            }
            k += 1;
        }
        if upper.is_some() && diff == i64::MIN {
            return Err(EvalError::Overflow);
        }
        Ok(Some((Row::new(row), lower, upper)))
    }
}

/// Once a predicate gives no bound, no longer list of predicates can be parted.
proof fn lemma_split_fails(preds: Seq<ScalarExpr>, k: int, n: int)
    requires
        0 <= k <= n,
        split_predicates(preds, k) is None,
    ensures
        split_predicates(preds, n) is None,
    decreases n - k,
{
    if k < n {
        lemma_split_fails(preds, k, n - 1);
    }
}

/// Once an expression fails, widening by more expressions fails alike.
proof fn lemma_widened_fails(plan: MfpPlanView, values: Seq<Value>, k: int, n: int)
    requires
        0 <= k <= n,
        plan.widened(values, k) is Err,
    ensures
        plan.widened(values, n) == plan.widened(values, k),
    decreases n - k,
{
    if k < n {
        lemma_widened_fails(plan, values, k, n - 1);
    }
}

/// Once a predicate fails or is not met, the predicates behind it change nothing.
proof fn lemma_passes_stops(plan: MfpPlanView, wide: Seq<Value>, k: int, n: int)
    requires
        0 <= k <= n,
        plan.passes(wide, k) != Ok::<bool, EvalError>(true),
    ensures
        plan.passes(wide, n) == plan.passes(wide, k),
    decreases n - k,
{
    if k < n {
        lemma_passes_stops(plan, wide, k, n - 1);
    }
}

/// Once a lower bound fails, the bounds behind it change nothing.
proof fn lemma_lower_bound_fails(
    plan: MfpPlanView,
    wide: Seq<Value>,
    sys_time: Timestamp,
    k: int,
    n: int,
)
    requires
        0 <= k <= n,
        plan.lower_bound(wide, sys_time, k) is Err,
    ensures
        plan.lower_bound(wide, sys_time, n) == plan.lower_bound(wide, sys_time, k),
    decreases n - k,
{
    if k < n {
        lemma_lower_bound_fails(plan, wide, sys_time, k, n - 1);
    }
}

/// Once an upper bound fails, the bounds behind it change nothing.
proof fn lemma_upper_bound_fails(
    plan: MfpPlanView,
    wide: Seq<Value>,
    lower: Timestamp,
    k: int,
    n: int,
)
    requires
        0 <= k <= n,
        plan.upper_bound(wide, lower, k) is Err,
    ensures
        plan.upper_bound(wide, lower, n) == plan.upper_bound(wide, lower, k),
    decreases n - k,
{
    if k < n {
        lemma_upper_bound_fails(plan, wide, lower, k, n - 1);
    }
}

/// Once a projected column is missing, the columns behind it change nothing.
proof fn lemma_picked_fails(plan: MfpPlanView, wide: Seq<Value>, k: int, n: int)
    requires
        0 <= k <= n,
        plan.picked(wide, k) is Err,
    ensures
        plan.picked(wide, n) == plan.picked(wide, k),
    decreases n - k,
{
    if k < n {
        lemma_picked_fails(plan, wide, k, n - 1);
    }
}

} // verus!
