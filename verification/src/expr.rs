//! Scalar expressions over the columns of a row, and their evaluation.

use vstd::prelude::*;
use crate::repr::{ConcreteDataType, Timestamp, Value};

verus! {

/// Why the evaluation of an expression on one row failed.
#[derive(Clone, Copy, Debug, PartialEq, Eq, Structural)]
pub enum EvalError {
    /// The row has no column of this number.
    ColumnOutOfRange { column: usize },
    /// An operand is not of the type that the function takes.
    TypeMismatch,
    /// The result of an arithmetic function is beyond its type.
    Overflow,
    /// The value cannot be cast to this type.
    CastValue { to: ConcreteDataType },
    /// The expression reads the clock where no clock is at hand.
    Unmaterializable,
}

/// Functions of one argument.
#[derive(Clone, Copy, Debug, PartialEq, Eq, Structural)]
pub enum UnaryFunc {
    Not,
    IsNull,
    /// The next instant after a `DateTime`.
    StepTimestamp,
    Cast(ConcreteDataType),
}

/// Functions of two arguments.
#[derive(Clone, Copy, Debug, PartialEq, Eq, Structural)]
pub enum BinaryFunc {
    Eq,
    NotEq,
    Lt,
    Lte,
    Gt,
    Gte,
    AddInt64,
    SubInt64,
}

/// Functions whose value is not fixed by the row.
#[derive(Clone, Copy, Debug, PartialEq, Eq, Structural)]
pub enum UnmaterializableFunc {
    /// The current time of the dataflow's clock.
    Now,
}

/// Names a collection that is known to the whole dataflow graph.
#[derive(Clone, Copy, Debug, PartialEq, Eq, Structural, PartialOrd, Ord, Hash)]
pub enum GlobalId {
    System(u64),
    User(u64),
}

/// Names a collection that a plan reads.
#[derive(Clone, Copy, Debug, PartialEq, Eq, Structural, PartialOrd, Ord, Hash)]
pub enum Id {
    Global(GlobalId),
}

/// An expression over the columns of a row.
#[derive(Debug, PartialEq, Eq)]
#[allow(inconsistent_fields)]
pub enum ScalarExpr {
    /// The column of this number, counted from zero.
    Column(usize),
    /// A constant of the given type.
    Literal(Value, ConcreteDataType),
    CallUnmaterializable(UnmaterializableFunc),
    CallUnary { func: UnaryFunc, expr: Box<ScalarExpr> },
    CallBinary { func: BinaryFunc, expr1: Box<ScalarExpr>, expr2: Box<ScalarExpr> },
}

/// What casting `v` to `to` gives.
pub open spec fn cast_spec(v: Value, to: ConcreteDataType) -> Result<Value, EvalError> {
    match v {
        Value::Null => Ok(Value::Null),
        Value::Boolean(b) => match to {
            ConcreteDataType::Boolean => Ok(v),
            ConcreteDataType::Int32 => Ok(Value::Int32(if b { 1i32 } else { 0i32 })),
            ConcreteDataType::Int64 => Ok(Value::Int64(if b { 1i64 } else { 0i64 })),
            ConcreteDataType::DateTime => Err(EvalError::CastValue { to }),
        },
        Value::Int32(i) => match to {
            ConcreteDataType::Boolean => Ok(Value::Boolean(i != 0)),
            ConcreteDataType::Int32 => Ok(v),
            ConcreteDataType::Int64 => Ok(Value::Int64(i as i64)),
            ConcreteDataType::DateTime => Ok(Value::DateTime(i as i64)),
        },
        Value::Int64(i) => match to {
            ConcreteDataType::Boolean => Ok(Value::Boolean(i != 0)),
            ConcreteDataType::Int32 => if i32::MIN <= i <= i32::MAX {
                Ok(Value::Int32(i as i32))
            } else {
                Err(EvalError::CastValue { to })
            },
            ConcreteDataType::Int64 => Ok(v),
            ConcreteDataType::DateTime => Ok(Value::DateTime(i)),
        },
        Value::DateTime(t) => match to {
            ConcreteDataType::Boolean => Err(EvalError::CastValue { to }),
            ConcreteDataType::Int32 => if i32::MIN <= t <= i32::MAX {
                Ok(Value::Int32(t as i32))
            } else {
                Err(EvalError::CastValue { to })
            },
            ConcreteDataType::Int64 => Ok(Value::Int64(t)),
            ConcreteDataType::DateTime => Ok(v),
        },
    }
}

/// How two values of one type stand to each other: negative where `l` comes
/// first, zero where they are equal, positive where `r` comes first; `None`
/// where they are of different types or one of them is null.
pub open spec fn order_spec(l: Value, r: Value) -> Option<int> {
    match (l, r) {
        (Value::Boolean(a), Value::Boolean(b)) => Some(
            (if a { 1int } else { 0int }) - (if b { 1int } else { 0int }),
        ),
        (Value::Int32(a), Value::Int32(b)) => Some(a - b),
        (Value::Int64(a), Value::Int64(b)) => Some(a - b),
        (Value::DateTime(a), Value::DateTime(b)) => Some(a - b),
        _ => None,
    }
}

/// The instant that `v` names on the clock's axis.
pub open spec fn value_to_ts_spec(v: Value) -> Result<Timestamp, EvalError> {
    match v {
        Value::DateTime(t) => Ok(t),
        Value::Int64(t) => Ok(t),
        Value::Int32(t) => Ok(t as i64),
        _ => Err(EvalError::TypeMismatch),
    }
}

/// The instant that `v` names on the clock's axis.
pub fn value_to_internal_ts(v: Value) -> (r: Result<Timestamp, EvalError>)
    ensures
        r == value_to_ts_spec(v),
{
    match v {
        Value::DateTime(t) => Ok(t),
        Value::Int64(t) => Ok(t),
        Value::Int32(t) => Ok(t as i64),
        _ => Err(EvalError::TypeMismatch),
    }
}

impl UnaryFunc {
    /// What the function gives on `v`.
    pub open spec fn eval_spec(self, v: Value) -> Result<Value, EvalError> {
        match self {
            UnaryFunc::Not => match v {
                Value::Null => Ok(Value::Null),
                Value::Boolean(b) => Ok(Value::Boolean(!b)),
                _ => Err(EvalError::TypeMismatch),
            },
            UnaryFunc::IsNull => Ok(Value::Boolean(v is Null)),
            UnaryFunc::StepTimestamp => match v {
                Value::Null => Ok(Value::Null),
                Value::DateTime(t) => if t < i64::MAX {
                    Ok(Value::DateTime((t + 1) as i64))
                } else {
                    Err(EvalError::Overflow)
                },
                _ => Err(EvalError::TypeMismatch),
            },
            UnaryFunc::Cast(to) => cast_spec(v, to),
        }
    }

    /// Applies the function to `v`.
    pub fn eval(&self, v: Value) -> (r: Result<Value, EvalError>)
        ensures
            r == self.eval_spec(v),
    {
        match self {
            UnaryFunc::Not => match v {
                Value::Null => Ok(Value::Null),
                Value::Boolean(b) => Ok(Value::Boolean(!b)),
                _ => Err(EvalError::TypeMismatch),
            },
            UnaryFunc::IsNull => Ok(Value::Boolean(v.is_null())),
            UnaryFunc::StepTimestamp => match v {
                Value::Null => Ok(Value::Null),
                Value::DateTime(t) => if t < i64::MAX {
                    Ok(Value::DateTime(t + 1))
                } else {
                    Err(EvalError::Overflow)
                },
                _ => Err(EvalError::TypeMismatch),
            },
            UnaryFunc::Cast(to) => cast(v, *to),
        }
    }
}

/// Casts `v` to `to`.
pub fn cast(v: Value, to: ConcreteDataType) -> (r: Result<Value, EvalError>)
    ensures
        r == cast_spec(v, to),
{
    match v {
        Value::Null => Ok(Value::Null),
        Value::Boolean(b) => match to {
            ConcreteDataType::Boolean => Ok(v),
            ConcreteDataType::Int32 => Ok(Value::Int32(if b { 1i32 } else { 0i32 })),
            ConcreteDataType::Int64 => Ok(Value::Int64(if b { 1i64 } else { 0i64 })),
            ConcreteDataType::DateTime => Err(EvalError::CastValue { to }),
        },
        Value::Int32(i) => match to {
            ConcreteDataType::Boolean => Ok(Value::Boolean(i != 0)),
            ConcreteDataType::Int32 => Ok(v),
            ConcreteDataType::Int64 => Ok(Value::Int64(i as i64)),
            ConcreteDataType::DateTime => Ok(Value::DateTime(i as i64)),
        },
        Value::Int64(i) => match to {
            ConcreteDataType::Boolean => Ok(Value::Boolean(i != 0)),
            ConcreteDataType::Int32 => if i >= -0x8000_0000i64 && i <= 0x7fff_ffffi64 {
                Ok(Value::Int32(i as i32))
            } else {
                Err(EvalError::CastValue { to })
            },
            ConcreteDataType::Int64 => Ok(v),
            ConcreteDataType::DateTime => Ok(Value::DateTime(i)),
        },
        Value::DateTime(t) => match to {
            ConcreteDataType::Boolean => Err(EvalError::CastValue { to }),
            ConcreteDataType::Int32 => if t >= -0x8000_0000i64 && t <= 0x7fff_ffffi64 {
                Ok(Value::Int32(t as i32))
            } else {
                Err(EvalError::CastValue { to })
            },
            ConcreteDataType::Int64 => Ok(Value::Int64(t)),
            ConcreteDataType::DateTime => Ok(v),
        },
    }
}

/// Whether `l` comes before `r`, and whether they are equal, where both are
/// of one type and neither is null.
fn order(l: Value, r: Value) -> (o: Option<(bool, bool)>)
    ensures
        o is Some <==> order_spec(l, r) is Some,
        o is Some ==> o.unwrap().0 == (order_spec(l, r).unwrap() < 0) && o.unwrap().1 == (
        order_spec(l, r).unwrap() == 0),
{
    match (l, r) {
        (Value::Boolean(a), Value::Boolean(b)) => Some((!a && b, a == b)),
        (Value::Int32(a), Value::Int32(b)) => Some((a < b, a == b)),
        (Value::Int64(a), Value::Int64(b)) => Some((a < b, a == b)),
        (Value::DateTime(a), Value::DateTime(b)) => Some((a < b, a == b)),
        _ => None,
    }
}

impl BinaryFunc {
    /// Whether the function compares its arguments.
    pub open spec fn is_comparison(self) -> bool {
        !(self is AddInt64) && !(self is SubInt64)
    }

    /// What a comparison says of two values that stand to each other as `o` says.
    pub open spec fn holds_of(self, o: int) -> bool {
        match self {
            BinaryFunc::Eq => o == 0,
            BinaryFunc::NotEq => o != 0,
            BinaryFunc::Lt => o < 0,
            BinaryFunc::Lte => o <= 0,
            BinaryFunc::Gt => o > 0,
            BinaryFunc::Gte => o >= 0,
            _ => false,
        }
    }

    /// What the function gives on `l` and `r`.
    pub open spec fn eval_spec(self, l: Value, r: Value) -> Result<Value, EvalError> {
        if l is Null || r is Null {
            Ok(Value::Null)
        } else if self.is_comparison() {
            match order_spec(l, r) {
                Some(o) => Ok(Value::Boolean(self.holds_of(o))),
                None => Err(EvalError::TypeMismatch),
            }
        } else {
            match (l, r) {
                (Value::Int64(a), Value::Int64(b)) => {
                    let sum = if self is AddInt64 { a + b } else { a - b };
                    if i64::MIN <= sum <= i64::MAX {
                        Ok(Value::Int64(sum as i64))
                    } else {
                        Err(EvalError::Overflow)
                    }
                },
                _ => Err(EvalError::TypeMismatch),
            }
        }
    }

    /// Applies the function to `l` and `r`.
    pub fn eval(&self, l: Value, r: Value) -> (res: Result<Value, EvalError>)
        ensures
            res == self.eval_spec(l, r),
    {
        if l.is_null() || r.is_null() {
            return Ok(Value::Null);
        }
        match self {
            BinaryFunc::AddInt64 => match (l, r) {
                (Value::Int64(a), Value::Int64(b)) => match a.checked_add(b) {
                    Some(sum) => Ok(Value::Int64(sum)),
                    None => Err(EvalError::Overflow),
                },
                _ => Err(EvalError::TypeMismatch),
            },
            BinaryFunc::SubInt64 => match (l, r) {
                (Value::Int64(a), Value::Int64(b)) => match a.checked_sub(b) {
                    Some(sum) => Ok(Value::Int64(sum)),
                    None => Err(EvalError::Overflow),
                },
                _ => Err(EvalError::TypeMismatch),
            },
            _ => match order(l, r) {
                None => Err(EvalError::TypeMismatch),
                Some((before, equal)) => {
                    let holds = match self {
                        BinaryFunc::Eq => equal,
                        BinaryFunc::NotEq => !equal,
                        BinaryFunc::Lt => before,
                        BinaryFunc::Lte => before || equal,
                        BinaryFunc::Gt => !before && !equal,
                        _ => !before,
                    };
                    Ok(Value::Boolean(holds))
                },
            },
        }
    }

    /// The comparison that says of `(r, l)` what this one says of `(l, r)`;
    /// `None` for a function that does not compare.
    pub open spec fn reverse_spec(self) -> Option<BinaryFunc> {
        match self {
            BinaryFunc::Eq => Some(BinaryFunc::Eq),
            BinaryFunc::NotEq => Some(BinaryFunc::NotEq),
            BinaryFunc::Lt => Some(BinaryFunc::Gt),
            BinaryFunc::Lte => Some(BinaryFunc::Gte),
            BinaryFunc::Gt => Some(BinaryFunc::Lt),
            BinaryFunc::Gte => Some(BinaryFunc::Lte),
            _ => None,
        }
    }

    /// The comparison that says of `(r, l)` what this one says of `(l, r)`.
    pub fn reverse_compare(&self) -> (r: Option<BinaryFunc>)
        ensures
            r == self.reverse_spec(),
    {
        match self {
            BinaryFunc::Eq => Some(BinaryFunc::Eq),
            BinaryFunc::NotEq => Some(BinaryFunc::NotEq),
            BinaryFunc::Lt => Some(BinaryFunc::Gt),
            BinaryFunc::Lte => Some(BinaryFunc::Gte),
            BinaryFunc::Gt => Some(BinaryFunc::Lt),
            BinaryFunc::Gte => Some(BinaryFunc::Lte),
            _ => None,
        }
    }
}

impl ScalarExpr {
    /// The value of the expression on the row `values`.
    pub open spec fn eval_spec(self, values: Seq<Value>) -> Result<Value, EvalError>
        decreases self,
    {
        match self {
            ScalarExpr::Column(c) => if c < values.len() {
                Ok(values[c as int])
            } else {
                Err(EvalError::ColumnOutOfRange { column: c })
            },
            ScalarExpr::Literal(v, _) => Ok(v),
            ScalarExpr::CallUnmaterializable(_) => Err(EvalError::Unmaterializable),
            ScalarExpr::CallUnary { func, expr } => match expr.eval_spec(values) {
                Ok(v) => func.eval_spec(v),
                Err(e) => Err(e),
            },
            ScalarExpr::CallBinary { func, expr1, expr2 } => match expr1.eval_spec(values) {
                Ok(l) => match expr2.eval_spec(values) {
                    Ok(r) => func.eval_spec(l, r),
                    Err(e) => Err(e),
                },
                Err(e) => Err(e),
            },
        }
    }

    /// Evaluates the expression on the row `values`.
    pub fn eval(&self, values: &Vec<Value>) -> (r: Result<Value, EvalError>)
        ensures
            r == self.eval_spec(values@),
        decreases self,
    {
        match self {
            ScalarExpr::Column(c) => if *c < values.len() {
                Ok(values[*c])
            } else {
                Err(EvalError::ColumnOutOfRange { column: *c })
            },
            ScalarExpr::Literal(v, _) => Ok(*v),
            ScalarExpr::CallUnmaterializable(_) => Err(EvalError::Unmaterializable),
            ScalarExpr::CallUnary { func, expr } => match expr.eval(values) {
                Ok(v) => func.eval(v),
                Err(e) => Err(e),
            },
            ScalarExpr::CallBinary { func, expr1, expr2 } => match expr1.eval(values) {
                Ok(l) => match expr2.eval(values) {
                    Ok(r) => func.eval(l, r),
                    Err(e) => Err(e),
                },
                Err(e) => Err(e),
            },
        }
    }

    /// Every column that the expression reads has a number below `arity`.
    pub open spec fn within_arity(self, arity: usize) -> bool
        decreases self,
    {
        match self {
            ScalarExpr::Column(c) => c < arity,
            ScalarExpr::Literal(_, _) => true,
            ScalarExpr::CallUnmaterializable(_) => true,
            ScalarExpr::CallUnary { func, expr } => expr.within_arity(arity),
            ScalarExpr::CallBinary { func, expr1, expr2 } => expr1.within_arity(arity)
                && expr2.within_arity(arity),
        }
    }

    /// Whether every column that the expression reads has a number below `arity`.
    pub fn is_within_arity(&self, arity: usize) -> (b: bool)
        ensures
            b == self.within_arity(arity),
        decreases self,
    {
        match self {
            ScalarExpr::Column(c) => *c < arity,
            ScalarExpr::Literal(_, _) => true,
            ScalarExpr::CallUnmaterializable(_) => true,
            ScalarExpr::CallUnary { func, expr } => expr.is_within_arity(arity),
            ScalarExpr::CallBinary { func, expr1, expr2 } => expr1.is_within_arity(arity)
                && expr2.is_within_arity(arity),
        }
    }

    /// The expression reads the clock somewhere.
    pub open spec fn temporal(self) -> bool
        decreases self,
    {
        match self {
            ScalarExpr::Column(_) => false,
            ScalarExpr::Literal(_, _) => false,
            ScalarExpr::CallUnmaterializable(_) => true,
            ScalarExpr::CallUnary { func, expr } => expr.temporal(),
            ScalarExpr::CallBinary { func, expr1, expr2 } => expr1.temporal() || expr2.temporal(),
        }
    }

    /// Whether the expression reads the clock somewhere.
    pub fn contains_temporal(&self) -> (b: bool)
        ensures
            b == self.temporal(),
        decreases self,
    {
        match self {
            ScalarExpr::Column(_) => false,
            ScalarExpr::Literal(_, _) => false,
            ScalarExpr::CallUnmaterializable(_) => true,
            ScalarExpr::CallUnary { func, expr } => expr.contains_temporal(),
            ScalarExpr::CallBinary { func, expr1, expr2 } => expr1.contains_temporal()
                || expr2.contains_temporal(),
        }
    }

    /// A copy of the expression.
    pub fn duplicate(&self) -> (e: ScalarExpr)
        ensures
            e == *self,
        decreases self,
    {
        match self {
            ScalarExpr::Column(c) => ScalarExpr::Column(*c),
            ScalarExpr::Literal(v, t) => ScalarExpr::Literal(*v, *t),
            ScalarExpr::CallUnmaterializable(f) => ScalarExpr::CallUnmaterializable(*f),
            ScalarExpr::CallUnary { func, expr } => ScalarExpr::CallUnary {
                func: *func,
                expr: Box::new(expr.duplicate()),
            },
            ScalarExpr::CallBinary { func, expr1, expr2 } => ScalarExpr::CallBinary {
                func: *func,
                expr1: Box::new(expr1.duplicate()),
                expr2: Box::new(expr2.duplicate()),
            },
        }
    }

    /// Whether the expression is the clock itself.
    pub fn is_now(&self) -> (b: bool)
        ensures
            b == (*self == ScalarExpr::CallUnmaterializable(UnmaterializableFunc::Now)),
    {
        match self {
            ScalarExpr::CallUnmaterializable(UnmaterializableFunc::Now) => true,
            _ => false,
        }
    }

    /// The constant `value` of type `typ`.
    pub fn literal(value: Value, typ: ConcreteDataType) -> (e: ScalarExpr)
        ensures
            e == ScalarExpr::Literal(value, typ),
    {
        ScalarExpr::Literal(value, typ)
    }

    /// `func` applied to this expression.
    pub fn call_unary(self, func: UnaryFunc) -> (e: ScalarExpr)
        ensures
            e == (ScalarExpr::CallUnary { func, expr: Box::new(self) }),
    {
        ScalarExpr::CallUnary { func, expr: Box::new(self) }
    }

    /// `func` applied to this expression and `other`, in this order.
    pub fn call_binary(self, other: ScalarExpr, func: BinaryFunc) -> (e: ScalarExpr)
        ensures
            e == (ScalarExpr::CallBinary { func, expr1: Box::new(self), expr2: Box::new(other) }),
    {
        ScalarExpr::CallBinary { func, expr1: Box::new(self), expr2: Box::new(other) }
    }
}

} // verus!
