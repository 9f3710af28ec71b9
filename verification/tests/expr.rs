use flow::expr::{
    cast, value_to_internal_ts, BinaryFunc, EvalError, ScalarExpr, UnaryFunc,
    UnmaterializableFunc,
};
use flow::repr::ConcreteDataType::{Boolean, DateTime, Int32, Int64};
use flow::repr::{ConcreteDataType, Value};

fn col(c: usize) -> ScalarExpr {
    ScalarExpr::Column(c)
}

fn int64(v: i64) -> ScalarExpr {
    ScalarExpr::literal(Value::Int64(v), ConcreteDataType::int64_datatype())
}

#[test]
fn column_reads_the_row() {
    let row = vec![Value::Int32(7), Value::Boolean(false)];
    assert_eq!(col(0).eval(&row), Ok(Value::Int32(7)));
    assert_eq!(col(1).eval(&row), Ok(Value::Boolean(false)));
    assert_eq!(col(2).eval(&row), Err(EvalError::ColumnOutOfRange { column: 2 }));
    assert_eq!(col(0).eval(&Vec::new()), Err(EvalError::ColumnOutOfRange { column: 0 }));
}

#[test]
fn literal_is_its_value() {
    assert_eq!(int64(4).eval(&Vec::new()), Ok(Value::Int64(4)));
    assert_eq!(
        ScalarExpr::literal(Value::Null, ConcreteDataType::boolean_datatype()).eval(&Vec::new()),
        Ok(Value::Null)
    );
}

#[test]
fn now_cannot_be_evaluated_on_a_row() {
    let now = ScalarExpr::CallUnmaterializable(UnmaterializableFunc::Now);
    assert_eq!(now.eval(&vec![Value::Int64(1)]), Err(EvalError::Unmaterializable));
    assert!(now.is_now());
    assert!(now.contains_temporal());
    assert!(!col(0).is_now());
    assert!(col(0).call_binary(now, BinaryFunc::Lt).contains_temporal());
    assert!(!col(0).call_binary(int64(1), BinaryFunc::Lt).contains_temporal());
}

#[test]
fn comparisons_of_one_type() {
    let cases = [
        (BinaryFunc::Eq, [false, true, false]),
        (BinaryFunc::NotEq, [true, false, true]),
        (BinaryFunc::Lt, [true, false, false]),
        (BinaryFunc::Lte, [true, true, false]),
        (BinaryFunc::Gt, [false, false, true]),
        (BinaryFunc::Gte, [false, true, true]),
    ];
    for (func, expected) in cases {
        let pairs = [(1i64, 2i64), (2, 2), (3, 2)];
        for (k, (l, r)) in pairs.into_iter().enumerate() {
            assert_eq!(func.eval(Value::Int64(l), Value::Int64(r)), Ok(Value::Boolean(expected[k])));
            assert_eq!(
                func.eval(Value::Int32(l as i32), Value::Int32(r as i32)),
                Ok(Value::Boolean(expected[k]))
            );
            assert_eq!(
                func.eval(Value::DateTime(l), Value::DateTime(r)),
                Ok(Value::Boolean(expected[k]))
            );
        }
    }
    assert_eq!(
        BinaryFunc::Lt.eval(Value::Boolean(false), Value::Boolean(true)),
        Ok(Value::Boolean(true))
    );
    assert_eq!(
        BinaryFunc::Gt.eval(Value::Boolean(false), Value::Boolean(true)),
        Ok(Value::Boolean(false))
    );
    assert_eq!(
        BinaryFunc::Eq.eval(Value::Boolean(true), Value::Boolean(true)),
        Ok(Value::Boolean(true))
    );
    assert_eq!(
        BinaryFunc::Gt.eval(Value::Int64(i64::MAX), Value::Int64(i64::MIN)),
        Ok(Value::Boolean(true))
    );
}

#[test]
fn comparison_of_different_types_is_a_mismatch() {
    assert_eq!(
        BinaryFunc::Gt.eval(Value::Int64(2), Value::Int32(1)),
        Err(EvalError::TypeMismatch)
    );
    assert_eq!(
        BinaryFunc::Eq.eval(Value::DateTime(2), Value::Int64(2)),
        Err(EvalError::TypeMismatch)
    );
}

#[test]
fn null_operand_gives_null() {
    assert_eq!(BinaryFunc::Gt.eval(Value::Null, Value::Int32(1)), Ok(Value::Null));
    assert_eq!(BinaryFunc::AddInt64.eval(Value::Int64(1), Value::Null), Ok(Value::Null));
    assert_eq!(BinaryFunc::SubInt64.eval(Value::Null, Value::Boolean(true)), Ok(Value::Null));
    assert_eq!(UnaryFunc::Not.eval(Value::Null), Ok(Value::Null));
    assert_eq!(UnaryFunc::StepTimestamp.eval(Value::Null), Ok(Value::Null));
    assert_eq!(
        UnaryFunc::Cast(ConcreteDataType::Int32).eval(Value::Null),
        Ok(Value::Null)
    );
    assert_eq!(UnaryFunc::IsNull.eval(Value::Null), Ok(Value::Boolean(true)));
    assert_eq!(UnaryFunc::IsNull.eval(Value::Int32(0)), Ok(Value::Boolean(false)));
}

#[test]
fn arithmetic() {
    assert_eq!(BinaryFunc::AddInt64.eval(Value::Int64(40), Value::Int64(2)), Ok(Value::Int64(42)));
    assert_eq!(BinaryFunc::SubInt64.eval(Value::Int64(1), Value::Int64(4)), Ok(Value::Int64(-3)));
    assert_eq!(
        BinaryFunc::AddInt64.eval(Value::Int64(i64::MAX), Value::Int64(1)),
        Err(EvalError::Overflow)
    );
    assert_eq!(
        BinaryFunc::AddInt64.eval(Value::Int64(i64::MAX), Value::Int64(0)),
        Ok(Value::Int64(i64::MAX))
    );
    assert_eq!(
        BinaryFunc::SubInt64.eval(Value::Int64(i64::MIN), Value::Int64(1)),
        Err(EvalError::Overflow)
    );
    assert_eq!(
        BinaryFunc::SubInt64.eval(Value::Int64(0), Value::Int64(i64::MIN)),
        Err(EvalError::Overflow)
    );
    assert_eq!(
        BinaryFunc::AddInt64.eval(Value::Int32(1), Value::Int64(1)),
        Err(EvalError::TypeMismatch)
    );
    assert_eq!(
        BinaryFunc::SubInt64.eval(Value::DateTime(1), Value::DateTime(1)),
        Err(EvalError::TypeMismatch)
    );
}

#[test]
fn not_and_step() {
    assert_eq!(UnaryFunc::Not.eval(Value::Boolean(true)), Ok(Value::Boolean(false)));
    assert_eq!(UnaryFunc::Not.eval(Value::Int32(1)), Err(EvalError::TypeMismatch));
    assert_eq!(UnaryFunc::StepTimestamp.eval(Value::DateTime(5)), Ok(Value::DateTime(6)));
    assert_eq!(
        UnaryFunc::StepTimestamp.eval(Value::DateTime(i64::MAX)),
        Err(EvalError::Overflow)
    );
    assert_eq!(
        UnaryFunc::StepTimestamp.eval(Value::Int64(5)),
        Err(EvalError::TypeMismatch)
    );
}

#[test]
fn casts() {
    assert_eq!(cast(Value::Int32(-3), Int64), Ok(Value::Int64(-3)));
    assert_eq!(cast(Value::Int32(3), DateTime), Ok(Value::DateTime(3)));
    assert_eq!(cast(Value::Int32(0), Boolean), Ok(Value::Boolean(false)));
    assert_eq!(cast(Value::Int32(3), Int32), Ok(Value::Int32(3)));
    assert_eq!(cast(Value::Int64(7), DateTime), Ok(Value::DateTime(7)));
    assert_eq!(cast(Value::Int64(7), Boolean), Ok(Value::Boolean(true)));
    assert_eq!(cast(Value::Int64(2147483647), Int32), Ok(Value::Int32(i32::MAX)));
    assert_eq!(cast(Value::Int64(-2147483648), Int32), Ok(Value::Int32(i32::MIN)));
    assert_eq!(
        cast(Value::Int64(2147483648), Int32),
        Err(EvalError::CastValue { to: Int32 })
    );
    assert_eq!(
        cast(Value::Int64(-2147483649), Int32),
        Err(EvalError::CastValue { to: Int32 })
    );
    assert_eq!(cast(Value::DateTime(9), Int64), Ok(Value::Int64(9)));
    assert_eq!(cast(Value::DateTime(9), Int32), Ok(Value::Int32(9)));
    assert_eq!(
        cast(Value::DateTime(i64::MAX), Int32),
        Err(EvalError::CastValue { to: Int32 })
    );
    assert_eq!(
        cast(Value::DateTime(9), Boolean),
        Err(EvalError::CastValue { to: Boolean })
    );
    assert_eq!(cast(Value::DateTime(9), DateTime), Ok(Value::DateTime(9)));
    assert_eq!(cast(Value::Boolean(true), Int32), Ok(Value::Int32(1)));
    assert_eq!(cast(Value::Boolean(false), Int64), Ok(Value::Int64(0)));
    assert_eq!(cast(Value::Boolean(true), Boolean), Ok(Value::Boolean(true)));
    assert_eq!(
        cast(Value::Boolean(true), DateTime),
        Err(EvalError::CastValue { to: DateTime })
    );
    assert_eq!(cast(Value::Null, DateTime), Ok(Value::Null));
}

#[test]
fn value_as_time() {
    assert_eq!(value_to_internal_ts(Value::DateTime(4)), Ok(4));
    assert_eq!(value_to_internal_ts(Value::Int64(-4)), Ok(-4));
    assert_eq!(value_to_internal_ts(Value::Int32(4)), Ok(4));
    assert_eq!(value_to_internal_ts(Value::Boolean(true)), Err(EvalError::TypeMismatch));
    assert_eq!(value_to_internal_ts(Value::Null), Err(EvalError::TypeMismatch));
}

#[test]
fn nested_expression() {
    // (col0 - 4) cast to a time, stepped: col0 - 3
    let e = col(0)
        .call_binary(int64(4), BinaryFunc::SubInt64)
        .call_unary(UnaryFunc::Cast(ConcreteDataType::datetime_datatype()))
        .call_unary(UnaryFunc::StepTimestamp);
    assert_eq!(e.eval(&vec![Value::Int64(10)]), Ok(Value::DateTime(7)));
    assert_eq!(e.eval(&vec![Value::Int32(10)]), Err(EvalError::TypeMismatch));
    assert_eq!(e.eval(&vec![Value::Int64(i64::MIN)]), Err(EvalError::Overflow));
    assert_eq!(e.eval(&vec![]), Err(EvalError::ColumnOutOfRange { column: 0 }));
    assert_eq!(e.eval(&vec![Value::Null]), Ok(Value::Null));
}

#[test]
fn error_of_the_first_operand_comes_first() {
    let e = col(5).call_binary(col(6), BinaryFunc::Eq);
    assert_eq!(e.eval(&vec![]), Err(EvalError::ColumnOutOfRange { column: 5 }));
}

#[test]
fn column_bounds_of_an_expression() {
    let e = col(0).call_binary(col(2).call_unary(UnaryFunc::Not), BinaryFunc::Eq);
    assert!(e.is_within_arity(3));
    assert!(!e.is_within_arity(2));
    assert!(int64(1).is_within_arity(0));
}

#[test]
fn duplicate_is_equal() {
    let e = col(0)
        .call_binary(int64(4), BinaryFunc::SubInt64)
        .call_unary(UnaryFunc::Cast(ConcreteDataType::datetime_datatype()))
        .call_binary(
            ScalarExpr::CallUnmaterializable(UnmaterializableFunc::Now),
            BinaryFunc::Lt,
        );
    assert_eq!(e.duplicate(), e);
}

#[test]
fn reverse_of_a_comparison() {
    assert_eq!(BinaryFunc::Lt.reverse_compare(), Some(BinaryFunc::Gt));
    assert_eq!(BinaryFunc::Lte.reverse_compare(), Some(BinaryFunc::Gte));
    assert_eq!(BinaryFunc::Gt.reverse_compare(), Some(BinaryFunc::Lt));
    assert_eq!(BinaryFunc::Gte.reverse_compare(), Some(BinaryFunc::Lte));
    assert_eq!(BinaryFunc::Eq.reverse_compare(), Some(BinaryFunc::Eq));
    assert_eq!(BinaryFunc::NotEq.reverse_compare(), Some(BinaryFunc::NotEq));
    assert_eq!(BinaryFunc::AddInt64.reverse_compare(), None);
    assert_eq!(BinaryFunc::SubInt64.reverse_compare(), None);
}
