use flow::repr::{ConcreteDataType, Row, Value};

#[test]
fn values_from_plain_values() {
    assert_eq!(Value::from(true), Value::Boolean(true));
    assert_eq!(Value::from(7i32), Value::Int32(7));
    assert_eq!(Value::from(-7i64), Value::Int64(-7));
    let v: Value = 1.into();
    assert_eq!(v, Value::Int32(1));
    let v: Value = 1i64.into();
    assert_eq!(v, Value::Int64(1));
    assert!(Value::Null.is_null());
    assert!(!Value::Int32(0).is_null());
    assert!(!Value::Boolean(false).is_null());
}

#[test]
fn data_types() {
    assert_eq!(ConcreteDataType::boolean_datatype(), ConcreteDataType::Boolean);
    assert_eq!(ConcreteDataType::int32_datatype(), ConcreteDataType::Int32);
    assert_eq!(ConcreteDataType::int64_datatype(), ConcreteDataType::Int64);
    assert_eq!(ConcreteDataType::datetime_datatype(), ConcreteDataType::DateTime);
}

#[test]
fn row_holds_its_values_in_order() {
    let row = Row::new(vec![Value::Int32(1), Value::Null, Value::DateTime(3)]);
    assert_eq!(row.len(), 3);
    assert!(!row.is_empty());
    assert_eq!(row.get(0), Some(Value::Int32(1)));
    assert_eq!(row.get(1), Some(Value::Null));
    assert_eq!(row.get(2), Some(Value::DateTime(3)));
    assert_eq!(row.get(3), None);
    assert_eq!(row.inner, vec![Value::Int32(1), Value::Null, Value::DateTime(3)]);
    assert_eq!(
        row.unpack(),
        vec![Value::Int32(1), Value::Null, Value::DateTime(3)]
    );
}

#[test]
fn empty_row() {
    let row = Row::empty();
    assert_eq!(row.len(), 0);
    assert!(row.is_empty());
    assert_eq!(row.get(0), None);
    assert_eq!(row, Row::new(Vec::new()));
}

#[test]
fn rows_are_the_same_where_their_values_are() {
    let a = Row::new(vec![Value::Int32(1), Value::Int64(2)]);
    assert!(a.same_as(&a.clone()));
    assert!(a.same_as(&Row::new(vec![Value::Int32(1), Value::Int64(2)])));
    assert!(!a.same_as(&Row::new(vec![Value::Int32(1)])));
    assert!(!a.same_as(&Row::new(vec![Value::Int32(1), Value::Int64(3)])));
    assert!(!a.same_as(&Row::new(vec![Value::Int64(2), Value::Int32(1)])));
    assert!(!a.same_as(&Row::new(vec![Value::Int32(1), Value::Int32(2)])));
    assert!(!a.same_as(&Row::empty()));
    assert!(Row::empty().same_as(&Row::empty()));
    // a value and a time of the same number are different values
    assert!(!Row::new(vec![Value::Int64(2)]).same_as(&Row::new(vec![Value::DateTime(2)])));
}

#[test]
fn clone_of_a_row_is_equal_to_it() {
    let a = Row::new(vec![Value::Boolean(true), Value::Int64(i64::MIN)]);
    let b = a.clone();
    assert_eq!(a, b);
    assert_eq!(b.len(), 2);
}
