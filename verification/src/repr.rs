//! Rows and the update tuples that flow between operators.

use vstd::prelude::*;
use vstd::std_specs::convert::FromSpecImpl;

verus! {

/// Logical time of the dataflow, in ticks of the virtual clock.
pub type Timestamp = i64;

/// Signed multiplicity of an update: positive inserts, negative retracts.
pub type Diff = i64;

/// A row update: the row, the time it takes effect, and its multiplicity.
pub type DiffRow = (Row, Timestamp, Diff);

/// An update of a keyed collection: `((key, value), time, diff)`.
pub type KeyValDiffRow = ((Row, Row), Timestamp, Diff);

/// Mathematical model of a [`DiffRow`].
pub type DiffRowView = (Seq<Value>, Timestamp, Diff);

/// Mathematical model of a [`KeyValDiffRow`].
pub type KeyValDiffRowView = ((Seq<Value>, Seq<Value>), Timestamp, Diff);

/// The type of a [`Value`].
#[derive(Clone, Copy, Debug, PartialEq, Eq, Structural, PartialOrd, Ord, Hash)]
pub enum ConcreteDataType {
    Boolean,
    Int32,
    Int64,
    DateTime,
}

impl ConcreteDataType {
    pub fn boolean_datatype() -> (t: Self)
        ensures
            t == ConcreteDataType::Boolean,
    {
        ConcreteDataType::Boolean
    }

    pub fn int32_datatype() -> (t: Self)
        ensures
            t == ConcreteDataType::Int32,
    {
        ConcreteDataType::Int32
    }

    pub fn int64_datatype() -> (t: Self)
        ensures
            t == ConcreteDataType::Int64,
    {
        ConcreteDataType::Int64
    }

    pub fn datetime_datatype() -> (t: Self)
        ensures
            t == ConcreteDataType::DateTime,
    {
        ConcreteDataType::DateTime
    }
}

/// A single column value.
#[derive(Clone, Copy, Debug, PartialEq, Eq, Structural, PartialOrd, Ord, Hash)]
pub enum Value {
    Null,
    Boolean(bool),
    Int32(i32),
    Int64(i64),
    /// Milliseconds on the same axis as [`Timestamp`].
    DateTime(i64),
}

impl Value {
    pub fn is_null(&self) -> (b: bool)
        ensures
            b == (*self is Null),
    {
        match self {
            Value::Null => true,
            _ => false,
        }
    }
}

impl From<bool> for Value {
    fn from(v: bool) -> (r: Value) {
        Value::Boolean(v)
    }
}

impl FromSpecImpl<bool> for Value {
    open spec fn obeys_from_spec() -> bool {
        true
    }

    open spec fn from_spec(v: bool) -> Value {
        Value::Boolean(v)
    }
}

impl From<i32> for Value {
    fn from(v: i32) -> (r: Value) {
        Value::Int32(v)
    }
}

impl FromSpecImpl<i32> for Value {
    open spec fn obeys_from_spec() -> bool {
        true
    }

    open spec fn from_spec(v: i32) -> Value {
        Value::Int32(v)
    }
}

impl From<i64> for Value {
    fn from(v: i64) -> (r: Value) {
        Value::Int64(v)
    }
}

impl FromSpecImpl<i64> for Value {
    open spec fn obeys_from_spec() -> bool {
        true
    }

    open spec fn from_spec(v: i64) -> Value {
        Value::Int64(v)
    }
}

/// An ordered list of column values.
#[derive(Debug, PartialEq, Eq, PartialOrd, Ord, Hash, Default)]
pub struct Row {
    pub inner: Vec<Value>,
}

impl View for Row {
    type V = Seq<Value>;

    open spec fn view(&self) -> Seq<Value> {
        self.inner@
    }
}

impl DeepView for Row {
    type V = Seq<Value>;

    open spec fn deep_view(&self) -> Seq<Value> {
        self.inner@
    }
}

impl Clone for Row {
    fn clone(&self) -> (r: Row)
        ensures
            r@ == self@,
    {
        let inner = self.inner.clone();
        assert(inner@ =~= self.inner@);
        Row { inner }
    }
}

impl Row {
    /// The row without columns.
    pub fn empty() -> (r: Row)
        ensures
            r@ == Seq::<Value>::empty(),
    {
        Row { inner: Vec::new() }
    }

    /// The row holding `row`'s values in order.
    pub fn new(row: Vec<Value>) -> (r: Row)
        ensures
            r@ == row@,
    {
        Row { inner: row }
    }

    /// The values of the row, leaving it.
    pub fn unpack(self) -> (v: Vec<Value>)
        ensures
            v@ == self@,
    {
        self.inner
    }

    pub fn len(&self) -> (n: usize)
        ensures
            n == self@.len(),
    {
        self.inner.len()
    }

    pub fn is_empty(&self) -> (b: bool)
        ensures
            b == (self@.len() == 0),
    {
        self.inner.len() == 0
    }

    /// Column `idx`, if the row has one.
    pub fn get(&self, idx: usize) -> (v: Option<Value>)
        ensures
            v == if idx < self@.len() { Some(self@[idx as int]) } else { None },
    {
        if idx < self.inner.len() {
            Some(self.inner[idx])
        } else {
            None
        }
    }

    /// Whether both rows hold the same values in the same order.
    pub fn same_as(&self, other: &Row) -> (b: bool)
        ensures
            b == (self@ == other@),
    {
        if self.inner.len() != other.inner.len() {
            return false;
        }
        let mut i: usize = 0;
        while i < self.inner.len()
            invariant
                i <= self.inner.len(),
                self.inner.len() == other.inner.len(),
                forall|k: int| 0 <= k < i ==> self@[k] == other@[k],
            decreases self.inner.len() - i,
        {
            if self.inner[i] != other.inner[i] {
                return false;
            }
            i += 1;
        }
        assert(self@ =~= other@);
        true
    }
}

} // verus!
