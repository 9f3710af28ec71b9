//! Errors: those that end the rendering of an operator, and those that a
//! running dataflow records and lives with.

use vstd::prelude::*;
use crate::arrangement::ArrangementError;
use crate::expr::{EvalError, GlobalId};

verus! {

/// Why an operator could not be rendered.
#[derive(Clone, Copy, Debug, PartialEq, Eq, Structural)]
pub enum Error {
    /// An expression or a projection names a column that does not exist.
    UndefinedColumn,
    /// An expression reads the clock in a way that gives no bound on time.
    UnsupportedTemporalFilter,
    /// The plan reads a collection that the context does not know.
    UndefinedCollection { id: GlobalId },
}

/// An error of a running operator. It is recorded, and the dataflow goes on.
#[derive(Clone, Copy, Debug, PartialEq, Eq, Structural)]
pub enum RuntimeError {
    /// A row could not be evaluated; the row was dropped.
    Eval(EvalError),
    /// The arrangement refused an operation; it is as it was before.
    Arrangement(ArrangementError),
}

/// The errors that the operators of one dataflow graph have recorded, oldest first.
#[derive(Debug)]
pub struct ErrCollector {
    inner: Vec<RuntimeError>,
}

impl View for ErrCollector {
    type V = Seq<RuntimeError>;

    closed spec fn view(&self) -> Seq<RuntimeError> {
        self.inner@
    }
}

impl ErrCollector {
    /// A collector that holds no error.
    pub fn new() -> (c: ErrCollector)
        ensures
            c@ == Seq::<RuntimeError>::empty(),
    {
        ErrCollector { inner: Vec::new() }
    }

    /// Records `err` behind the errors recorded so far.
    pub fn push_err(&mut self, err: RuntimeError)
        ensures
            final(self)@ == old(self)@.push(err),
    {
        self.inner.push(err);
    }

    /// Records the error of an arrangement operation that failed.
    pub fn run(&mut self, outcome: Result<(), ArrangementError>)
        ensures
            final(self)@ == old(self)@ + arrangement_errors(outcome),
    {
        match outcome {
            Ok(()) => {
                assert(self@ + arrangement_errors(outcome) =~= self@);
            },
            Err(e) => {
                self.inner.push(RuntimeError::Arrangement(e));
                assert(old(self)@.push(RuntimeError::Arrangement(e)) =~= old(self)@
                    + arrangement_errors(outcome));
            },
        }
    }

    /// Whether no error was recorded.
    pub fn is_empty(&self) -> (b: bool)
        ensures
            b == (self@.len() == 0),
    {
        self.inner.len() == 0
    }

    /// Number of errors recorded.
    pub fn len(&self) -> (n: usize)
        ensures
            n == self@.len(),
    {
        self.inner.len()
    }

    /// The errors recorded, oldest first.
    pub fn get_all(&self) -> (errors: Vec<RuntimeError>)
        ensures
            errors@ == self@,
    {
        let errors = self.inner.clone();
        assert(errors@ =~= self.inner@);
        errors
    }
}

/// What the outcome of an arrangement operation adds to the recorded errors.
pub open spec fn arrangement_errors(outcome: Result<(), ArrangementError>) -> Seq<RuntimeError> {
    match outcome {
        Ok(_) => Seq::empty(),
        Err(e) => seq![RuntimeError::Arrangement(e)],
    }
}

} // verus!
