//! Shared solver vocabulary: three-valued states and the solver's errors.
use vstd::prelude::*;

verus! {

/// What is known of a value: fixed, unknown, or contradictory.
#[derive(Copy, Clone, Debug, PartialEq, Eq, Structural)]
pub enum State<T> {
    /// The value is known.
    Fixed(T),
    /// Nothing is known yet.
    Unknown,
    /// The known facts contradict each other.
    Conflict,
}

/// The board contradicts itself.
#[derive(Copy, Clone, Debug, PartialEq, Eq, Structural)]
pub struct LogicError;

/// The kinds of solver errors.
#[derive(Copy, Clone, Debug, PartialEq, Eq, Structural)]
pub enum ErrorKind {
    /// The board data is inconsistent or has no solution.
    InvalidBoard,
}

/// An error returned from solving a puzzle.
#[derive(Copy, Clone, Debug, PartialEq, Eq, Structural)]
pub struct Error {
    kind: ErrorKind,
}

impl Error {
    /// The error for inconsistent board data.
    pub fn invalid_board() -> (r: Error)
        ensures
            r.spec_kind() == ErrorKind::InvalidBoard,
            r == Error::spec_invalid_board(),
    {
        Error { kind: ErrorKind::InvalidBoard }
    }

    /// The error for inconsistent board data.
    pub closed spec fn spec_invalid_board() -> Error {
        Error { kind: ErrorKind::InvalidBoard }
    }

    /// The invalid-board error is of the invalid-board kind.
    pub proof fn lemma_invalid_board_kind()
        ensures
            Error::spec_invalid_board().spec_kind() == ErrorKind::InvalidBoard,
    {
    }

    /// The kind of the error.
    pub closed spec fn spec_kind(self) -> ErrorKind {
        self.kind
    }

    /// The kind of the error.
    pub fn kind(&self) -> (r: ErrorKind)
        ensures
            r == self.spec_kind(),
    {
        self.kind
    }

    /// A short description of the error.
    pub fn description(&self) -> (r: &'static str)
        ensures
            r@ == "invalid board data"@,
    {
        match self.kind {
            ErrorKind::InvalidBoard => "invalid board data",
        }
    }
}

/// The result of solving steps.
pub type SolverResult<T> = Result<T, Error>;

impl<T> State<T> {
    /// A fixed value, nothing, or the error for a contradiction.
    pub fn into_option(self) -> (r: Result<Option<T>, LogicError>)
        ensures
            r == match self {
                State::Fixed(v) => Ok::<Option<T>, LogicError>(Some(v)),
                State::Unknown => Ok(None),
                State::Conflict => Err(LogicError),
            },
    {
        match self {
            State::Fixed(st) => Ok(Some(st)),
            State::Unknown => Ok(None),
            State::Conflict => Err(LogicError),
        }
    }

    /// A fixed value, nothing, or the invalid-board error for a contradiction.
    pub fn into_result(self) -> (r: SolverResult<Option<T>>)
        ensures
            match self {
                State::Fixed(v) => r == Ok::<Option<T>, Error>(Some(v)),
                State::Unknown => r == Ok::<Option<T>, Error>(None),
                State::Conflict => r is Err && r->Err_0.spec_kind() == ErrorKind::InvalidBoard,
            },
    {
        match self {
            State::Fixed(st) => Ok(Some(st)),
            State::Unknown => Ok(None),
            State::Conflict => Err(Error::invalid_board()),
        }
    }
}

} // verus!
