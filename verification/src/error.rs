//! Why a transaction did not land.

use crate::path::{PathView, TreePath};
use crate::port::Fault;
use vstd::prelude::*;

verus! {

/// Why a transaction did not land.
#[derive(Debug, Clone, PartialEq, Eq)]
pub enum Error<P = TreePath, B = Vec<u8>> {
    /// The storage failed. What had been done was undone, and no journal is left, not even one that
    /// failed to be written. Only a set of one operation without a journal may have landed without
    /// its flush.
    Io(Fault<B>),
    /// A staged path leaves the root. Nothing was done.
    Escape(P),
    /// The journal of an earlier, interrupted change set is still there. Nothing was done.
    StaleJournal(P),
    /// The path does not hold what the change set expects there. Nothing was done.
    Drifted(P),
    /// The change set failed, and so did undoing it; or it landed and its journal stayed. The
    /// journal makes the next recovery complete it. A journal that failed to be written and could
    /// not be taken back stays too, and the documents are as they were.
    Torn {
        /// What failed first.
        cause: B,
        /// What failed while that was undone.
        rollback: B,
    },
}

impl View for Error<TreePath, Vec<u8>> {
    type V = Error<PathView, Seq<u8>>;

    open spec fn view(&self) -> Error<PathView, Seq<u8>> {
        match self {
            Error::Io(fault) => Error::Io(fault@),
            Error::Escape(p) => Error::Escape(p@),
            Error::StaleJournal(p) => Error::StaleJournal(p@),
            Error::Drifted(p) => Error::Drifted(p@),
            Error::Torn { cause, rollback } => Error::Torn { cause: cause@, rollback: rollback@ },
        }
    }
}

/// The view of an [`Error`].
pub type ErrorView = Error<PathView, Seq<u8>>;

/// What a transaction ends in.
pub type Outcome = Result<(), Error>;

/// The view of an [`Outcome`].
pub type OutcomeView = Result<(), ErrorView>;

/// The view of what a transaction ends in.
pub open spec fn outcome_view(outcome: Outcome) -> OutcomeView {
    match outcome {
        Ok(()) => Ok(()),
        Err(e) => Err(e@),
    }
}

} // verus!
