//! The errors of the builder, the stratifier, the lowerer and the machine.

use vstd::prelude::*;
use crate::id::{ColId, RelationId, VarId};
use crate::types::ColType;
use crate::var::{ColVal, ColValView};

verus! {

/// What can go wrong while a program is built, compiled or run.
#[derive(Debug, PartialEq, Eq)]
pub enum Error {
    /// An aggregation's target variable was already bound.
    AggregationBoundTarget(VarId),
    /// A term binds a column that its relation does not declare.
    UnrecognizedColumnBinding(RelationId, ColId),
    /// A term binds one column twice.
    ConflictingColumnBinding(RelationId, ColId),
    /// A column is bound to a value or variable of another type than its own.
    ColumnValueTypeConflict(RelationId, ColId, ColVal, ColType),
    /// A derived relation was consulted by content identifier.
    ContentAddressedIDB(RelationId),
    /// A rule's head uses a variable that no positive body term binds.
    UnboundVariable(VarId),
    /// A rule's head binds a column that its relation does not declare.
    RuleUnknownColumn(RelationId, ColId),
    /// A negated or aggregated term uses a variable that no positive term
    /// before it binds.
    ClauseNotRangeRestricted(RelationId),
    /// The program recurses through negation or aggregation.
    ProgramUnstratifiable,
    /// An invariant of the engine was violated.
    InternalError(String),
    /// The blockstore failed.
    BlockstoreError(String),
}

/// The mathematical content of an [`Error`]: its kind and the identifiers it
/// names. The message of an internal or blockstore error is not part of it.
pub enum ErrorView {
    AggregationBoundTarget(Seq<char>),
    UnrecognizedColumnBinding(Seq<char>, Seq<char>),
    ConflictingColumnBinding(Seq<char>, Seq<char>),
    ColumnValueTypeConflict(Seq<char>, Seq<char>, ColValView, ColType),
    ContentAddressedIDB(Seq<char>),
    UnboundVariable(Seq<char>),
    RuleUnknownColumn(Seq<char>, Seq<char>),
    ClauseNotRangeRestricted(Seq<char>),
    ProgramUnstratifiable,
    InternalError,
    BlockstoreError,
}

impl View for Error {
    type V = ErrorView;

    open spec fn view(&self) -> ErrorView {
        match self {
            Error::AggregationBoundTarget(v) => ErrorView::AggregationBoundTarget(v@),
            Error::UnrecognizedColumnBinding(r, c) => ErrorView::UnrecognizedColumnBinding(r@, c@),
            Error::ConflictingColumnBinding(r, c) => ErrorView::ConflictingColumnBinding(r@, c@),
            Error::ColumnValueTypeConflict(r, c, v, t) => ErrorView::ColumnValueTypeConflict(
                r@,
                c@,
                v@,
                *t,
            ),
            Error::ContentAddressedIDB(r) => ErrorView::ContentAddressedIDB(r@),
            Error::UnboundVariable(v) => ErrorView::UnboundVariable(v@),
            Error::RuleUnknownColumn(r, c) => ErrorView::RuleUnknownColumn(r@, c@),
            Error::ClauseNotRangeRestricted(r) => ErrorView::ClauseNotRangeRestricted(r@),
            Error::ProgramUnstratifiable => ErrorView::ProgramUnstratifiable,
            Error::InternalError(_) => ErrorView::InternalError,
            Error::BlockstoreError(_) => ErrorView::BlockstoreError,
        }
    }
}

impl Error {
    /// The message of an internal or blockstore error; other errors have
    /// none.
    pub open spec fn message(&self) -> Seq<char> {
        match self {
            Error::InternalError(m) => m@,
            Error::BlockstoreError(m) => m@,
            _ => Seq::empty(),
        }
    }

    /// An internal error with the given message.
    pub fn internal(message: &str) -> (e: Error)
        ensures
            e@ == ErrorView::InternalError,
            e.message() == message@,
    {
        Error::InternalError(message.to_owned())
    }

    /// A blockstore error with the given message.
    pub fn blockstore(message: &str) -> (e: Error)
        ensures
            e@ == ErrorView::BlockstoreError,
            e.message() == message@,
    {
        Error::BlockstoreError(message.to_owned())
    }
}

} // verus!
