//! Why an operation was refused.
use vstd::prelude::*;

use crate::text::{concat, concat3, copy};

verus! {

/// What went wrong, apart from the words.
#[derive(Clone, Copy, Debug, PartialEq, Eq, Structural)]
pub enum FailureKind {
    /// A path or pattern that the workspace boundary does not admit.
    EmptyPath,
    NotRelative,
    GitPath,
    ReservedPath,
    NotCanonical,
    BadGlob,
    NonUtf8Path,
    /// Evidence about the file system that does not allow the operation.
    SymbolicLink,
    Uninspectable,
    NotADirectory,
    NotAFile,
    TooLarge,
    Binary,
    NotUtf8,
    Hidden,
    DestinationExists,
    /// An executable that may not be used.
    MissingExecutable,
    ExecutableInside,
    ExecutableChanged,
    NotRipgrep,
    /// ripgrep runs that could not be used.
    ListingFailed,
    ListingTooLong,
    StateDirNotIgnored,
    StateDirVisible,
    SearchFailed,
    BadEvent,
    EmptyPattern,
    /// A read request that makes no sense.
    BadRange,
    /// A patch that makes no sense in itself.
    BadPatchSize,
    EmptyPurpose,
    DuplicatePath,
    BadHash,
    NulByte,
    NoReplacement,
    BadReplacement,
    /// A patch that does not fit what is there.
    StalePreimage,
    WrongOccurrences,
    /// A patch that could not be carried out.
    OperationFailed,
    UnexpectedReply,
    IgnoredResult,
    RollbackFailed,
    /// A patch about which nobody decided.
    Cancelled,
    /// A Git run that failed.
    GitFailed,
    /// A repository that is not in a state to work with.
    BranchChanged,
    NotInRepository,
    BareRepository,
    Submodule,
    UnsupportedSetting,
    UnsupportedFilter,
    OperationInProgress,
    UnmergedEntries,
    /// A review queue that does not allow the operation.
    ReadOnly,
    UnknownCommit,
    /// A turn of the model that breaks the rules of an activation.
    NoToolCall,
    ManyToolCalls,
    BudgetExhausted,
    DuplicateCall,
    /// A conflict that cannot be resolved, or was not.
    BadConflictPath,
    NoConflict,
    IncompleteResolution,
    MarkersRemain,
}

/// A refusal as plain values: the kind and the message.
pub type Refusal = (FailureKind, Seq<char>);

/// A refusal: what went wrong, and the message for whoever asked.
#[derive(Debug)]
pub struct Failure {
    pub kind: FailureKind,
    pub message: String,
}

impl View for Failure {
    type V = Refusal;

    open spec fn view(&self) -> Refusal {
        (self.kind, self.message@)
    }
}

/// A refusal with a fixed message.
pub fn fail(kind: FailureKind, message: &str) -> (r: Failure)
    ensures
        r@ == (kind, message@),
{
    Failure { kind, message: copy(message) }
}

/// A refusal whose message ends with what it is about.
pub fn fail_about(kind: FailureKind, message: &str, subject: &str) -> (r: Failure)
    ensures
        r@ == (kind, message@ + subject@),
{
    Failure { kind, message: concat(message, subject) }
}

/// A refusal that says what was being done and what came back from it.
pub fn fail_in(kind: FailureKind, doing: &str, reason: &str) -> (r: Failure)
    ensures
        r@ == (kind, doing@ + ": "@ + reason@),
{
    Failure { kind, message: concat3(doing, ": ", reason) }
}

/// A refusal inside a larger step: the kind stays, and the message says what was being done.
pub fn fail_within(doing: &str, inner: Failure) -> (r: Failure)
    ensures
        r@ == within(doing@, inner@),
{
    Failure { kind: inner.kind, message: concat3(doing, ": ", inner.message.as_str()) }
}

/// A refusal inside a larger step.
pub open spec fn within(doing: Seq<char>, inner: Refusal) -> Refusal {
    (inner.0, doing + ": "@ + inner.1)
}

/// The refusal, if the outcome is one.
pub open spec fn refusal<T>(r: Result<T, Failure>) -> Option<Refusal> {
    match r {
        Ok(_) => None,
        Err(failure) => Some(failure@),
    }
}

/// The outcome of an operation over texts and other plain values.
pub open spec fn outcome<T: View>(r: Result<T, Failure>) -> Result<T::V, Refusal> {
    match r {
        Ok(value) => Ok(value@),
        Err(failure) => Err(failure@),
    }
}

} // verus!
