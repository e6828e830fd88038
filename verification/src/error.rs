//! Classified error envelope: a coarse kind plus a dynamic cause.

use std::sync::Arc;
use vstd::prelude::*;

verus! {

/// Categories of node errors.
#[derive(Clone, Copy, Debug, PartialEq, Eq, Structural)]
pub enum ErrorKind {
    /// The underlying error concerns a cell outpoint.
    OutPoint,
    /// The underlying error concerns a transaction.
    Transaction,
    /// The underlying error is a pool rejection.
    SubmitTransaction,
    /// The underlying error comes from script execution.
    Script,
    /// The underlying error concerns a block header.
    Header,
    /// The underlying error concerns a block body.
    Block,
    /// The underlying error is internal to the node.
    Internal,
    /// The underlying error concerns the deposit accounting.
    Dao,
    /// The underlying error concerns the chain specification.
    Spec,
}

/// Sub-kinds of internal errors.
#[derive(Clone, Copy, Debug, PartialEq, Eq, Structural)]
pub enum InternalErrorKind {
    /// The persistent store failed.
    Database,
    /// The persistent store returned data that cannot be right: recovery is
    /// unsafe and the process is meant to stop.
    DataCorrupted,
    /// The operating system failed the node.
    System,
    /// Any other internal error.
    Other,
}

#[verifier::external_type_specification]
#[verifier::external_body]
pub struct ExAnyhowError(anyhow::Error);

/// Relies on `anyhow::Error::msg`: wraps an owned message into a dynamic,
/// type-erased error value.
#[verifier::external_body]
fn anyhow_from_text(text: String) -> (r: anyhow::Error) {
    anyhow::Error::msg(text)
}

/// A wrapper around a dynamic error type; clones share the one cause.
#[derive(Clone)]
pub struct AnyError {
    inner: Arc<anyhow::Error>,
}

impl AnyError {
    /// Wrap a message as a dynamic error.
    pub fn from_text(text: String) -> (r: AnyError) {
        AnyError { inner: Arc::new(anyhow_from_text(text)) }
    }
}

/// The top-level error: a kind for classification, the internal sub-kind
/// where the kind is `Internal`, and the dynamic cause chain.
#[derive(Clone)]
pub struct NodeError {
    pub kind: ErrorKind,
    pub internal: Option<InternalErrorKind>,
    pub cause: AnyError,
}

impl NodeError {
    /// The internal sub-kind is carried exactly for internal errors.
    pub open spec fn wf(self) -> bool {
        self.kind == ErrorKind::Internal <==> self.internal.is_some()
    }

    /// An error of a non-internal kind.
    pub fn new(kind: ErrorKind, cause: AnyError) -> (r: NodeError)
        requires
            kind != ErrorKind::Internal,
        ensures
            r.wf(),
            r.kind == kind,
            r.internal.is_none(),
    {
        NodeError { kind, internal: None, cause }
    }

    /// An internal error with its sub-kind.
    pub fn internal(sub: InternalErrorKind, cause: AnyError) -> (r: NodeError)
        ensures
            r.wf(),
            r.kind == ErrorKind::Internal,
            r.internal == Some(sub),
    {
        NodeError { kind: ErrorKind::Internal, internal: Some(sub), cause }
    }

    /// The error's kind, in constant time.
    pub fn kind(&self) -> (r: ErrorKind)
        ensures
            r == self.kind,
    {
        self.kind
    }

    /// The internal sub-kind, preserved exactly.
    pub fn internal_kind(&self) -> (r: Option<InternalErrorKind>)
        ensures
            r == self.internal,
    {
        self.internal
    }
}

/// Whether the error is a database-level internal failure (`Database` or
/// `System`). An error carrying `DataCorrupted` means the store can no
/// longer be trusted: the node is meant to stop instead of serving wrong
/// data, so such an error must not reach this classifier.
pub fn is_internal_db_error(error: &NodeError) -> (r: bool)
    requires
        error.wf(),
        error.internal != Some(InternalErrorKind::DataCorrupted),
    ensures
        r == (error.kind == ErrorKind::Internal && (error.internal == Some(
            InternalErrorKind::Database,
        ) || error.internal == Some(InternalErrorKind::System))),
{
    if error.kind() == ErrorKind::Internal {
        let error_kind = match error.internal_kind() {
            Some(k) => k,
            None => {
                proof {
                    assert(false);
                }
                InternalErrorKind::Other
            }
        };
        error_kind == InternalErrorKind::Database || error_kind == InternalErrorKind::System
    } else {
        false
    }
}

} // verus!
