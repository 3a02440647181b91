//! The failure taxonomy of a document transform.
//!
//! Every failure is terminal for the current transform: either the whole
//! set of edits for a document commits, or none does.

use vstd::prelude::*;

verus! {

/// The kinds of failure a transform can report.
#[derive(Clone, Copy, Debug, PartialEq, Eq, Structural)]
pub enum ErrorKind {
    /// The pattern source is not a valid regular expression.
    InvalidPattern,
    /// An operator string does not follow the `<target>:operation[:parameter]` shape.
    InvalidOperatorSyntax,
    /// The operation keyword names no known operation.
    UnknownOperator,
    /// The operation needs a parameter and none was given.
    MissingParameter,
    /// A group referenced as a value was never captured in the document.
    UnresolvedGroupReference,
    /// A group reference could not be resolved when an edit was computed.
    GroupReferenceNotFound,
    /// The two sides of a swap matched a different number of times.
    SwapArityMismatch,
    /// Text that had to be a number was not one.
    InvalidNumber,
    /// A divide operator received a zero divisor.
    DivisionByZero,
    /// Two pending edits touch a shared character.
    OverlappingEdits,
}

/// A transform failure: its kind, and a human-readable detail line.
#[derive(Debug)]
pub struct RegopError {
    /// What went wrong.
    pub kind: ErrorKind,
    /// Diagnostic text for the failure, as bytes.
    pub detail: Vec<u8>,
}

impl RegopError {
    /// Builds an error of the given kind whose detail is the given text.
    pub fn new(kind: ErrorKind, detail: &str) -> (r: RegopError)
        ensures
            r.kind == kind,
    {
        RegopError { kind, detail: vstd::slice::slice_to_vec(detail.as_bytes()) }
    }

    /// Appends more text to the detail line.
    pub fn push_detail(&mut self, more: &[u8])
        ensures
            final(self).kind == old(self).kind,
    {
        self.detail.extend_from_slice(more);
    }

    /// The detail line as a `String`; relies on `String::from_utf8_lossy`
    /// to turn the detail bytes back into text.
    #[verifier::external_body]
    pub fn message(&self) -> String {
        String::from_utf8_lossy(&self.detail).into_owned()
    }
}

} // verus!
