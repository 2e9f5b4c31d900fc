//! The ways in which a document can be rejected.

use vstd::prelude::*;

verus! {

/// Why a document was rejected. Every kind is terminal: nothing is recovered
/// or guessed after any of them.
#[derive(Clone, Copy, Debug, PartialEq, Eq, Structural)]
pub enum ErrorKind {
    /// A segment does not have the shape of a segment: it has no tag, it is
    /// not terminated, or the interchange header is not laid out in its fixed
    /// widths.
    MalformedSegment,
    /// A mandatory slot found nothing to consume.
    MissingMandatorySegment,
    /// A segment is present where neither the grammar nor the envelope can
    /// place it.
    UnexpectedSegment,
    /// A repeatable slot is followed by one more matching segment than its
    /// bound allows.
    RepeatBoundExceeded,
    /// The first field of a trailer is not the decimal numeral of the number
    /// of units actually present.
    ControlCountMismatch,
    /// No grammar is registered for the requested transaction-set identifier.
    UnknownTransactionSetType,
}

/// A rejection together with the place at which it was detected. For an
/// error found while tokenizing this is a byte offset into the text. For the
/// others it is a position in the segment sequence that is matched: for a
/// whole document the segments after the interchange header, the first of
/// them at position 0.
#[derive(Clone, Copy, Debug, PartialEq, Eq, Structural)]
pub struct ParseError {
    pub kind: ErrorKind,
    pub offset: usize,
}

/// The error of kind `kind` detected at `offset`.
pub open spec fn error_at(kind: ErrorKind, offset: int) -> ParseError {
    ParseError { kind, offset: offset as usize }
}

} // verus!
