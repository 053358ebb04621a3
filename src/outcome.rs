//! What parsing one line yields.
use vstd::prelude::*;

verus! {

/// Why a line was rejected.
#[derive(Clone, Copy, PartialEq, Eq, Debug)]
pub enum ErrorKind {
    /// A header entry lacks the `=` between its name and its value.
    MissingEquals,
    /// A header entry lacks its `0x` literal.
    MissingHexLiteral,
    /// A channel id does not fit in 32 bits.
    IdOutOfRange,
    /// A header entry lacks its `//` comment.
    MissingComment,
    /// The id field of a log record is not a hexadecimal number.
    BadHexId,
    /// The value field of a log record is not a floating-point literal.
    BadValue,
    /// The timestamp field of a record is not `[d.]HH:MM:SS[.f]`.
    BadTimestamp,
    /// The timestamp does not fit in 64 bits of nanoseconds.
    TimestampOutOfRange,
}

/// A diagnostic for a rejected line: its text, and where in it parsing failed.
#[derive(Debug)]
pub struct BadInput {
    pub src: Vec<u8>,
    pub offset: usize,
    pub kind: ErrorKind,
}

pub struct BadInputView {
    pub src: Seq<u8>,
    pub offset: int,
    pub kind: ErrorKind,
}

impl View for BadInput {
    type V = BadInputView;

    open spec fn view(&self) -> BadInputView {
        BadInputView { src: self.src@, offset: self.offset as int, kind: self.kind }
    }
}

/// The diagnostic that the verdict `v` on `line` calls for, if it rejects the line.
pub open spec fn diagnostic_of<V>(line: Seq<u8>, v: Verdict<V>) -> Option<BadInputView> {
    match v {
        Verdict::Reject(o, k) => Some(BadInputView { src: line, offset: o, kind: k }),
        _ => None,
    }
}

/// The result of parsing one line.
#[derive(Debug)]
pub enum ParseOutcome<T> {
    /// The line holds an item.
    Parsed(T),
    /// The line holds nothing of interest (blank, boilerplate, free text).
    Skipped,
    /// The line looks like an item but breaks the grammar.
    Malformed(BadInput),
}

/// What a grammar says of one line, with the failing offset of a rejected one.
pub enum Verdict<V> {
    Accept(V),
    Skip,
    Reject(int, ErrorKind),
}

/// `r` is what the verdict `v` on `line` says it is.
pub open spec fn outcome_agrees<T: View>(r: ParseOutcome<T>, v: Verdict<T::V>, line: Seq<u8>) -> bool {
    match v {
        Verdict::Accept(x) => r matches ParseOutcome::Parsed(t) && t@ == x,
        Verdict::Skip => r is Skipped,
        Verdict::Reject(o, k) => r matches ParseOutcome::Malformed(b) && b@ == BadInputView {
            src: line,
            offset: o,
            kind: k,
        },
    }
}

pub open spec fn accepted<V>(v: Verdict<V>) -> Option<V> {
    match v {
        Verdict::Accept(x) => Some(x),
        _ => None,
    }
}

/// Builds the diagnostic for `line`, failing at `offset`.
pub fn reject<T: View>(line: &[u8], offset: usize, kind: ErrorKind) -> (r: ParseOutcome<T>)
    ensures
        outcome_agrees(r, Verdict::Reject(offset as int, kind), line@),
{
    ParseOutcome::Malformed(BadInput { src: vstd::slice::slice_to_vec(line), offset, kind })
}

} // verus!
