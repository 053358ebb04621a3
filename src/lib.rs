//! Parsing and reconciliation of legacy CAN bus logger output.
//!
//! A catalogue of channel descriptors is read from a C-style header, log
//! records are read in one of two line grammars, clock-only timestamps are
//! turned into a monotonic nanosecond count, samples are matched against the
//! catalogue and finally grouped into one ordered collection per channel.
use vstd::prelude::*;

pub mod catalogue;
pub mod comments;
pub mod descriptor;
pub mod grouping;
pub mod header;
pub mod lexical;
pub mod messages;
pub mod outcome;
pub mod timestamp;

verus! {

} // verus!
