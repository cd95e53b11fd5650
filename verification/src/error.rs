//! What can go wrong while a scene is encoded or a buffer is read.
//!
//! A failure to encode ends the frame: geometry that is not sound would
//! mislead every stage that follows. A failure to read a diagnostic buffer
//! concerns only the diagnosis.

use vstd::prelude::*;

verus! {

/// Why geometry could not be encoded.
#[derive(Clone, Copy, Debug, PartialEq, Eq, Structural)]
pub enum EncodeError {
    /// The verbs of an outline consume more points than it has.
    MissingPoints,
}

/// Why a buffer could not be read.
#[derive(Clone, Copy, Debug, PartialEq, Eq, Structural)]
pub enum DecodeError {
    /// The buffer ends before the data it announces.
    Truncated,
    /// A record carries a tag that names no variant.
    UnknownTag { tag: u32 },
    /// A chain of chunks never ends.
    Cycle,
}

} // verus!
