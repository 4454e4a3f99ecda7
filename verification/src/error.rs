//! Failures that end the decoding of one archive.

use vstd::prelude::*;

verus! {

/// Why decoding of an archive stopped.
#[derive(Debug, Clone, Copy, PartialEq, Eq, Structural)]
pub enum UnpackError {
    /// A fixed-width or length-prefixed field of the header or of the table
    /// of contents declares more bytes than the input still holds.
    TruncatedInput,
    /// The input ended inside a member's payload: `expected` bytes were
    /// declared and `remaining` of them never arrived.
    TruncatedPayload { expected: u64, remaining: u64 },
}

} // verus!
