//! The ways an encode or a decode can fail.

use vstd::prelude::*;

verus! {

/// A failure surfaced by a decode (or, in principle, an encode).
///
/// Every operation returns a result; failures propagate to the caller
/// immediately, unchanged, with no retry and no partial recovery. Bytes
/// already consumed or written before the failure stay consumed or written.
#[derive(Clone, Copy, Debug, PartialEq, Eq, Structural)]
pub enum WireError {
    /// The byte source could not supply the requested bytes (short read).
    Exhausted,
    /// A decoded length value does not fit in the host's size type.
    Unsupported,
    /// Decoded bytes are not valid UTF-8 where text was expected.
    InvalidData,
}

} // verus!
