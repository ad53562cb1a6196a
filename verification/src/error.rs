//! The errors of the codec.

use vstd::prelude::*;

verus! {

/// What an encoder reports in place of writing.
#[derive(Debug, Clone, Copy, PartialEq, Eq, Structural)]
pub enum StreamVbyteError {
    /// The output buffer is too short. Holds the length of the buffer, then
    /// the length that was needed: the size that buffers are made to, or
    /// the length of the stream where the buffer has that size and the
    /// stream is longer.
    OutbufOverflow(usize, usize),
}

} // verus!
