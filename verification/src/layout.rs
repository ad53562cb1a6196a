//! Sizes of the parts of an encoded stream.

use vstd::prelude::*;

verus! {

/// Number of control bytes in the stream of `n` integers: one for each
/// full group of four.
pub open spec fn control_len(n: nat) -> nat {
    n / 4
}

/// Number of integers, of `n`, that stand in full groups of four. The
/// others, three at most, are the tail.
pub open spec fn grouped_len(n: nat) -> nat {
    4 * (n / 4)
}

/// The size that output buffers are made to: a control byte for each
/// started group of `n` integers, and four data bytes for every integer.
pub open spec fn max_compressed_len(n: nat) -> nat {
    (n + 3) / 4 + 4 * n
}

/// The most bytes that the stream of `n` integers can occupy: a control
/// byte and sixteen data bytes for each full group, and five bytes for
/// each tail integer. With two or three tail integers this is one or two
/// more than [`max_compressed_len`].
pub open spec fn longest_stream_len(n: nat) -> nat {
    17 * (n / 4) + 5 * (n % 4)
}

/// Returns the number of control bytes in the stream of `count` integers.
pub fn control_bytes(count: usize) -> (bytes: usize)
    ensures
        bytes == control_len(count as nat),
{
    count / 4
}

/// Returns the size to which output buffers for `length` integers are
/// made.
pub fn max_compressedbytes(length: usize) -> (bytes: usize)
    requires
        max_compressed_len(length as nat) <= usize::MAX,
    ensures
        bytes == max_compressed_len(length as nat),
{
    let cb: usize = (length + 3) / 4;
    let db: usize = length * 4;
    cb + db
}

} // verus!
