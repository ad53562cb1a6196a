//! Encoding and decoding of a sequence by the steps between its members.
//!
//! A sequence that does not decrease has small steps, and small numbers
//! take few bytes. The steps are taken modulo 2^32, so every sequence has
//! them and is found again from them, whether it decreases or not.

use vstd::prelude::*;
use vstd::wrapping::u32_specs::{wrapping_add, wrapping_sub};
use crate::error::StreamVbyteError;
use crate::layout::{longest_stream_len, max_compressed_len, max_compressedbytes};
use crate::plain::{decode, encode, encode_to_buf, needed_len};
use crate::stream::{decodable, decoded, encoding, stream_len};

verus! {

/// What stands before member `index` of `values`: the member before it,
/// and `initial` before the first.
pub open spec fn before(values: Seq<u32>, initial: u32, index: int) -> u32 {
    if index <= 0 {
        initial
    } else {
        values[index - 1]
    }
}

/// The steps of `values` from `initial`: each member less what stands
/// before it, modulo 2^32.
pub open spec fn steps(values: Seq<u32>, initial: u32) -> Seq<u32> {
    Seq::new(values.len(), |index: int| wrapping_sub(values[index], before(values, initial, index)))
}

/// The sequence that takes the steps `gaps` from `initial`: each member is
/// what stands before it plus its step, modulo 2^32.
pub open spec fn walk(gaps: Seq<u32>, initial: u32) -> Seq<u32>
    decreases gaps.len(),
{
    if gaps.len() == 0 {
        Seq::empty()
    } else {
        let front = walk(gaps.drop_last(), initial);
        front.push(wrapping_add(before(front, initial, front.len() as int), gaps.last()))
    }
}

/// A walk has as many members as it takes steps.
pub proof fn lemma_walk_len(gaps: Seq<u32>, initial: u32)
    ensures
        walk(gaps, initial).len() == gaps.len(),
    decreases gaps.len(),
{
    if gaps.len() > 0 {
        lemma_walk_len(gaps.drop_last(), initial);
    }
}

/// Returns the steps of `input` from `initial`.
pub fn differences(input: &[u32], initial: u32) -> (gaps: Vec<u32>)
    ensures
        gaps@ == steps(input@, initial),
{
    let count: usize = input.len();
    let mut gaps: Vec<u32> = Vec::with_capacity(count);
    let mut previous: u32 = initial;
    let mut index: usize = 0;
    while index < count
        invariant
            count == input@.len(),
            index <= count,
            gaps@.len() == index,
            previous == before(input@, initial, index as int),
            forall|j: int| 0 <= j < index ==> gaps@[j] == steps(input@, initial)[j],
        decreases count - index,
    {
        let value: u32 = input[index];
        gaps.push(value.wrapping_sub(previous));
        previous = value;
        index = index + 1;
    }
    assert(gaps@ =~= steps(input@, initial));
    gaps
}

/// Replaces the steps in `values` by the sequence that takes them from
/// `initial`.
pub fn accumulate(values: &mut [u32], initial: u32)
    ensures
        final(values)@ == walk(old(values)@, initial),
{
    let ghost gaps = values@;
    let count: usize = values.len();
    let mut previous: u32 = initial;
    let mut index: usize = 0;
    proof {
        assert(gaps.take(0) =~= Seq::<u32>::empty());
    }
    while index < count
        invariant
            count == gaps.len(),
            values@.len() == count,
            index <= count,
            values@.take(index as int) == walk(gaps.take(index as int), initial),
            forall|j: int| index <= j < count ==> values@[j] == gaps[j],
            previous == before(values@, initial, index as int),
        decreases count - index,
    {
        let ghost reached = values@.take(index as int);
        proof {
            assert(gaps.take(index + 1).drop_last() =~= gaps.take(index as int));
            lemma_walk_len(gaps.take(index as int), initial);
            assert(before(reached, initial, index as int) == previous);
        }
        let value: u32 = previous.wrapping_add(values[index]);
        values[index] = value;
        previous = value;
        index = index + 1;
        assert(values@.take(index as int) =~= reached.push(value));
    }
    assert(values@.take(count as int) =~= values@);
    assert(gaps.take(count as int) =~= gaps);
}

/// Encodes the steps of `input` from `initial` into the front of `output`
/// and returns the number of bytes written. The rest of `output` keeps what
/// it held.
///
/// The steps are small, and the stream short, where `input` does not
/// decrease and `initial` is no greater than its first member.
/// A buffer is refused as [`encode_to_buf`] refuses it for the steps,
/// before anything is written.
pub fn encode_delta_to_buf(input: &[u32], output: &mut [u8], initial: u32) -> (result: Result<
    usize,
    StreamVbyteError,
>)
    requires
        longest_stream_len(input@.len()) <= usize::MAX,
    ensures
        final(output)@.len() == old(output)@.len(),
        result is Ok <==> old(output)@.len() >= max_compressed_len(input@.len()) && old(
            output,
        )@.len() >= encoding(steps(input@, initial)).len(),
        result matches Ok(written) ==> written == encoding(steps(input@, initial)).len(),
        result matches Ok(written) ==> final(output)@.subrange(0, written as int) == encoding(
            steps(input@, initial),
        ),
        result matches Ok(written) ==> forall|j: int|
            written <= j < old(output)@.len() ==> final(output)@[j] == old(output)@[j],
        result matches Err(error) ==> error == StreamVbyteError::OutbufOverflow(
            old(output)@.len() as usize,
            needed_len(steps(input@, initial), old(output)@.len()) as usize,
        ),
        result is Err ==> final(output)@ == old(output)@,
{
    let need: usize = max_compressedbytes(input.len());
    if output.len() < need {
        return Err(StreamVbyteError::OutbufOverflow(output.len(), need));
    }
    let gaps: Vec<u32> = differences(input, initial);
    encode_to_buf(gaps.as_slice(), output)
}

/// Encodes the steps of `input` from `initial` into a new buffer that
/// holds the stream and nothing more.
pub fn encode_delta(input: &[u32], initial: u32) -> (bytes: Vec<u8>)
    requires
        longest_stream_len(input@.len()) <= usize::MAX,
    ensures
        bytes@ == encoding(steps(input@, initial)),
        bytes@.len() <= longest_stream_len(input@.len()),
{
    let gaps: Vec<u32> = differences(input, initial);
    encode(gaps.as_slice())
}

/// Decodes as many steps from `input` as `output` has places, writes to
/// `output` the sequence that takes them from `initial`, and returns the
/// number of bytes read.
///
/// As for [`decode`], `output` must have the length of the sequence that
/// was encoded, and `initial` must be the value that it was encoded with.
pub fn decode_delta(input: &[u8], output: &mut [u32], initial: u32) -> (consumed: usize)
    requires
        decodable(input@, old(output)@.len()),
    ensures
        final(output)@ == walk(decoded(input@, old(output)@.len()), initial),
        consumed == stream_len(input@, old(output)@.len()),
{
    let consumed: usize = decode(input, output);
    accumulate(output, initial);
    consumed
}

} // verus!
