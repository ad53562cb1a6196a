//! Encoding and decoding of a sequence as it stands.

use vstd::prelude::*;
use crate::control::{code_at, with_code};
use crate::data::{read_value, stored_len, value_bytes, write_value};
use crate::error::StreamVbyteError;
use crate::layout::{
    control_bytes,
    control_len,
    grouped_len,
    longest_stream_len,
    max_compressed_len,
    max_compressedbytes,
};
use crate::stream::{
    control_stream,
    data_stream,
    decodable,
    decoded,
    decoded_at,
    encoding,
    group_control,
    grouped,
    lemma_data_stream_len,
    lemma_data_stream_step,
    lemma_reach_grows,
    lemma_tail_stream_len,
    lemma_tail_stream_prefix,
    lemma_tail_stream_step,
    reach,
    slot_code,
    stream_len,
    tail,
    tail_stream,
};
use crate::varint::{read_varint, varint_bytes, varint_room, varint_size, write_varint};

verus! {

/// The length that a refusal names for a buffer of `room` bytes: the size
/// that buffers are made to where `room` is below it, and else the length
/// of the stream of `values`.
pub open spec fn needed_len(values: Seq<u32>, room: nat) -> nat {
    if room < max_compressed_len(values.len()) {
        max_compressed_len(values.len())
    } else {
        encoding(values).len()
    }
}

/// Returns the number of data bytes of the first `upto` integers of
/// `input`, stored as members of full groups.
fn data_size(input: &[u32], upto: usize) -> (bytes: usize)
    requires
        upto <= input@.len(),
        4 * upto <= usize::MAX,
    ensures
        bytes == data_stream(input@.take(upto as int)).len(),
{
    let mut bytes: usize = 0;
    let mut index: usize = 0;
    while index < upto
        invariant
            index <= upto <= input@.len(),
            4 * upto <= usize::MAX,
            bytes == data_stream(input@.take(index as int)).len(),
            bytes <= 4 * index,
        decreases upto - index,
    {
        proof {
            lemma_data_stream_step(input@, index as int);
        }
        bytes = bytes + stored_len(input[index]);
        index = index + 1;
    }
    bytes
}

/// Returns the number of bytes of the integers of `input` from position
/// `from` on, stored as tail integers.
fn tail_size(input: &[u32], from: usize) -> (bytes: usize)
    requires
        from <= input@.len(),
        5 * (input@.len() - from) <= usize::MAX,
    ensures
        bytes == tail_stream(input@.skip(from as int)).len(),
{
    let ghost rest = input@.skip(from as int);
    let count: usize = input.len();
    let mut bytes: usize = 0;
    let mut index: usize = from;
    while index < count
        invariant
            rest == input@.skip(from as int),
            count == input@.len(),
            from <= index <= count,
            5 * (count - from) <= usize::MAX,
            bytes == tail_stream(rest.take(index - from)).len(),
            bytes <= 5 * (index - from),
        decreases count - index,
    {
        proof {
            lemma_tail_stream_step(rest, index - from);
        }
        bytes = bytes + varint_size(input[index]);
        index = index + 1;
    }
    assert(rest.take(count - from) =~= rest);
    bytes
}

/// Writes the control bytes of the full groups of `input` and the data
/// bytes of their members to the front of `output`, and returns the
/// position after them.
fn write_groups(input: &[u32], output: &mut [u8]) -> (end: usize)
    requires
        17 * control_len(input@.len()) <= old(output)@.len(),
    ensures
        final(output)@.len() == old(output)@.len(),
        end == control_len(input@.len()) + data_stream(grouped(input@)).len(),
        final(output)@.subrange(0, end as int) == control_stream(input@) + data_stream(
            grouped(input@),
        ),
        forall|j: int| end <= j < old(output)@.len() ==> final(output)@[j] == old(output)@[j],
{
    let ghost values = input@;
    let ghost before = output@;
    let room: usize = output.len();
    let first_data: usize = control_bytes(input.len());
    let count: usize = first_data * 4;
    let mut at: usize = first_data;
    let mut key: u8 = 0;
    let mut index: usize = 0;
    while index < count
        invariant
            values == input@,
            count == grouped_len(values.len()),
            count <= values.len(),
            output@.len() == before.len(),
            room == before.len(),
            first_data == control_len(values.len()),
            before.len() >= 17 * first_data,
            index <= count,
            at == first_data + data_stream(values.take(index as int)).len(),
            at <= first_data + 4 * index,
            index % 4 != 0 ==> key == group_control(values.take(index as int), index as int / 4),
            forall|group: int|
                0 <= group < index / 4 ==> output@[group] == group_control(values, group),
            output@.subrange(first_data as int, at as int) == data_stream(
                values.take(index as int),
            ),
            forall|j: int| at <= j < before.len() ==> output@[j] == before[j],
        decreases count - index,
    {
        let slot: usize = index % 4;
        let group: usize = index / 4;
        let value: u32 = input[index];
        let ghost taken = values.take(index as int);
        let ghost grown = values.take(index + 1);
        let ghost earlier = output@;
        proof {
            lemma_data_stream_step(values, index as int);
            assert forall|k: int| 0 <= k < index implies slot_code(grown, k) == slot_code(
                taken,
                k,
            ) by {}
            assert(slot_code(grown, index as int) == slot_code(values, index as int));
        }
        let len: usize = write_value(output, at, value);
        let ghost written = output@;
        let open: u8 = if slot == 0 {
            0
        } else {
            key
        };
        key = with_code(open, slot, (len - 1) as u8);
        assert(key == group_control(grown, group as int));
        if slot == 3 {
            proof {
                assert forall|k: int| 4 * group <= k < 4 * group + 4 implies slot_code(grown, k)
                    == slot_code(values, k) by {}
            }
            output[group] = key;
        }
        proof {
            let stored = data_stream(taken) + value_bytes(value);
            assert forall|j: int| 0 <= j < stored.len() implies output@[first_data + j]
                == stored[j] by {
                if j < at - first_data {
                    assert(earlier.subrange(first_data as int, at as int)[j] == earlier[first_data
                        + j]);
                } else {
                    assert(written.subrange(at as int, at + len)[j - (at - first_data)]
                        == written[first_data + j]);
                }
            }
            assert(output@.subrange(first_data as int, at + len) =~= stored);
        }
        at = at + len;
        index = index + 1;
    }
    proof {
        assert(output@.subrange(0, first_data as int) =~= control_stream(values));
        assert(output@.subrange(0, at as int) =~= control_stream(values) + data_stream(
            grouped(values),
        ));
    }
    at
}

/// Writes the tail of `input` to `output` from position `at` on, and
/// returns the position after it. Nothing else in `output` changes.
fn write_tail(input: &[u32], output: &mut [u8], at: usize) -> (end: usize)
    requires
        at + tail_stream(tail(input@)).len() <= old(output)@.len(),
    ensures
        final(output)@.len() == old(output)@.len(),
        end == at + tail_stream(tail(input@)).len(),
        final(output)@.subrange(at as int, end as int) == tail_stream(tail(input@)),
        forall|j: int|
            0 <= j < old(output)@.len() && !(at <= j < end) ==> final(output)@[j] == old(
                output,
            )@[j],
{
    let ghost rest = tail(input@);
    let ghost before = output@;
    let room: usize = output.len();
    let count: usize = input.len();
    let from: usize = control_bytes(count) * 4;
    let mut end: usize = at;
    let mut index: usize = from;
    while index < count
        invariant
            rest == tail(input@),
            count == input@.len(),
            from == grouped_len(count as nat),
            from <= index <= count,
            room == before.len(),
            output@.len() == before.len(),
            at + tail_stream(rest).len() <= before.len(),
            end == at + tail_stream(rest.take(index - from)).len(),
            output@.subrange(at as int, end as int) == tail_stream(rest.take(index - from)),
            forall|j: int| 0 <= j < before.len() && !(at <= j < end) ==> output@[j] == before[j],
        decreases count - index,
    {
        let value: u32 = input[index];
        let ghost taken = rest.take(index - from);
        let ghost earlier = output@;
        proof {
            lemma_tail_stream_step(rest, index - from);
            lemma_tail_stream_prefix(rest, index - from + 1);
        }
        let len: usize = write_varint(output, end, value);
        proof {
            let stored = tail_stream(taken) + varint_bytes(value);
            assert forall|j: int| 0 <= j < stored.len() implies output@[at + j] == stored[j] by {
                if j < end - at {
                    assert(earlier.subrange(at as int, end as int)[j] == earlier[at + j]);
                } else {
                    assert(output@.subrange(end as int, end + len)[j - (end - at)] == output@[at
                        + j]);
                }
            }
            assert(output@.subrange(at as int, end + len) =~= stored);
        }
        end = end + len;
        index = index + 1;
    }
    assert(rest.take(count - from) =~= rest);
    end
}

/// Encodes `input` into the front of `output` and returns the number of
/// bytes written. The rest of `output` keeps what it held.
///
/// A buffer shorter than [`max_compressedbytes`] of `input.len()` is
/// refused, whatever the integers are, and so is one that is shorter than
/// the stream. The second can happen only where two or three tail integers
/// take five bytes: the stream may then be one or two bytes longer than
/// that size. A refusal comes before anything is written, with the length
/// of the buffer and the length that was needed.
pub fn encode_to_buf(input: &[u32], output: &mut [u8]) -> (result: Result<usize, StreamVbyteError>)
    requires
        longest_stream_len(input@.len()) <= usize::MAX,
    ensures
        final(output)@.len() == old(output)@.len(),
        result is Ok <==> old(output)@.len() >= max_compressed_len(input@.len()) && old(
            output,
        )@.len() >= encoding(input@).len(),
        result matches Ok(written) ==> written == encoding(input@).len(),
        result matches Ok(written) ==> final(output)@.subrange(0, written as int) == encoding(
            input@,
        ),
        result matches Ok(written) ==> forall|j: int|
            written <= j < old(output)@.len() ==> final(output)@[j] == old(output)@[j],
        result matches Err(error) ==> error == StreamVbyteError::OutbufOverflow(
            old(output)@.len() as usize,
            needed_len(input@, old(output)@.len()) as usize,
        ),
        result is Err ==> final(output)@ == old(output)@,
{
    let count: usize = input.len();
    let room: usize = output.len();
    let bound: usize = max_compressedbytes(count);
    if room < bound {
        return Err(StreamVbyteError::OutbufOverflow(room, bound));
    }
    let groups: usize = control_bytes(count);
    let rest: usize = count - groups * 4;
    let tail_bytes: usize = tail_size(input, groups * 4);
    proof {
        lemma_data_stream_len(grouped(input@));
        lemma_tail_stream_len(tail(input@));
    }
    if tail_bytes > 4 * rest + 1 {
        let exact: usize = groups + data_size(input, groups * 4) + tail_bytes;
        if room < exact {
            return Err(StreamVbyteError::OutbufOverflow(room, exact));
        }
    }
    let ghost before = output@;
    let first_tail: usize = write_groups(input, output);
    let ghost head = output@;
    let end: usize = write_tail(input, output, first_tail);
    proof {
        let front = control_stream(input@) + data_stream(grouped(input@));
        assert forall|j: int| 0 <= j < first_tail implies output@[j] == front[j] by {
            assert(head.subrange(0, first_tail as int)[j] == head[j]);
        }
        assert forall|j: int| first_tail <= j < end implies output@[j] == tail_stream(
            tail(input@),
        )[j - first_tail] by {
            assert(output@.subrange(first_tail as int, end as int)[j - first_tail] == output@[j]);
        }
        assert(output@.subrange(0, end as int) =~= encoding(input@));
    }
    Ok(end)
}

/// Encodes `input` into a new buffer that holds the stream and nothing
/// more.
pub fn encode(input: &[u32]) -> (bytes: Vec<u8>)
    requires
        longest_stream_len(input@.len()) <= usize::MAX,
    ensures
        bytes@ == encoding(input@),
        bytes@.len() <= longest_stream_len(input@.len()),
{
    let count: usize = input.len();
    let bound: usize = max_compressedbytes(count);
    let rest: usize = count % 4;
    let room: usize = if rest >= 2 {
        bound + (rest - 1)
    } else {
        bound
    };
    proof {
        lemma_data_stream_len(grouped(input@));
        lemma_tail_stream_len(tail(input@));
    }
    let mut buf: Vec<u8> = vec![0u8; room];
    let written: usize = encode_to_buf(input, buf.as_mut_slice()).unwrap();
    buf.truncate(written);
    buf
}

/// Returns the number of bytes that decoding `count` integers reads from
/// `input`, or `None` where `input` ends before them.
pub fn stream_bytes(input: &[u8], count: usize) -> (len: Option<usize>)
    ensures
        len is Some <==> decodable(input@, count as nat),
        len matches Some(bytes) ==> bytes == stream_len(input@, count as nat),
{
    let room: usize = input.len();
    let groups: usize = control_bytes(count);
    let members: usize = groups * 4;
    proof {
        lemma_reach_grows(input@, count as nat, 0, count as nat);
    }
    if room < groups {
        return None;
    }
    let mut at: usize = groups;
    let mut index: usize = 0;
    while index < members
        invariant
            room == input@.len(),
            groups == control_len(count as nat),
            members == grouped_len(count as nat),
            members <= count,
            groups <= room,
            index <= members,
            at == reach(input@, count as nat, index as nat),
            at <= room,
        decreases members - index,
    {
        let control: u8 = input[index / 4];
        let len: usize = code_at(control, index % 4) as usize + 1;
        if room - at < len {
            proof {
                lemma_reach_grows(input@, count as nat, (index + 1) as nat, count as nat);
            }
            return None;
        }
        at = at + len;
        index = index + 1;
    }
    while index < count
        invariant
            room == input@.len(),
            members == grouped_len(count as nat),
            members <= index <= count,
            at == reach(input@, count as nat, index as nat),
            at <= room,
        decreases count - index,
    {
        match varint_room(input, at) {
            Some(len) => {
                at = at + len;
                index = index + 1;
            },
            None => {
                proof {
                    lemma_reach_grows(input@, count as nat, (index + 1) as nat, count as nat);
                }
                return None;
            },
        }
    }
    Some(at)
}

/// Decodes as many integers from `input` as `output` has places, writes
/// them to `output`, and returns the number of bytes read.
///
/// The stream does not say how many integers it holds: `output` must have
/// the length of the sequence that was encoded. The call asks that `input`
/// be long enough for what it plans for that many integers, which holds
/// of every stream decoded with the length it was encoded from and which
/// [`stream_bytes`] tests.
pub fn decode(input: &[u8], output: &mut [u32]) -> (consumed: usize)
    requires
        decodable(input@, old(output)@.len()),
    ensures
        final(output)@ == decoded(input@, old(output)@.len()),
        consumed == stream_len(input@, old(output)@.len()),
{
    let room: usize = input.len();
    let count: usize = output.len();
    let groups: usize = control_bytes(count);
    let members: usize = groups * 4;
    let mut at: usize = groups;
    let mut index: usize = 0;
    while index < members
        invariant
            room == input@.len(),
            output@.len() == count,
            groups == control_len(count as nat),
            members == grouped_len(count as nat),
            members <= count,
            decodable(input@, count as nat),
            index <= members,
            at == reach(input@, count as nat, index as nat),
            forall|j: int| 0 <= j < index ==> output@[j] == decoded_at(input@, count as nat, j),
        decreases members - index,
    {
        proof {
            lemma_reach_grows(input@, count as nat, (index + 1) as nat, count as nat);
            lemma_reach_grows(input@, count as nat, 0, index as nat);
        }
        let control: u8 = input[index / 4];
        let len: usize = code_at(control, index % 4) as usize + 1;
        output[index] = read_value(input, at, len);
        at = at + len;
        index = index + 1;
    }
    while index < count
        invariant
            room == input@.len(),
            output@.len() == count,
            members == grouped_len(count as nat),
            decodable(input@, count as nat),
            members <= index <= count,
            at == reach(input@, count as nat, index as nat),
            forall|j: int| 0 <= j < index ==> output@[j] == decoded_at(input@, count as nat, j),
        decreases count - index,
    {
        proof {
            lemma_reach_grows(input@, count as nat, (index + 1) as nat, count as nat);
        }
        let found: (u32, usize) = read_varint(input, at);
        output[index] = found.0;
        at = at + found.1;
        index = index + 1;
    }
    assert(output@ =~= decoded(input@, count as nat));
    at
}

} // verus!
