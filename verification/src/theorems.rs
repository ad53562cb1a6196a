//! What holds of every stream: the statements that relate the encoders,
//! the decoders and the size of what they exchange.

use vstd::prelude::*;
use crate::data::{byte_len, lemma_byte_len_minimal, lemma_value_roundtrip, place, value_bytes};
use crate::delta::{before, steps, walk};
use crate::layout::{control_len, grouped_len, longest_stream_len, max_compressed_len};
use crate::stream::{
    control_stream,
    data_stream,
    decodable,
    decoded,
    decoded_at,
    encoding,
    grouped,
    lemma_data_stream_len,
    lemma_data_stream_prefix,
    lemma_data_stream_step,
    lemma_plan_of_stream,
    lemma_planned_data_of_stream,
    lemma_tail_stream_len,
    lemma_tail_stream_prefix,
    lemma_tail_stream_step,
    planned_len,
    reach,
    stream_len,
    tail,
    tail_stream,
};
use crate::varint::{
    group_place,
    lemma_varint_len_minimal,
    lemma_varint_roundtrip,
    varint_bytes,
    varint_len,
    varint_span,
};

verus! {

/// The position in the stream of `values` at which the bytes of member
/// `index` begin, and for `index == values.len()` the end of the stream.
pub open spec fn member_offset(values: Seq<u32>, index: int) -> int {
    let members = grouped_len(values.len()) as int;
    if index <= members {
        (control_len(values.len()) + data_stream(values.take(index)).len()) as int
    } else {
        (control_len(values.len()) + data_stream(grouped(values)).len() + tail_stream(
            tail(values).take(index - members),
        ).len()) as int
    }
}

/// The number of bytes that member `index` of `values` takes in the
/// stream: its stored length in a full group, its seven-bit groups in the
/// tail.
pub open spec fn member_len(values: Seq<u32>, index: int) -> nat {
    if index < grouped_len(values.len()) {
        byte_len(values[index])
    } else {
        varint_len(values[index])
    }
}

/// The bytes that stand for member `index` of `values` in the stream.
pub open spec fn member_bytes(values: Seq<u32>, index: int) -> Seq<u8> {
    if index < grouped_len(values.len()) {
        value_bytes(values[index])
    } else {
        varint_bytes(values[index])
    }
}

/// A buffer that begins with a stream holds, in every window of the
/// stream, what the stream holds there.
pub proof fn lemma_window_of_prefix(stream: Seq<u8>, bytes: Seq<u8>, from: int, to: int)
    requires
        stream.is_prefix_of(bytes),
        0 <= from <= to <= stream.len(),
    ensures
        bytes.subrange(from, to) == stream.subrange(from, to),
{
    assert forall|k: int| 0 <= k < to - from implies bytes.subrange(from, to)[k]
        == stream.subrange(from, to)[k] by {
        assert(bytes.subrange(0, stream.len() as int)[from + k] == stream[from + k]);
    }
    assert(bytes.subrange(from, to) =~= stream.subrange(from, to));
}

/// Each integer of a sequence stands in its stream with its own bytes,
/// after the bytes of the integers before it, and the next begins where it
/// ends.
pub proof fn lemma_member_bytes(values: Seq<u32>, index: int)
    requires
        0 <= index < values.len(),
    ensures
        0 <= member_offset(values, index),
        member_offset(values, index + 1) == member_offset(values, index) + member_len(
            values,
            index,
        ),
        member_offset(values, index + 1) <= encoding(values).len(),
        encoding(values).subrange(
            member_offset(values, index),
            member_offset(values, index + 1),
        ) == member_bytes(values, index),
{
    let stream = encoding(values);
    let members = grouped_len(values.len()) as int;
    let front = control_stream(values) + data_stream(grouped(values));
    let from = member_offset(values, index);
    let len = member_len(values, index) as int;
    if index < members {
        let data = data_stream(grouped(values));
        let part = data_stream(values.take(index));
        let both = data_stream(values.take(index + 1));
        assert(grouped(values).take(index) =~= values.take(index));
        assert(grouped(values).take(index + 1) =~= values.take(index + 1));
        lemma_data_stream_step(values, index);
        lemma_data_stream_prefix(grouped(values), index + 1);
        assert forall|k: int| 0 <= k < len implies stream[from + k] == value_bytes(
            values[index],
        )[k] by {
            assert(data.subrange(0, both.len() as int)[part.len() + k] == both[part.len() + k]);
        }
        assert(stream.subrange(from, from + len) =~= value_bytes(values[index]));
    } else {
        let rest = tail(values);
        let place = index - members;
        let part = tail_stream(rest.take(place));
        let both = tail_stream(rest.take(place + 1));
        assert(values.take(members) =~= grouped(values));
        assert(rest.take(0) =~= Seq::<u32>::empty());
        lemma_tail_stream_step(rest, place);
        lemma_tail_stream_prefix(rest, place + 1);
        assert forall|k: int| 0 <= k < len implies stream[from + k] == varint_bytes(
            values[index],
        )[k] by {
            assert(tail_stream(rest).subrange(0, both.len() as int)[part.len() + k]
                == both[part.len() + k]);
        }
        assert(stream.subrange(from, from + len) =~= varint_bytes(values[index]));
    }
}

/// Where `bytes` begins with the stream of `values`, a decoder that has
/// read the first `count` integers stands where member `count` begins.
pub proof fn lemma_reach_of_stream(bytes: Seq<u8>, values: Seq<u32>, count: nat)
    requires
        encoding(values).is_prefix_of(bytes),
        count <= values.len(),
    ensures
        reach(bytes, values.len(), count) == member_offset(values, count as int),
    decreases count,
{
    if count <= grouped_len(values.len()) {
        lemma_planned_data_of_stream(bytes, values, count);
    } else {
        let index = count - 1;
        lemma_reach_of_stream(bytes, values, index as nat);
        lemma_member_bytes(values, index);
        lemma_window_of_prefix(
            encoding(values),
            bytes,
            member_offset(values, index),
            member_offset(values, index + 1),
        );
        lemma_varint_roundtrip(bytes, member_offset(values, index), values[index]);
    }
}

/// Decoding from a buffer that begins with the stream of a sequence, with
/// the length of that sequence, gives the sequence back and reads the
/// stream and nothing after it.
pub proof fn theorem_decode_of_stream(bytes: Seq<u8>, values: Seq<u32>)
    requires
        encoding(values).is_prefix_of(bytes),
    ensures
        decodable(bytes, values.len()),
        decoded(bytes, values.len()) == values,
        stream_len(bytes, values.len()) == encoding(values).len(),
{
    let stream = encoding(values);
    let count = values.len();
    lemma_reach_of_stream(bytes, values, count);
    assert(member_offset(values, count as int) == stream.len()) by {
        assert(values.take(count as int) =~= values);
        assert(tail(values).take(count - grouped_len(count)) =~= tail(values));
        if count == grouped_len(count) {
            assert(grouped(values) =~= values);
            assert(tail(values) =~= Seq::<u32>::empty());
        }
    }
    assert forall|index: int| 0 <= index < count implies decoded_at(bytes, count, index)
        == values[index] by {
        let from = member_offset(values, index);
        lemma_reach_of_stream(bytes, values, index as nat);
        lemma_member_bytes(values, index);
        lemma_window_of_prefix(stream, bytes, from, member_offset(values, index + 1));
        if index < grouped_len(count) {
            lemma_plan_of_stream(bytes, values, index);
            lemma_value_roundtrip(bytes, from, values[index]);
        } else {
            lemma_varint_roundtrip(bytes, from, values[index]);
        }
    }
    assert(decoded(bytes, count) =~= values);
}

/// Decoding a stream with the length of the sequence that it was encoded
/// from gives that sequence back, and reads the whole stream.
pub proof fn theorem_roundtrip(values: Seq<u32>)
    ensures
        decodable(encoding(values), values.len()),
        decoded(encoding(values), values.len()) == values,
        stream_len(encoding(values), values.len()) == encoding(values).len(),
{
    let stream = encoding(values);
    assert(stream.subrange(0, stream.len() as int) =~= stream);
    theorem_decode_of_stream(stream, values);
}

/// Taking the steps of a sequence from the value that they were measured
/// from gives the sequence back.
pub proof fn theorem_walk_of_steps(values: Seq<u32>, initial: u32)
    ensures
        walk(steps(values, initial), initial) == values,
    decreases values.len(),
{
    if values.len() > 0 {
        let front = values.drop_last();
        assert(steps(values, initial).drop_last() =~= steps(front, initial));
        theorem_walk_of_steps(front, initial);
        assert(before(front, initial, front.len() as int) == before(
            values,
            initial,
            values.len() - 1,
        ));
        assert(walk(steps(values, initial), initial) =~= values);
    } else {
        assert(walk(steps(values, initial), initial) =~= values);
    }
}

/// Decoding the steps from a buffer that begins with the delta stream of
/// a sequence, with the length of that sequence and the initial value that
/// it was encoded with, gives the sequence back and reads the stream and
/// nothing after it.
pub proof fn theorem_delta_decode_of_stream(bytes: Seq<u8>, values: Seq<u32>, initial: u32)
    requires
        encoding(steps(values, initial)).is_prefix_of(bytes),
    ensures
        decodable(bytes, values.len()),
        walk(decoded(bytes, values.len()), initial) == values,
        stream_len(bytes, values.len()) == encoding(steps(values, initial)).len(),
{
    theorem_decode_of_stream(bytes, steps(values, initial));
    theorem_walk_of_steps(values, initial);
}

/// Decoding a delta stream with the length and the initial value that it
/// was encoded with gives the sequence back, and reads the whole stream.
/// This holds of every sequence, also of one that decreases or begins
/// below the initial value.
pub proof fn theorem_delta_roundtrip(values: Seq<u32>, initial: u32)
    ensures
        decodable(encoding(steps(values, initial)), values.len()),
        walk(decoded(encoding(steps(values, initial)), values.len()), initial) == values,
        stream_len(encoding(steps(values, initial)), values.len()) == encoding(
            steps(values, initial),
        ).len(),
{
    theorem_roundtrip(steps(values, initial));
    theorem_walk_of_steps(values, initial);
}

/// Whether no member of `values` is less than what stands before it,
/// `initial` standing before the first.
pub open spec fn rising(values: Seq<u32>, initial: u32) -> bool {
    forall|index: int| 0 <= index < values.len() ==> before(values, initial, index) <= values[index]
}

/// The steps of a sequence that does not decrease are the plain
/// differences, and none is greater than the member it leads to.
pub proof fn theorem_steps_of_rising(values: Seq<u32>, initial: u32)
    requires
        rising(values, initial),
    ensures
        forall|index: int|
            0 <= index < values.len() ==> steps(values, initial)[index] == values[index] - before(
                values,
                initial,
                index,
            ),
        forall|index: int|
            0 <= index < values.len() ==> steps(values, initial)[index] <= values[index],
{
}

/// Whether every member of `values` is at least `least`.
pub open spec fn all_at_least(values: Seq<u32>, least: u32) -> bool {
    forall|index: int| 0 <= index < values.len() ==> values[index] >= least
}

/// The data bytes are four for every integer exactly where every integer
/// needs all four.
pub proof fn lemma_full_data(values: Seq<u32>)
    ensures
        data_stream(values).len() == 4 * values.len() <==> all_at_least(values, 0x100_0000),
    decreases values.len(),
{
    if values.len() > 0 {
        let front = values.drop_last();
        lemma_full_data(front);
        lemma_data_stream_len(front);
        if all_at_least(values, 0x100_0000) {
            assert forall|index: int| 0 <= index < front.len() implies front[index]
                >= 0x100_0000 by {
                assert(front[index] == values[index]);
            }
        }
        if data_stream(values).len() == 4 * values.len() {
            assert forall|index: int| 0 <= index < values.len() implies values[index]
                >= 0x100_0000 by {
                if index < front.len() {
                    assert(front[index] == values[index]);
                }
            }
        }
    }
}

/// The tail bytes are five for every tail integer exactly where every one
/// has a bit above the 28th.
pub proof fn lemma_full_tail(values: Seq<u32>)
    ensures
        tail_stream(values).len() == 5 * values.len() <==> all_at_least(values, 0x1000_0000),
    decreases values.len(),
{
    if values.len() > 0 {
        let front = values.drop_last();
        lemma_full_tail(front);
        lemma_tail_stream_len(front);
        if all_at_least(values, 0x1000_0000) {
            assert forall|index: int| 0 <= index < front.len() implies front[index]
                >= 0x1000_0000 by {
                assert(front[index] == values[index]);
            }
        }
        if tail_stream(values).len() == 5 * values.len() {
            assert forall|index: int| 0 <= index < values.len() implies values[index]
                >= 0x1000_0000 by {
                if index < front.len() {
                    assert(front[index] == values[index]);
                }
            }
        }
    }
}

/// No stream is longer than a control byte and sixteen data bytes for
/// each full group and five bytes for each tail integer, and a stream is
/// that long only where every integer takes the most bytes that its place
/// allows.
pub proof fn theorem_longest_stream(values: Seq<u32>)
    ensures
        encoding(values).len() <= longest_stream_len(values.len()),
        max_compressed_len(values.len()) <= longest_stream_len(values.len()) <= max_compressed_len(
            values.len(),
        ) + 2,
        encoding(values).len() == longest_stream_len(values.len()) <==> all_at_least(
            grouped(values),
            0x100_0000,
        ) && all_at_least(tail(values), 0x1000_0000),
{
    lemma_data_stream_len(grouped(values));
    lemma_tail_stream_len(tail(values));
    lemma_full_data(grouped(values));
    lemma_full_tail(tail(values));
}

/// The bytes that the members of full groups leave unused of the four
/// that each may take.
pub open spec fn saved_len(values: Seq<u32>) -> int {
    4 * grouped(values).len() - data_stream(grouped(values)).len()
}

/// A stream is no longer than the size that buffers are made to, unless
/// its tail takes more than one byte beyond four for each tail integer
/// and the members of the full groups do not save as many bytes as it
/// takes more. That takes two or three tail integers, of which at least
/// two need five bytes or one needs five and none fewer than four.
pub proof fn theorem_size_bound(values: Seq<u32>)
    ensures
        0 <= saved_len(values),
        encoding(values).len() <= max_compressed_len(values.len()) <==> tail_stream(
            tail(values),
        ).len() <= 4 * tail(values).len() + 1 + saved_len(values),
        tail_stream(tail(values)).len() <= 4 * tail(values).len() + 1 ==> encoding(values).len()
            <= max_compressed_len(values.len()),
{
    lemma_data_stream_len(grouped(values));
    lemma_tail_stream_len(tail(values));
}

/// The tail of at most one integer never takes more than one byte beyond
/// four for each tail integer, and neither does a tail whose members are
/// all below 2^28.
pub proof fn theorem_short_tail(values: Seq<u32>)
    requires
        values.len() % 4 <= 1 || forall|index: int|
            grouped_len(values.len()) <= index < values.len() ==> values[index] < 0x1000_0000,
    ensures
        tail_stream(tail(values)).len() <= 4 * tail(values).len() + 1,
{
    let rest = tail(values);
    lemma_tail_stream_len(rest);
    if values.len() % 4 > 1 {
        assert forall|index: int| 0 <= index < rest.len() implies rest[index] < 0x1000_0000 by {
            assert(rest[index] == values[grouped_len(values.len()) + index]);
        }
        lemma_narrow_tail(rest);
    }
}

/// Tail integers below 2^28 take four bytes each at most.
pub proof fn lemma_narrow_tail(values: Seq<u32>)
    requires
        forall|index: int| 0 <= index < values.len() ==> values[index] < 0x1000_0000,
    ensures
        tail_stream(values).len() <= 4 * values.len(),
    decreases values.len(),
{
    if values.len() > 0 {
        let front = values.drop_last();
        assert forall|index: int| 0 <= index < front.len() implies front[index] < 0x1000_0000 by {
            assert(front[index] == values[index]);
        }
        lemma_narrow_tail(front);
    }
}

/// With no tail, or a tail of one integer, a stream is as long as the
/// size that buffers are made to exactly where every integer takes the
/// most bytes that its place allows; every integer then needs all four
/// bytes.
pub proof fn theorem_size_bound_met(values: Seq<u32>)
    requires
        values.len() % 4 <= 1,
    ensures
        encoding(values).len() == max_compressed_len(values.len()) <==> all_at_least(
            grouped(values),
            0x100_0000,
        ) && all_at_least(tail(values), 0x1000_0000),
        encoding(values).len() == max_compressed_len(values.len()) ==> all_at_least(
            values,
            0x100_0000,
        ),
{
    theorem_longest_stream(values);
    if encoding(values).len() == max_compressed_len(values.len()) {
        let members = grouped_len(values.len()) as int;
        assert forall|index: int| 0 <= index < values.len() implies values[index]
            >= 0x100_0000 by {
            if index < members {
                assert(grouped(values)[index] == values[index]);
            } else {
                assert(tail(values)[index - members] == values[index]);
            }
        }
    }
}

/// Every integer takes the fewest bytes that hold it in its place. For a
/// member of a full group the control bytes plan its stored length, fewer
/// bytes could not hold it unless it is zero, which takes one, and an
/// integer below 256 takes one. For a tail integer the stream holds the
/// fewest seven-bit groups that hold it.
pub proof fn theorem_minimal(values: Seq<u32>, index: int)
    requires
        0 <= index < values.len(),
    ensures
        member_offset(values, index + 1) == member_offset(values, index) + member_len(
            values,
            index,
        ),
        index < grouped_len(values.len()) ==> planned_len(encoding(values), index) == byte_len(
            values[index],
        ),
        index < grouped_len(values.len()) ==> (values[index] as int) < place(
            byte_len(values[index]) - 1,
        ) * 0x100,
        index < grouped_len(values.len()) && byte_len(values[index]) > 1 ==> values[index] as int
            >= place(byte_len(values[index]) - 1),
        index < grouped_len(values.len()) && values[index] < 0x100 ==> planned_len(
            encoding(values),
            index,
        ) == 1,
        index >= grouped_len(values.len()) ==> varint_span(
            encoding(values),
            member_offset(values, index),
        ) == varint_len(values[index]),
        index >= grouped_len(values.len()) ==> (values[index] as int) < group_place(
            varint_len(values[index]) - 1,
        ) * 0x80,
        index >= grouped_len(values.len()) && varint_len(values[index]) > 1 ==> values[index] as int
            >= group_place(varint_len(values[index]) - 1),
{
    let stream = encoding(values);
    assert(stream.subrange(0, stream.len() as int) =~= stream);
    lemma_member_bytes(values, index);
    if index < grouped_len(values.len()) {
        lemma_plan_of_stream(stream, values, index);
        lemma_byte_len_minimal(values[index]);
    } else {
        lemma_varint_roundtrip(stream, member_offset(values, index), values[index]);
        lemma_varint_len_minimal(values[index]);
    }
}

} // verus!
