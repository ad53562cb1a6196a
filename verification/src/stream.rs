//! The byte stream of a sequence of integers, as a mathematical object.
//!
//! A stream has three parts. The integers that fill groups of four come
//! first: one control byte for each group, then the data bytes of all of
//! them. The tail, the one to three integers that are left over, has no
//! control byte: each tail integer follows in seven-bit groups.

use vstd::prelude::*;
use crate::control::{code_in, control_of, lemma_control_roundtrip};
use crate::data::{byte_len, stored_value, value_bytes};
use crate::layout::{control_len, grouped_len};
use crate::varint::{varint_bytes, varint_span, varint_value};

verus! {

/// The length code of `value`: one less than its stored length.
pub open spec fn code_of(value: u32) -> u8 {
    (byte_len(value) - 1) as u8
}

/// The length code in the slot of member `index`: that of the member, and
/// zero for a slot that no member fills.
pub open spec fn slot_code(values: Seq<u32>, index: int) -> u8 {
    if 0 <= index < values.len() {
        code_of(values[index])
    } else {
        0
    }
}

/// The control byte of group `group` of `values`.
pub open spec fn group_control(values: Seq<u32>, group: int) -> u8 {
    control_of(
        slot_code(values, 4 * group),
        slot_code(values, 4 * group + 1),
        slot_code(values, 4 * group + 2),
        slot_code(values, 4 * group + 3),
    )
}

/// The members of `values` that stand in full groups of four.
pub open spec fn grouped(values: Seq<u32>) -> Seq<u32> {
    values.take(grouped_len(values.len()) as int)
}

/// The tail of `values`: the members after the last full group.
pub open spec fn tail(values: Seq<u32>) -> Seq<u32> {
    values.skip(grouped_len(values.len()) as int)
}

/// The control bytes of `values`, one for each full group of four.
pub open spec fn control_stream(values: Seq<u32>) -> Seq<u8> {
    Seq::new(control_len(values.len()), |group: int| group_control(values, group))
}

/// The data bytes of `values`: the stored bytes of each integer, in the
/// order of the sequence.
pub open spec fn data_stream(values: Seq<u32>) -> Seq<u8>
    decreases values.len(),
{
    if values.len() == 0 {
        Seq::empty()
    } else {
        data_stream(values.drop_last()) + value_bytes(values.last())
    }
}

/// The bytes of `values` as tail integers: the seven-bit groups of each,
/// in the order of the sequence.
pub open spec fn tail_stream(values: Seq<u32>) -> Seq<u8>
    decreases values.len(),
{
    if values.len() == 0 {
        Seq::empty()
    } else {
        tail_stream(values.drop_last()) + varint_bytes(values.last())
    }
}

/// The encoded stream of `values`: the control bytes of its full groups,
/// the data bytes of their members, and the bytes of its tail.
pub open spec fn encoding(values: Seq<u32>) -> Seq<u8> {
    control_stream(values) + data_stream(grouped(values)) + tail_stream(tail(values))
}

/// The number of data bytes that the control bytes of `bytes` plan for
/// member `index` of a full group.
pub open spec fn planned_len(bytes: Seq<u8>, index: int) -> nat {
    (code_in(bytes[index / 4], index % 4) + 1) as nat
}

/// The number of data bytes that `bytes` plans for its first `count`
/// members together.
pub open spec fn planned_data_len(bytes: Seq<u8>, count: nat) -> nat
    decreases count,
{
    if count == 0 {
        0
    } else {
        planned_data_len(bytes, (count - 1) as nat) + planned_len(bytes, count - 1)
    }
}

/// The position that a decoder of `total` integers has reached in `bytes`
/// when it has read the control bytes and the first `count` integers.
pub open spec fn reach(bytes: Seq<u8>, total: nat, count: nat) -> nat
    decreases count,
{
    if count <= grouped_len(total) {
        control_len(total) + planned_data_len(bytes, count)
    } else {
        let from = reach(bytes, total, (count - 1) as nat);
        from + varint_span(bytes, from as int)
    }
}

/// The number of bytes that a decoder of `count` integers reads from
/// `bytes`.
pub open spec fn stream_len(bytes: Seq<u8>, count: nat) -> nat {
    reach(bytes, count, count)
}

/// Whether `bytes` holds all that a decoder of `count` integers reads.
pub open spec fn decodable(bytes: Seq<u8>, count: nat) -> bool {
    stream_len(bytes, count) <= bytes.len()
}

/// Member `index` of the `count` integers that `bytes` stands for.
pub open spec fn decoded_at(bytes: Seq<u8>, count: nat, index: int) -> u32 {
    if index < grouped_len(count) {
        stored_value(bytes, reach(bytes, count, index as nat) as int, planned_len(bytes, index))
    } else {
        varint_value(bytes, reach(bytes, count, index as nat) as int)
    }
}

/// The `count` integers that `bytes` stands for.
pub open spec fn decoded(bytes: Seq<u8>, count: nat) -> Seq<u32> {
    Seq::new(count, |index: int| decoded_at(bytes, count, index))
}

/// Taking one more integer appends its stored bytes to the data bytes.
pub proof fn lemma_data_stream_step(values: Seq<u32>, count: int)
    requires
        0 <= count < values.len(),
    ensures
        data_stream(values.take(count + 1)) == data_stream(values.take(count)) + value_bytes(
            values[count],
        ),
{
    assert(values.take(count + 1).drop_last() =~= values.take(count));
}

/// Every integer takes at least one data byte and at most four.
pub proof fn lemma_data_stream_len(values: Seq<u32>)
    ensures
        values.len() <= data_stream(values).len() <= 4 * values.len(),
    decreases values.len(),
{
    if values.len() > 0 {
        lemma_data_stream_len(values.drop_last());
    }
}

/// The data bytes of the first `count` integers stand at the front of the
/// data bytes of the whole sequence.
pub proof fn lemma_data_stream_prefix(values: Seq<u32>, count: int)
    requires
        0 <= count <= values.len(),
    ensures
        data_stream(values.take(count)).len() <= data_stream(values).len(),
        data_stream(values).subrange(0, data_stream(values.take(count)).len() as int)
            == data_stream(values.take(count)),
    decreases values.len(),
{
    if count == values.len() {
        assert(values.take(count) =~= values);
        assert(data_stream(values).subrange(0, data_stream(values).len() as int) =~= data_stream(
            values,
        ));
    } else {
        let front = values.drop_last();
        assert(front.take(count) =~= values.take(count));
        lemma_data_stream_prefix(front, count);
        let part = data_stream(values.take(count));
        assert(data_stream(values).subrange(0, part.len() as int) =~= data_stream(front).subrange(
            0,
            part.len() as int,
        ));
    }
}

/// Taking one more tail integer appends its bytes to the tail bytes.
pub proof fn lemma_tail_stream_step(values: Seq<u32>, count: int)
    requires
        0 <= count < values.len(),
    ensures
        tail_stream(values.take(count + 1)) == tail_stream(values.take(count)) + varint_bytes(
            values[count],
        ),
{
    assert(values.take(count + 1).drop_last() =~= values.take(count));
}

/// Every tail integer takes at least one byte and at most five.
pub proof fn lemma_tail_stream_len(values: Seq<u32>)
    ensures
        values.len() <= tail_stream(values).len() <= 5 * values.len(),
    decreases values.len(),
{
    if values.len() > 0 {
        lemma_tail_stream_len(values.drop_last());
    }
}

/// The bytes of the first `count` tail integers stand at the front of the
/// bytes of them all.
pub proof fn lemma_tail_stream_prefix(values: Seq<u32>, count: int)
    requires
        0 <= count <= values.len(),
    ensures
        tail_stream(values.take(count)).len() <= tail_stream(values).len(),
        tail_stream(values).subrange(0, tail_stream(values.take(count)).len() as int)
            == tail_stream(values.take(count)),
    decreases values.len(),
{
    if count == values.len() {
        assert(values.take(count) =~= values);
        assert(tail_stream(values).subrange(0, tail_stream(values).len() as int) =~= tail_stream(
            values,
        ));
    } else {
        let front = values.drop_last();
        assert(front.take(count) =~= values.take(count));
        lemma_tail_stream_prefix(front, count);
        let part = tail_stream(values.take(count));
        assert(tail_stream(values).subrange(0, part.len() as int) =~= tail_stream(front).subrange(
            0,
            part.len() as int,
        ));
    }
}

/// Where `bytes` begins with the stream of `values`, its control bytes
/// plan for each member of a full group its stored length.
pub proof fn lemma_plan_of_stream(bytes: Seq<u8>, values: Seq<u32>, index: int)
    requires
        encoding(values).is_prefix_of(bytes),
        0 <= index < grouped_len(values.len()),
    ensures
        planned_len(bytes, index) == byte_len(values[index]),
{
    let stream = encoding(values);
    let group = index / 4;
    assert(bytes[group] == bytes.subrange(0, stream.len() as int)[group]);
    assert(stream[group] == group_control(values, group));
    lemma_control_roundtrip(
        slot_code(values, 4 * group),
        slot_code(values, 4 * group + 1),
        slot_code(values, 4 * group + 2),
        slot_code(values, 4 * group + 3),
    );
}

/// Where `bytes` begins with the stream of `values`, the data bytes that
/// it plans for the first `count` members of full groups are the data
/// bytes of those members.
pub proof fn lemma_planned_data_of_stream(bytes: Seq<u8>, values: Seq<u32>, count: nat)
    requires
        encoding(values).is_prefix_of(bytes),
        count <= grouped_len(values.len()),
    ensures
        planned_data_len(bytes, count) == data_stream(values.take(count as int)).len(),
    decreases count,
{
    if count > 0 {
        let before = (count - 1) as nat;
        lemma_planned_data_of_stream(bytes, values, before);
        lemma_plan_of_stream(bytes, values, before as int);
        lemma_data_stream_step(values, before as int);
    }
}

/// The data bytes planned for more integers are no fewer.
pub proof fn lemma_planned_data_grows(bytes: Seq<u8>, fewer: nat, more: nat)
    requires
        fewer <= more,
    ensures
        planned_data_len(bytes, fewer) <= planned_data_len(bytes, more),
        planned_data_len(bytes, more) <= planned_data_len(bytes, fewer) + 4 * (more - fewer),
    decreases more,
{
    if fewer < more {
        lemma_planned_data_grows(bytes, fewer, (more - 1) as nat);
    }
}

/// A decoder that has read more integers has reached no earlier a
/// position, and none before the end of the control bytes.
pub proof fn lemma_reach_grows(bytes: Seq<u8>, total: nat, fewer: nat, more: nat)
    requires
        fewer <= more,
    ensures
        control_len(total) <= reach(bytes, total, fewer) <= reach(bytes, total, more),
    decreases more,
{
    if more > 0 {
        if fewer < more {
            lemma_reach_grows(bytes, total, fewer, (more - 1) as nat);
        } else {
            lemma_reach_grows(bytes, total, (more - 1) as nat, (more - 1) as nat);
        }
        if more <= grouped_len(total) {
            lemma_planned_data_grows(bytes, fewer, more);
        }
    }
}

} // verus!
