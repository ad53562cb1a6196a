//! The bytes of one tail integer: its seven-bit groups, lowest group
//! first, one to a byte. The high bit of a byte says that another byte of
//! the same integer follows.

use vstd::prelude::*;

verus! {

/// Number of bytes in which a tail integer is stored: the fewest
/// seven-bit groups that hold it, and one for zero.
pub open spec fn varint_len(value: u32) -> nat {
    if value < 0x80 {
        1
    } else if value < 0x4000 {
        2
    } else if value < 0x20_0000 {
        3
    } else if value < 0x1000_0000 {
        4
    } else {
        5
    }
}

/// The weight of group `index`: 128 to the power `index`, for the five
/// groups of a 32-bit integer.
pub open spec fn group_place(index: int) -> int {
    if index <= 0 {
        1
    } else if index == 1 {
        0x80
    } else if index == 2 {
        0x4000
    } else if index == 3 {
        0x20_0000
    } else {
        0x1000_0000
    }
}

/// Seven-bit group `index` of `value`, counted from the lowest.
pub open spec fn group_of(value: u32, index: int) -> int {
    (value as int / group_place(index)) % 0x80
}

/// Byte `index` of the stored form of `value`: the group, and the high
/// bit on every byte but the last.
pub open spec fn varint_byte(value: u32, index: int) -> u8 {
    if index + 1 < varint_len(value) {
        (group_of(value, index) + 0x80) as u8
    } else {
        group_of(value, index) as u8
    }
}

/// The bytes that stand for the tail integer `value`.
pub open spec fn varint_bytes(value: u32) -> Seq<u8> {
    Seq::new(varint_len(value), |index: int| varint_byte(value, index))
}

/// Whether `byte` says that another byte of the same integer follows.
pub open spec fn continues(byte: u8) -> bool {
    byte >= 0x80
}

/// Number of bytes of the tail integer that begins at position `at`: up to
/// the first byte that does not continue, and five at most.
pub open spec fn varint_span(bytes: Seq<u8>, at: int) -> nat {
    if !continues(bytes[at]) {
        1
    } else if !continues(bytes[at + 1]) {
        2
    } else if !continues(bytes[at + 2]) {
        3
    } else if !continues(bytes[at + 3]) {
        4
    } else {
        5
    }
}

/// The number that `group` stands for as group `index`: the group times
/// the weight of its place.
pub open spec fn placed(group: int, index: int) -> int {
    if index <= 0 {
        group
    } else if index == 1 {
        group * 0x80
    } else if index == 2 {
        group * 0x4000
    } else if index == 3 {
        group * 0x20_0000
    } else {
        group * 0x1000_0000
    }
}

/// The sum of the first `count` groups from position `at`, each times the
/// weight of its place.
pub open spec fn group_sum(bytes: Seq<u8>, at: int, count: nat) -> int
    decreases count,
{
    if count == 0 {
        0
    } else {
        group_sum(bytes, at, (count - 1) as nat) + placed(
            bytes[at + count - 1] as int % 0x80,
            count - 1,
        )
    }
}

/// The integer that the bytes of the tail integer at position `at` stand
/// for. Bits that a fifth byte holds beyond the 32nd are dropped.
pub open spec fn varint_value(bytes: Seq<u8>, at: int) -> u32 {
    (group_sum(bytes, at, varint_span(bytes, at)) % 0x1_0000_0000) as u32
}

/// An integer is the sum of its groups, each times its place, and the
/// groups beyond its stored length are zero.
pub proof fn lemma_groups_of_value(value: u32)
    ensures
        value == group_of(value, 0) + group_of(value, 1) * 0x80 + group_of(value, 2) * 0x4000
            + group_of(value, 3) * 0x20_0000 + group_of(value, 4) * 0x1000_0000,
        forall|index: int| varint_len(value) <= index <= 4 ==> group_of(value, index) == 0,
{
    assert(value == (value % 0x80) + ((value / 0x80) % 0x80) * 0x80 + ((value / 0x4000) % 0x80)
        * 0x4000 + ((value / 0x20_0000) % 0x80) * 0x20_0000 + ((value / 0x1000_0000) % 0x80)
        * 0x1000_0000) by (bit_vector);
    assert(value < 0x80 ==> (value / 0x80) % 0x80 == 0) by (bit_vector);
    assert(value < 0x4000 ==> (value / 0x4000) % 0x80 == 0) by (bit_vector);
    assert(value < 0x20_0000 ==> (value / 0x20_0000) % 0x80 == 0) by (bit_vector);
    assert(value < 0x1000_0000 ==> (value / 0x1000_0000) % 0x80 == 0) by (bit_vector);
}

/// The stored bytes of a tail integer stand for that integer and end
/// where it ends, wherever they lie in a stream.
pub proof fn lemma_varint_roundtrip(bytes: Seq<u8>, at: int, value: u32)
    requires
        0 <= at,
        at + varint_len(value) <= bytes.len(),
        bytes.subrange(at, at + varint_len(value)) == varint_bytes(value),
    ensures
        varint_span(bytes, at) == varint_len(value),
        varint_value(bytes, at) == value,
{
    let len = varint_len(value);
    assert forall|k: int| 0 <= k < len implies bytes[at + k] == varint_byte(value, k) by {
        assert(bytes.subrange(at, at + len)[k] == varint_bytes(value)[k]);
    }
    lemma_groups_of_value(value);
    assert forall|k: int| 0 <= k < len implies (bytes[at + k] as int % 0x80 == group_of(value, k)
        && (continues(bytes[at + k]) <==> k + 1 < len)) by {
        assert(bytes[at + k] == varint_byte(value, k));
    }
    assert(bytes[at] as int % 0x80 == group_of(value, 0));
    if len >= 2 {
        assert(bytes[at + 1] as int % 0x80 == group_of(value, 1));
    }
    if len >= 3 {
        assert(bytes[at + 2] as int % 0x80 == group_of(value, 2));
    }
    if len >= 4 {
        assert(bytes[at + 3] as int % 0x80 == group_of(value, 3));
    }
    if len >= 5 {
        assert(bytes[at + 4] as int % 0x80 == group_of(value, 4));
    }
    assert(varint_span(bytes, at) == len);
    reveal_with_fuel(group_sum, 6);
    assert(group_sum(bytes, at, len) == value);
}

/// The stored length of a tail integer is the least number of seven-bit
/// groups that hold it.
pub proof fn lemma_varint_len_minimal(value: u32)
    ensures
        1 <= varint_len(value) <= 5,
        (value as int) < group_place(varint_len(value) - 1) * 0x80,
        varint_len(value) > 1 ==> value as int >= group_place(varint_len(value) - 1),
        value < 0x80 <==> varint_len(value) == 1,
{
}

/// Returns the number of bytes in which the tail integer `value` is
/// stored.
pub fn varint_size(value: u32) -> (len: usize)
    ensures
        len == varint_len(value),
{
    if value < 0x80 {
        1
    } else if value < 0x4000 {
        2
    } else if value < 0x20_0000 {
        3
    } else if value < 0x1000_0000 {
        4
    } else {
        5
    }
}

/// Returns seven-bit group `index` of `value`.
pub fn group_at(value: u32, index: usize) -> (group: u8)
    requires
        index < 5,
    ensures
        group == group_of(value, index as int),
        group < 0x80,
{
    if index == 0 {
        (value % 0x80) as u8
    } else if index == 1 {
        ((value / 0x80) % 0x80) as u8
    } else if index == 2 {
        ((value / 0x4000) % 0x80) as u8
    } else if index == 3 {
        ((value / 0x20_0000) % 0x80) as u8
    } else {
        ((value / 0x1000_0000) % 0x80) as u8
    }
}

/// Returns the number that `group` stands for as group `index`.
pub fn placed_at(group: u8, index: usize) -> (number: u64)
    requires
        group < 0x80,
        index < 5,
    ensures
        number == placed(group as int, index as int),
        number <= 0x7F_0000_0000,
{
    if index == 0 {
        group as u64
    } else if index == 1 {
        group as u64 * 0x80
    } else if index == 2 {
        group as u64 * 0x4000
    } else if index == 3 {
        group as u64 * 0x20_0000
    } else {
        group as u64 * 0x1000_0000
    }
}

/// Writes the bytes of the tail integer `value` into `output` from
/// position `at` on, and returns how many they are. Nothing else in
/// `output` changes.
pub fn write_varint(output: &mut [u8], at: usize, value: u32) -> (len: usize)
    requires
        at + varint_len(value) <= old(output)@.len(),
    ensures
        len == varint_len(value),
        final(output)@.len() == old(output)@.len(),
        final(output)@.subrange(at as int, at + len) == varint_bytes(value),
        forall|j: int|
            0 <= j < old(output)@.len() && !(at <= j < at + len) ==> final(output)@[j] == old(
                output,
            )@[j],
{
    let ghost before = output@;
    let room: usize = output.len();
    let len: usize = varint_size(value);
    let mut index: usize = 0;
    while index < len
        invariant
            len == varint_len(value),
            room == before.len(),
            index <= len,
            at + len <= before.len(),
            output@.len() == before.len(),
            forall|k: int| 0 <= k < index ==> output@[at + k] == varint_byte(value, k),
            forall|j: int|
                0 <= j < before.len() && !(at <= j < at + len) ==> output@[j] == before[j],
        decreases len - index,
    {
        let group: u8 = group_at(value, index);
        let byte: u8 = if index + 1 < len {
            group + 0x80
        } else {
            group
        };
        output[at + index] = byte;
        index = index + 1;
    }
    assert(output@.subrange(at as int, at + len) =~= varint_bytes(value));
    len
}

/// Reads the tail integer that begins at position `at` of `input`, and
/// returns it with the number of its bytes.
pub fn read_varint(input: &[u8], at: usize) -> (found: (u32, usize))
    requires
        at + varint_span(input@, at as int) <= input@.len(),
    ensures
        found.0 == varint_value(input@, at as int),
        found.1 == varint_span(input@, at as int),
{
    let room: usize = input.len();
    let mut total: u64 = 0;
    let mut index: usize = 0;
    let mut open: bool = true;
    while open
        invariant
            room == input@.len(),
            at + varint_span(input@, at as int) <= input@.len(),
            index <= 5,
            open ==> index < 5,
            (index > 1 || (open && index > 0)) ==> continues(input@[at as int]),
            (index > 2 || (open && index > 1)) ==> continues(input@[at + 1]),
            (index > 3 || (open && index > 2)) ==> continues(input@[at + 2]),
            (index > 4 || (open && index > 3)) ==> continues(input@[at + 3]),
            !open ==> index >= 1 && (index == 5 || !continues(input@[at + index - 1])),
            total == group_sum(input@, at as int, index as nat),
            total <= index * 0x7F_0000_0000,
        decreases 5 - index,
    {
        let byte: u8 = input[at + index];
        total = total + placed_at(byte % 0x80, index);
        index = index + 1;
        if byte < 0x80 || index == 5 {
            open = false;
        }
    }
    ((total % 0x1_0000_0000) as u32, index)
}

/// Returns the number of bytes of the tail integer that begins at
/// position `at` of `input`, or `None` where `input` ends before the
/// integer does.
pub fn varint_room(input: &[u8], at: usize) -> (span: Option<usize>)
    requires
        at <= input@.len(),
    ensures
        span is Some <==> at + varint_span(input@, at as int) <= input@.len(),
        span matches Some(len) ==> len == varint_span(input@, at as int),
{
    let total: usize = input.len();
    let room: usize = total - at;
    let mut index: usize = 0;
    while index < 5
        invariant
            total == input@.len(),
            at + room == total,
            index <= 5,
            index <= room,
            index > 0 ==> continues(input@[at as int]),
            index > 1 ==> continues(input@[at + 1]),
            index > 2 ==> continues(input@[at + 2]),
            index > 3 ==> continues(input@[at + 3]),
        decreases 5 - index,
    {
        if room <= index {
            return None;
        }
        let byte: u8 = input[at + index];
        index = index + 1;
        if byte < 0x80 {
            return Some(index);
        }
    }
    Some(index)
}

} // verus!
