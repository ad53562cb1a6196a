//! The data bytes of one integer: its low-order bytes, least significant
//! first, with the high-order zero bytes left out.

use vstd::prelude::*;

verus! {

/// Number of bytes in which `value` is stored: the fewest that hold it, and
/// one byte for zero.
pub open spec fn byte_len(value: u32) -> nat {
    if value < 0x100 {
        1
    } else if value < 0x1_0000 {
        2
    } else if value < 0x100_0000 {
        3
    } else {
        4
    }
}

/// The weight of byte `index` of a little-endian number: 256 to the power
/// `index`, for the four positions of a 32-bit integer.
pub open spec fn place(index: int) -> int {
    if index <= 0 {
        1
    } else if index == 1 {
        0x100
    } else if index == 2 {
        0x1_0000
    } else {
        0x100_0000
    }
}

/// Byte `index` of `value`, counted from the least significant.
pub open spec fn byte_of(value: u32, index: int) -> u8 {
    ((value as int / place(index)) % 0x100) as u8
}

/// The bytes that stand for `value` in a stream.
pub open spec fn value_bytes(value: u32) -> Seq<u8> {
    Seq::new(byte_len(value), |index: int| byte_of(value, index))
}

/// One byte of a stream as a number, and zero where `used` is false.
pub open spec fn byte_or_zero(bytes: Seq<u8>, at: int, used: bool) -> int {
    if used {
        bytes[at] as int
    } else {
        0
    }
}

/// The integer that the `len` bytes from position `at` stand for: they are
/// read least significant first and extended with zero bytes.
pub open spec fn stored_value(bytes: Seq<u8>, at: int, len: nat) -> u32 {
    (byte_or_zero(bytes, at, len >= 1) + byte_or_zero(bytes, at + 1, len >= 2) * 0x100
        + byte_or_zero(bytes, at + 2, len >= 3) * 0x1_0000 + byte_or_zero(bytes, at + 3, len >= 4)
        * 0x100_0000) as u32
}

/// Shifting and masking pick the same byte as dividing by the place value.
pub proof fn lemma_shift_mask(value: u32)
    ensures
        (value & 0xff) == byte_of(value, 0),
        ((value >> 8) & 0xff) == byte_of(value, 1),
        ((value >> 16) & 0xff) == byte_of(value, 2),
        ((value >> 24) & 0xff) == byte_of(value, 3),
{
    assert((value & 0xff) == value % 0x100) by (bit_vector);
    assert(((value >> 8) & 0xff) == (value / 0x100) % 0x100) by (bit_vector);
    assert(((value >> 16) & 0xff) == (value / 0x1_0000) % 0x100) by (bit_vector);
    assert(((value >> 24) & 0xff) == (value / 0x100_0000) % 0x100) by (bit_vector);
}

/// Joining four bytes with shifts gives the number that they stand for.
pub proof fn lemma_join(b0: u8, b1: u8, b2: u8, b3: u8)
    ensures
        (b0 as u32 | (b1 as u32) << 8 | (b2 as u32) << 16 | (b3 as u32) << 24) == b0 as int + b1
            as int * 0x100 + b2 as int * 0x1_0000 + b3 as int * 0x100_0000,
{
    let joined: u32 = b0 as u32 | (b1 as u32) << 8 | (b2 as u32) << 16 | (b3 as u32) << 24;
    assert(joined == (b0 as u32) + (b1 as u32) * 0x100 + (b2 as u32) * 0x1_0000 + (b3 as u32)
        * 0x100_0000) by (bit_vector)
        requires
            joined == b0 as u32 | (b1 as u32) << 8 | (b2 as u32) << 16 | (b3 as u32) << 24,
    ;
}

/// An integer is the sum of its bytes, each times its place value, and the
/// bytes beyond its stored length are zero.
pub proof fn lemma_bytes_of_value(value: u32)
    ensures
        value == byte_of(value, 0) as int + byte_of(value, 1) as int * 0x100 + byte_of(value, 2)
            as int * 0x1_0000 + byte_of(value, 3) as int * 0x100_0000,
        forall|index: int| byte_len(value) <= index <= 3 ==> byte_of(value, index) == 0,
{
    assert(value == (value % 0x100) + ((value / 0x100) % 0x100) * 0x100 + ((value / 0x1_0000)
        % 0x100) * 0x1_0000 + ((value / 0x100_0000) % 0x100) * 0x100_0000) by (bit_vector);
    assert(value < 0x100 ==> (value / 0x100) % 0x100 == 0) by (bit_vector);
    assert(value < 0x1_0000 ==> (value / 0x1_0000) % 0x100 == 0) by (bit_vector);
    assert(value < 0x100_0000 ==> (value / 0x100_0000) % 0x100 == 0) by (bit_vector);
}

/// The stored bytes of an integer stand for that integer, wherever they lie
/// in a stream.
pub proof fn lemma_value_roundtrip(bytes: Seq<u8>, at: int, value: u32)
    requires
        0 <= at,
        at + byte_len(value) <= bytes.len(),
        bytes.subrange(at, at + byte_len(value)) == value_bytes(value),
    ensures
        stored_value(bytes, at, byte_len(value)) == value,
{
    let len = byte_len(value);
    assert forall|k: int| 0 <= k < len implies bytes[at + k] == byte_of(value, k) by {
        assert(bytes.subrange(at, at + len)[k] == value_bytes(value)[k]);
    }
    lemma_bytes_of_value(value);
    assert(byte_or_zero(bytes, at, len >= 1) == byte_of(value, 0));
    assert(byte_or_zero(bytes, at + 1, len >= 2) == byte_of(value, 1));
    assert(byte_or_zero(bytes, at + 2, len >= 3) == byte_of(value, 2));
    assert(byte_or_zero(bytes, at + 3, len >= 4) == byte_of(value, 3));
}

/// The stored length is the least number of bytes whose range holds the
/// value: a shorter one could not, except that zero still takes one byte.
pub proof fn lemma_byte_len_minimal(value: u32)
    ensures
        1 <= byte_len(value) <= 4,
        (value as int) < place(byte_len(value) - 1) * 0x100,
        byte_len(value) > 1 ==> value as int >= place(byte_len(value) - 1),
        value < 0x100 <==> byte_len(value) == 1,
{
}

/// Returns the number of bytes in which `value` is stored.
pub fn stored_len(value: u32) -> (len: usize)
    ensures
        len == byte_len(value),
{
    if value < 0x100 {
        1
    } else if value < 0x1_0000 {
        2
    } else if value < 0x100_0000 {
        3
    } else {
        4
    }
}

/// Writes the bytes of `value` into `output` from position `at` on, and
/// returns how many they are. Nothing else in `output` changes.
pub fn write_value(output: &mut [u8], at: usize, value: u32) -> (len: usize)
    requires
        at + byte_len(value) <= old(output)@.len(),
    ensures
        len == byte_len(value),
        final(output)@.len() == old(output)@.len(),
        final(output)@.subrange(at as int, at + len) == value_bytes(value),
        forall|j: int|
            0 <= j < old(output)@.len() && !(at <= j < at + len) ==> final(output)@[j] == old(
                output,
            )@[j],
{
    let len: usize = stored_len(value);
    proof {
        lemma_shift_mask(value);
    }
    output[at] = (value & 0xff) as u8;
    if len >= 2 {
        output[at + 1] = ((value >> 8) & 0xff) as u8;
    }
    if len >= 3 {
        output[at + 2] = ((value >> 16) & 0xff) as u8;
    }
    if len >= 4 {
        output[at + 3] = ((value >> 24) & 0xff) as u8;
    }
    assert(output@.subrange(at as int, at + len) =~= value_bytes(value));
    len
}

/// Reads the integer stored in the `len` bytes of `input` from position `at`.
pub fn read_value(input: &[u8], at: usize, len: usize) -> (value: u32)
    requires
        1 <= len <= 4,
        at + len <= input@.len(),
    ensures
        value == stored_value(input@, at as int, len as nat),
{
    let b0: u8 = input[at];
    let b1: u8 = if len >= 2 {
        input[at + 1]
    } else {
        0
    };
    let b2: u8 = if len >= 3 {
        input[at + 2]
    } else {
        0
    };
    let b3: u8 = if len >= 4 {
        input[at + 3]
    } else {
        0
    };
    proof {
        lemma_join(b0, b1, b2, b3);
    }
    b0 as u32 | (b1 as u32) << 8 | (b2 as u32) << 16 | (b3 as u32) << 24
}

} // verus!
