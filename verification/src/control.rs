//! Control bytes: the length plan of a group of four integers.
//!
//! A control byte is a four-digit number in base four. Digit `slot` is the
//! length code of member `slot` of the group, and the first member has the
//! lowest digit. A code `c` says that the member takes `c + 1` data bytes.

use vstd::prelude::*;

verus! {

/// The control byte that holds the four codes, `c0` in the two lowest bits.
pub open spec fn control_of(c0: u8, c1: u8, c2: u8, c3: u8) -> u8 {
    (c0 as int + c1 as int * 4 + c2 as int * 16 + c3 as int * 64) as u8
}

/// The weight of digit `slot` of a control byte.
pub open spec fn slot_weight(slot: int) -> int {
    if slot <= 0 {
        1
    } else if slot == 1 {
        4
    } else if slot == 2 {
        16
    } else {
        64
    }
}

/// The code that `control` holds for member `slot` of its group.
pub open spec fn code_in(control: u8, slot: int) -> u8 {
    ((control as int / slot_weight(slot)) % 4) as u8
}

/// Each slot of a control byte gives back the code that was packed into it.
pub proof fn lemma_control_roundtrip(c0: u8, c1: u8, c2: u8, c3: u8)
    requires
        c0 <= 3,
        c1 <= 3,
        c2 <= 3,
        c3 <= 3,
    ensures
        code_in(control_of(c0, c1, c2, c3), 0) == c0,
        code_in(control_of(c0, c1, c2, c3), 1) == c1,
        code_in(control_of(c0, c1, c2, c3), 2) == c2,
        code_in(control_of(c0, c1, c2, c3), 3) == c3,
{
}

/// Puts `code` into slot `slot` of a control byte whose slots from `slot`
/// on are still empty.
pub fn with_code(control: u8, slot: usize, code: u8) -> (merged: u8)
    requires
        slot < 4,
        code <= 3,
        (control as int) < slot_weight(slot as int),
    ensures
        merged == control + code * slot_weight(slot as int),
{
    if slot == 0 {
        code
    } else if slot == 1 {
        assert((control | code << 2) == control + code * 4) by (bit_vector)
            requires
                control < 4,
                code <= 3,
        ;
        control | code << 2
    } else if slot == 2 {
        assert((control | code << 4) == control + code * 16) by (bit_vector)
            requires
                control < 16,
                code <= 3,
        ;
        control | code << 4
    } else {
        assert((control | code << 6) == control + code * 64) by (bit_vector)
            requires
                control < 64,
                code <= 3,
        ;
        control | code << 6
    }
}

/// Reads the length code of member `slot` from a control byte.
pub fn code_at(control: u8, slot: usize) -> (code: u8)
    requires
        slot < 4,
    ensures
        code == code_in(control, slot as int),
        code <= 3,
{
    assert((control & 3) == control % 4) by (bit_vector);
    assert(((control >> 2) & 3) == (control / 4) % 4) by (bit_vector);
    assert(((control >> 4) & 3) == (control / 16) % 4) by (bit_vector);
    assert(((control >> 6) & 3) == (control / 64) % 4) by (bit_vector);
    if slot == 0 {
        control & 3
    } else if slot == 1 {
        (control >> 2) & 3
    } else if slot == 2 {
        (control >> 4) & 3
    } else {
        (control >> 6) & 3
    }
}

} // verus!
