//! Bit-level access to integers, done by the `bit_field` crate.
//!
//! Each function here makes one call into `bit_field`; its contract restates,
//! as a bit-vector expression, what that crate computes. The contracts are
//! taken on trust, everything built on them is proved.

use bit_field::BitField;
use vstd::prelude::*;

verus! {

/// `BitField::get_bit` for `u8`: whether the bit at index `bit` is set, index 0
/// being the least significant bit. The index must lie inside the byte.
#[verifier::external_body]
pub(crate) fn get_bit(value: u8, bit: usize) -> (r: bool)
    requires
        bit < 8,
    ensures
        r == (value & (1u8 << (bit as u8)) != 0),
{
    value.get_bit(bit)
}

/// `BitField::get_bits` for `u8` on the half-open range `start..end`: the bits
/// below `end` are kept, and the result is shifted down by `start`.
#[verifier::external_body]
pub(crate) fn get_bits(value: u8, start: usize, end: usize) -> (r: u8)
    requires
        start < end <= 8,
    ensures
        r == (value & (0xffu8 >> ((8 - end) as u8))) >> (start as u8),
{
    value.get_bits(start..end)
}

/// `BitField::set_bit` for `u8`: the byte with the bit at index `bit` set or
/// cleared, every other bit kept.
#[verifier::external_body]
pub(crate) fn set_bit(value: u8, bit: usize, on: bool) -> (r: u8)
    requires
        bit < 8,
    ensures
        r == if on {
            value | (1u8 << (bit as u8))
        } else {
            value & !(1u8 << (bit as u8))
        },
{
    let mut byte = value;
    byte.set_bit(bit, on);
    byte
}

/// `BitField::set_bits` for `u8` on the half-open range `start..end`: the bits
/// of the range are replaced by `field`, shifted up by `start`; the others are
/// kept. `field` must fit into the width of the range.
#[verifier::external_body]
pub(crate) fn set_bits(value: u8, start: usize, end: usize, field: u8) -> (r: u8)
    requires
        start < end <= 8,
        field <= 0xffu8 >> ((8 - (end - start)) as u8),
    ensures
        r == (value & !(((0xffu8 >> ((8 - end) as u8)) >> (start as u8)) << (start as u8))) | (field
            << (start as u8)),
{
    let mut byte = value;
    byte.set_bits(start..end, field);
    byte
}

/// `BitField::set_bits` for `u32` on the half-open range `start..end`: the bits
/// of the range are replaced by `field`, shifted up by `start`; the others are
/// kept. `field` must fit into the width of the range.
#[verifier::external_body]
pub(crate) fn set_word_bits(value: u32, start: usize, end: usize, field: u32) -> (r: u32)
    requires
        start < end <= 32,
        field <= 0xffff_ffffu32 >> ((32 - (end - start)) as u32),
    ensures
        r == (value & !(((0xffff_ffffu32 >> ((32 - end) as u32)) >> (start as u32)) << (
        start as u32))) | (field << (start as u32)),
{
    let mut word = value;
    word.set_bits(start..end, field);
    word
}

} // verus!
