//! The device's status register: one byte with four fields.
//!
//! Bit 0 is the busy flag, bit 1 the write latch, bits 2 and 3 the array
//! protection level and bit 7 the protection enable flag.

use crate::bits;
use vstd::prelude::*;

verus! {

/// A value of the status register, as read from or written to the device.
pub struct Status {
    pub value: u8,
}

/// How much of the array is protected against writes.
#[derive(Clone, Copy, Debug, PartialEq, Eq, Structural)]
pub enum WriteProtection {
    Off,
    Quarter,
    Half,
    All,
}

impl WriteProtection {
    /// The two-bit number that stands for this level in the register.
    pub open spec fn bits(self) -> u8 {
        match self {
            WriteProtection::Off => 0b00,
            WriteProtection::Quarter => 0b01,
            WriteProtection::Half => 0b10,
            WriteProtection::All => 0b11,
        }
    }

    /// The two-bit number that stands for this level in the register.
    pub fn code(self) -> (r: u8)
        ensures
            r == self.bits(),
    {
        match self {
            WriteProtection::Off => 0b00,
            WriteProtection::Quarter => 0b01,
            WriteProtection::Half => 0b10,
            WriteProtection::All => 0b11,
        }
    }
}

/// The busy flag of the status byte `b`.
pub open spec fn busy_of(b: u8) -> bool {
    b & 0x01 != 0
}

/// The write latch flag of the status byte `b`.
pub open spec fn latch_of(b: u8) -> bool {
    b & 0x02 != 0
}

/// The protection enable flag of the status byte `b`.
pub open spec fn enable_of(b: u8) -> bool {
    b & 0x80 != 0
}

/// The protection level held in bits 2 and 3 of the status byte `b`.
pub open spec fn level_of(b: u8) -> WriteProtection {
    let field = (b >> 2) & 0x03;
    if field == 0 {
        WriteProtection::Off
    } else if field == 1 {
        WriteProtection::Quarter
    } else if field == 2 {
        WriteProtection::Half
    } else {
        WriteProtection::All
    }
}

/// The status byte `b` with its protection level replaced.
pub open spec fn with_level(b: u8, level: WriteProtection) -> u8 {
    (b & 0xf3) | (level.bits() << 2)
}

/// The status byte `b` with its protection enable flag replaced.
pub open spec fn with_enable(b: u8, enabled: bool) -> u8 {
    if enabled {
        b | 0x80
    } else {
        b & 0x7f
    }
}

impl Status {
    /// Whether the write latch is set.
    pub fn write_latch_enabled(&self) -> (r: bool)
        ensures
            r == latch_of(self.value),
    {
        let r = bits::get_bit(self.value, 1);
        proof {
            let v = self.value;
            assert((v & (1u8 << 1u8) != 0) == (v & 0x02 != 0)) by (bit_vector);
        }
        r
    }

    /// Whether a write or erase cycle is still running inside the device.
    pub fn write_in_progress(&self) -> (r: bool)
        ensures
            r == busy_of(self.value),
    {
        let r = bits::get_bit(self.value, 0);
        proof {
            let v = self.value;
            assert((v & (1u8 << 0u8) != 0) == (v & 0x01 != 0)) by (bit_vector);
        }
        r
    }

    /// The array protection level.
    pub fn write_protection_level(&self) -> (r: WriteProtection)
        ensures
            r == level_of(self.value),
    {
        let field = bits::get_bits(self.value, 2, 4);
        proof {
            let v = self.value;
            assert((v & (0xffu8 >> 4u8)) >> 2u8 == (v >> 2) & 0x03) by (bit_vector);
            assert((v >> 2) & 0x03 <= 3) by (bit_vector);
        }
        if field == 0 {
            WriteProtection::Off
        } else if field == 1 {
            WriteProtection::Quarter
        } else if field == 2 {
            WriteProtection::Half
        } else {
            WriteProtection::All
        }
    }

    /// Replaces the array protection level and keeps every other bit.
    pub fn set_write_protection_level(&mut self, protection: WriteProtection)
        ensures
            final(self).value == with_level(old(self).value, protection),
    {
        let field = protection.code();
        proof {
            assert(0xffu8 >> 6u8 == 3) by (bit_vector);
        }
        let value = bits::set_bits(self.value, 2, 4, field);
        proof {
            let v = self.value;
            assert((v & !(((0xffu8 >> 4u8) >> 2u8) << 2u8)) | (field << 2u8) == (v & 0xf3) | (field
                << 2)) by (bit_vector);
        }
        self.value = value;
    }

    /// Whether the protection enable flag is set. While it is clear the device
    /// ignores the write-protect signal.
    pub fn write_protection_enabled(&mut self) -> (r: bool)
        ensures
            r == enable_of(old(self).value),
            final(self).value == old(self).value,
    {
        let r = bits::get_bit(self.value, 7);
        proof {
            let v = self.value;
            assert((v & (1u8 << 7u8) != 0) == (v & 0x80 != 0)) by (bit_vector);
        }
        r
    }

    /// Replaces the protection enable flag and keeps every other bit.
    pub fn set_write_protection_enabled(&mut self, enabled: bool)
        ensures
            final(self).value == with_enable(old(self).value, enabled),
    {
        let value = bits::set_bit(self.value, 7, enabled);
        proof {
            let v = self.value;
            assert(v | (1u8 << 7u8) == v | 0x80) by (bit_vector);
            assert(v & !(1u8 << 7u8) == v & 0x7f) by (bit_vector);
        }
        self.value = value;
    }
}

/// Reading each field of a status byte and writing it back unchanged leaves
/// the byte as it was.
pub proof fn lemma_status_round_trip(b: u8)
    ensures
        with_level(b, level_of(b)) == b,
        with_enable(b, enable_of(b)) == b,
        with_enable(with_level(b, level_of(b)), enable_of(b)) == b,
{
    assert(((b >> 2) & 0x03) == 0 ==> (b & 0xf3) | (0u8 << 2) == b) by (bit_vector);
    assert(((b >> 2) & 0x03) == 1 ==> (b & 0xf3) | (1u8 << 2) == b) by (bit_vector);
    assert(((b >> 2) & 0x03) == 2 ==> (b & 0xf3) | (2u8 << 2) == b) by (bit_vector);
    assert(((b >> 2) & 0x03) != 0 && ((b >> 2) & 0x03) != 1 && ((b >> 2) & 0x03) != 2 ==> (b
        & 0xf3) | (3u8 << 2) == b) by (bit_vector);
    assert(b & 0x80 != 0 ==> b | 0x80 == b) by (bit_vector);
    assert(!(b & 0x80 != 0) ==> b & 0x7f == b) by (bit_vector);
}

/// A protection level written into a status byte is the level read back,
/// whatever the byte held before, and the other three fields keep their value.
pub proof fn lemma_level_set_then_get(b: u8, level: WriteProtection)
    ensures
        level_of(with_level(b, level)) == level,
        busy_of(with_level(b, level)) == busy_of(b),
        latch_of(with_level(b, level)) == latch_of(b),
        enable_of(with_level(b, level)) == enable_of(b),
{
    let f = level.bits();
    assert(f <= 3);
    assert(f <= 3 ==> (((b & 0xf3) | (f << 2)) >> 2) & 0x03 == f) by (bit_vector);
    assert(f <= 3 ==> ((b & 0xf3) | (f << 2)) & 0x01 == b & 0x01) by (bit_vector);
    assert(f <= 3 ==> ((b & 0xf3) | (f << 2)) & 0x02 == b & 0x02) by (bit_vector);
    assert(f <= 3 ==> ((b & 0xf3) | (f << 2)) & 0x80 == b & 0x80) by (bit_vector);
}

/// A protection enable flag written into a status byte is the flag read back,
/// and the other three fields keep their value.
pub proof fn lemma_enable_set_then_get(b: u8, enabled: bool)
    ensures
        enable_of(with_enable(b, enabled)) == enabled,
        busy_of(with_enable(b, enabled)) == busy_of(b),
        latch_of(with_enable(b, enabled)) == latch_of(b),
        level_of(with_enable(b, enabled)) == level_of(b),
{
    assert((b | 0x80) & 0x80 != 0) by (bit_vector);
    assert((b & 0x7f) & 0x80 == 0) by (bit_vector);
    assert((b | 0x80) & 0x01 == b & 0x01) by (bit_vector);
    assert((b & 0x7f) & 0x01 == b & 0x01) by (bit_vector);
    assert((b | 0x80) & 0x02 == b & 0x02) by (bit_vector);
    assert((b & 0x7f) & 0x02 == b & 0x02) by (bit_vector);
    assert(((b | 0x80) >> 2) & 0x03 == (b >> 2) & 0x03) by (bit_vector);
    assert(((b & 0x7f) >> 2) & 0x03 == (b >> 2) & 0x03) by (bit_vector);
}

} // verus!
