//! The instruction set of the 25-series serial EEPROMs.

use vstd::prelude::*;

verus! {

/// An instruction that the device understands.
#[derive(Clone, Copy, Debug, PartialEq, Eq, Structural)]
pub enum Instruction {
    Read,
    Write,
    WriteEnable,
    WriteDisable,
    ReadStatus,
    WriteStatus,
    PageErase,
    SectorErase,
    ChipErase,
    ReleasePowerDown,
    DeepSleepPowerMode,
}

/// How much of the array one erase command clears.
#[derive(Clone, Copy, Debug, PartialEq, Eq, Structural)]
pub enum Erase {
    PageErase,
    SectorErase,
    ChipErase,
}

impl Instruction {
    /// The byte that selects this instruction on the wire.
    pub open spec fn code(self) -> u8 {
        match self {
            Instruction::Read => 0b0000_0011,
            Instruction::Write => 0b0000_0010,
            Instruction::WriteEnable => 0b0000_0110,
            Instruction::WriteDisable => 0b0000_0100,
            Instruction::ReadStatus => 0b0000_1010,
            Instruction::WriteStatus => 0b0000_1000,
            Instruction::PageErase => 0b0100_0010,
            Instruction::SectorErase => 0b1101_1000,
            Instruction::ChipErase => 0b1100_0111,
            Instruction::ReleasePowerDown => 0b1010_1011,
            Instruction::DeepSleepPowerMode => 0b1011_1001,
        }
    }

    /// The byte that selects this instruction on the wire.
    pub fn opcode(self) -> (r: u8)
        ensures
            r == self.code(),
    {
        match self {
            Instruction::Read => 0b0000_0011,
            Instruction::Write => 0b0000_0010,
            Instruction::WriteEnable => 0b0000_0110,
            Instruction::WriteDisable => 0b0000_0100,
            Instruction::ReadStatus => 0b0000_1010,
            Instruction::WriteStatus => 0b0000_1000,
            Instruction::PageErase => 0b0100_0010,
            Instruction::SectorErase => 0b1101_1000,
            Instruction::ChipErase => 0b1100_0111,
            Instruction::ReleasePowerDown => 0b1010_1011,
            Instruction::DeepSleepPowerMode => 0b1011_1001,
        }
    }
}

impl Erase {
    /// The instruction that performs an erase of this extent.
    pub open spec fn instruction(self) -> Instruction {
        match self {
            Erase::PageErase => Instruction::PageErase,
            Erase::SectorErase => Instruction::SectorErase,
            Erase::ChipErase => Instruction::ChipErase,
        }
    }

    /// The opcode of the instruction that performs an erase of this extent.
    pub fn opcode(self) -> (r: u8)
        ensures
            r == self.instruction().code(),
    {
        match self {
            Erase::PageErase => Instruction::PageErase.opcode(),
            Erase::SectorErase => Instruction::SectorErase.opcode(),
            Erase::ChipErase => Instruction::ChipErase.opcode(),
        }
    }
}

} // verus!
