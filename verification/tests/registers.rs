use eeprom25x::eeprom25x::{
    command, e25x_read_from_address_command, e25x_write_from_address_command, wire_bytes,
};
use eeprom25x::storage::chunk_len;
use eeprom25x::{Erase, Instruction, Model, Status, Variant, WriteProtection};

#[test]
fn opcodes_have_their_fixed_values() {
    assert_eq!(Instruction::Read.opcode(), 0x03);
    assert_eq!(Instruction::Write.opcode(), 0x02);
    assert_eq!(Instruction::WriteEnable.opcode(), 0x06);
    assert_eq!(Instruction::WriteDisable.opcode(), 0x04);
    assert_eq!(Instruction::ReadStatus.opcode(), 0x0a);
    assert_eq!(Instruction::WriteStatus.opcode(), 0x08);
    assert_eq!(Instruction::PageErase.opcode(), 0x42);
    assert_eq!(Instruction::SectorErase.opcode(), 0xd8);
    assert_eq!(Instruction::ChipErase.opcode(), 0xc7);
    assert_eq!(Instruction::ReleasePowerDown.opcode(), 0xab);
    assert_eq!(Instruction::DeepSleepPowerMode.opcode(), 0xb9);
}

#[test]
fn erase_extents_alias_their_instructions() {
    assert_eq!(Erase::PageErase.opcode(), Instruction::PageErase.opcode());
    assert_eq!(Erase::SectorErase.opcode(), Instruction::SectorErase.opcode());
    assert_eq!(Erase::ChipErase.opcode(), Instruction::ChipErase.opcode());
}

#[test]
fn read_command_puts_opcode_above_address() {
    assert_eq!(e25x_read_from_address_command(0x12_3456), 0x0312_3456);
    assert_eq!(e25x_read_from_address_command(0), 0x0300_0000);
    assert_eq!(e25x_read_from_address_command(0xff_ffff), 0x03ff_ffff);
}

#[test]
fn write_command_puts_opcode_above_address() {
    assert_eq!(e25x_write_from_address_command(0x12_3456), 0x0212_3456);
    assert_eq!(e25x_write_from_address_command(0), 0x0200_0000);
    assert_eq!(e25x_write_from_address_command(0xff_ffff), 0x02ff_ffff);
}

#[test]
fn command_replaces_the_top_byte_of_the_address() {
    assert_eq!(e25x_read_from_address_command(0xff12_3456), 0x0312_3456);
    assert_eq!(e25x_write_from_address_command(0x8000_0001), 0x0200_0001);
    assert_eq!(command(0xd8, 0x7f01_0203), 0xd801_0203);
}

#[test]
fn read_and_write_commands_differ_in_the_top_byte_only() {
    let mut address: u32 = 0;
    while address < 0x100_0000 {
        let read = e25x_read_from_address_command(address);
        let write = e25x_write_from_address_command(address);
        assert_eq!(read & 0x00ff_ffff, address);
        assert_eq!(write & 0x00ff_ffff, address);
        assert_eq!(read >> 24, 0x03);
        assert_eq!(write >> 24, 0x02);
        address += 0x1_0101;
    }
}

#[test]
fn wire_bytes_are_big_endian() {
    assert_eq!(wire_bytes(0x0312_3456), [0x03, 0x12, 0x34, 0x56]);
    assert_eq!(wire_bytes(0), [0, 0, 0, 0]);
    assert_eq!(wire_bytes(0xd8ff_00aa), [0xd8, 0xff, 0x00, 0xaa]);
}

#[test]
fn status_flags_are_read_from_their_bits() {
    let idle = Status { value: 0b0000_0000 };
    assert!(!idle.write_in_progress());
    assert!(!idle.write_latch_enabled());
    let busy = Status { value: 0b0000_0001 };
    assert!(busy.write_in_progress());
    assert!(!busy.write_latch_enabled());
    let latched = Status { value: 0b0000_0010 };
    assert!(!latched.write_in_progress());
    assert!(latched.write_latch_enabled());
    let mut enabled = Status { value: 0b1000_0000 };
    assert!(enabled.write_protection_enabled());
    assert_eq!(enabled.value, 0b1000_0000);
    let mut disabled = Status { value: 0b0111_1111 };
    assert!(!disabled.write_protection_enabled());
}

#[test]
fn protection_level_is_read_from_bits_two_and_three() {
    assert_eq!(Status { value: 0b0000_0000 }.write_protection_level(), WriteProtection::Off);
    assert_eq!(Status { value: 0b0000_0100 }.write_protection_level(), WriteProtection::Quarter);
    assert_eq!(Status { value: 0b0000_1000 }.write_protection_level(), WriteProtection::Half);
    assert_eq!(Status { value: 0b0000_1100 }.write_protection_level(), WriteProtection::All);
    assert_eq!(Status { value: 0b1111_0011 }.write_protection_level(), WriteProtection::Off);
    assert_eq!(Status { value: 0b1111_1011 }.write_protection_level(), WriteProtection::Half);
}

#[test]
fn protection_level_is_written_to_bits_two_and_three() {
    let mut status = Status { value: 0b1000_0011 };
    status.set_write_protection_level(WriteProtection::Half);
    assert_eq!(status.value, 0b1000_1011);
    status.set_write_protection_level(WriteProtection::All);
    assert_eq!(status.value, 0b1000_1111);
    status.set_write_protection_level(WriteProtection::Quarter);
    assert_eq!(status.value, 0b1000_0111);
    status.set_write_protection_level(WriteProtection::Off);
    assert_eq!(status.value, 0b1000_0011);
}

#[test]
fn protection_enable_is_written_to_bit_seven() {
    let mut status = Status { value: 0b0000_1101 };
    status.set_write_protection_enabled(true);
    assert_eq!(status.value, 0b1000_1101);
    status.set_write_protection_enabled(true);
    assert_eq!(status.value, 0b1000_1101);
    status.set_write_protection_enabled(false);
    assert_eq!(status.value, 0b0000_1101);
}

#[test]
fn status_round_trips_for_every_byte() {
    for value in 0..=255u8 {
        let mut status = Status { value };
        let level = status.write_protection_level();
        let enabled = status.write_protection_enabled();
        status.set_write_protection_level(level);
        status.set_write_protection_enabled(enabled);
        assert_eq!(status.value, value);
    }
}

#[test]
fn protection_level_set_is_the_level_read() {
    let levels = [
        WriteProtection::Off,
        WriteProtection::Quarter,
        WriteProtection::Half,
        WriteProtection::All,
    ];
    for value in 0..=255u8 {
        for level in levels {
            let mut status = Status { value };
            status.set_write_protection_level(level);
            assert_eq!(status.write_protection_level(), level);
            assert_eq!(status.value & 0b1111_0011, value & 0b1111_0011);
        }
    }
}

#[test]
fn protection_codes_are_two_bit_numbers() {
    assert_eq!(WriteProtection::Off.code(), 0);
    assert_eq!(WriteProtection::Quarter.code(), 1);
    assert_eq!(WriteProtection::Half.code(), 2);
    assert_eq!(WriteProtection::All.code(), 3);
}

#[test]
fn known_models_have_their_geometry() {
    let small = Variant::of(Model::Density8k);
    assert_eq!(small.capacity(), 8 * 1024);
    assert_eq!(small.page_size(), 16);
    assert!(!small.has_deep_sleep());
    assert!(!small.has_wide_identity());
    assert!(!small.has_status_protection());
    assert_eq!(Variant::of(Model::Density16k).capacity(), 16 * 1024);
    assert_eq!(Variant::of(Model::Density16k).page_size(), 16);
    assert_eq!(Variant::of(Model::Density32k).page_size(), 32);
    assert_eq!(Variant::of(Model::Density64k).capacity(), 64 * 1024);
    assert_eq!(Variant::of(Model::Density64k).page_size(), 32);
    assert_eq!(Variant::of(Model::Density128k).page_size(), 64);
    assert_eq!(Variant::of(Model::Density256k).capacity(), 256 * 1024);
    assert_eq!(Variant::of(Model::Density256k).page_size(), 64);
    let half = Variant::of(Model::Density512k);
    assert_eq!(half.capacity(), 512 * 1024);
    assert_eq!(half.page_size(), 128);
    assert!(half.has_deep_sleep());
    assert!(!half.has_wide_identity());
    let large = Variant::of(Model::Density1024k);
    assert_eq!(large.capacity(), 1024 * 1024);
    assert_eq!(large.page_size(), 256);
    assert!(large.has_deep_sleep());
    assert!(large.has_wide_identity());
}

#[test]
fn custom_variant_checks_page_size_and_capacity() {
    assert!(Variant::custom(4096, 16, false, false, false).is_some());
    assert!(Variant::custom(4096, 256, true, true, true).is_some());
    assert!(Variant::custom(0x100_0000, 64, false, false, false).is_some());
    assert!(Variant::custom(4096, 0, false, false, false).is_none());
    assert!(Variant::custom(4096, 8, false, false, false).is_none());
    assert!(Variant::custom(4096, 48, false, false, false).is_none());
    assert!(Variant::custom(4096, 512, false, false, false).is_none());
    assert!(Variant::custom(0x100_0001, 64, false, false, false).is_none());
    let variant = Variant::custom(100, 32, true, false, true).unwrap();
    assert_eq!(variant.capacity(), 100);
    assert_eq!(variant.page_size(), 32);
    assert!(variant.has_deep_sleep());
    assert!(!variant.has_wide_identity());
    assert!(variant.has_status_protection());
}

#[test]
fn chunk_ends_at_the_page_or_at_the_data() {
    assert_eq!(chunk_len(10, 20, 16), 6);
    assert_eq!(chunk_len(16, 14, 16), 14);
    assert_eq!(chunk_len(0, 16, 16), 16);
    assert_eq!(chunk_len(0, 17, 16), 16);
    assert_eq!(chunk_len(15, 100, 16), 1);
    assert_eq!(chunk_len(255, 2, 256), 1);
    assert_eq!(chunk_len(256, 1000, 256), 256);
    assert_eq!(chunk_len(5, 0, 16), 0);
}
