//! The device driver: every instruction of the device as one or more framed
//! transactions on the bus.
//!
//! Each method states which actions it asks of the hardware, in which order,
//! and what it returns for each way in which they can end. The actions are
//! those of the record that the handle's wiring keeps.

use crate::bits;
use crate::hardware::{
    framed, lemma_performs_then, lemma_since_split, level, performs, reply, since, Action,
    Channel, Halt, Line, Op, Signal, Wiring,
};
use crate::register::{Erase, Instruction};
use crate::status::{busy_of, with_enable, with_level, Status, WriteProtection};
use crate::variant::Variant;
use vstd::prelude::*;

verus! {

/// The identity byte of the devices that this driver knows.
pub const MANUFACTURER_ID: u8 = 0x29;

/// Why an operation of the driver failed.
#[derive(Debug)]
pub enum Error<SpiError, PinError> {
    /// The channel reported a failure.
    SpiError(SpiError),
    /// A control signal reported a failure.
    PinError(PinError),
    /// The device is busy with a write or erase cycle.
    BusyWriting,
    /// The device did not identify itself as expected.
    WrongId,
    /// The request reaches beyond the end of the device.
    TooMuchData,
    /// The device stayed busy for longer than the caller allowed.
    WriteTimeout,
}

/// How the hardware ended the actions behind `r`: to their end where `r` is a
/// success, with a fault where `r` carries one; nothing where `r` is an error
/// that the driver raised itself.
pub open spec fn halt_of<T, SpiError, PinError>(r: Result<T, Error<SpiError, PinError>>) -> Option<
    Halt,
> {
    match r {
        Ok(_) => Some(Halt::Completed),
        Err(Error::PinError(_)) => Some(Halt::LineFault),
        Err(Error::SpiError(_)) => Some(Halt::BusFault),
        Err(_) => None,
    }
}

/// The 32-bit command word of an instruction that carries an address: the
/// opcode in the top byte, the low 24 bits of the address below it.
pub open spec fn command_word(opcode: u8, address: u32) -> u32 {
    ((opcode as u32) << 24) | (address & 0x00ff_ffff)
}

/// The four bytes of `word`, most significant first.
pub open spec fn be_bytes(word: u32) -> Seq<u8> {
    seq![(word >> 24) as u8, (word >> 16) as u8, (word >> 8) as u8, word as u8]
}

/// The frame that reads the status register.
pub open spec fn status_frame() -> Seq<u8> {
    seq![Instruction::ReadStatus.code(), 0u8]
}

/// The frame that writes `value` to the status register.
pub open spec fn status_write_frame(value: u8) -> Seq<u8> {
    seq![Instruction::WriteStatus.code(), value]
}

/// The frame that wakes the device and asks for its identity.
pub open spec fn identity_frame(wide: bool) -> Seq<u8> {
    if wide {
        seq![Instruction::ReleasePowerDown.code(), 0u8, 0u8, 0u8, 0u8]
    } else {
        seq![Instruction::ReleasePowerDown.code(), 0u8, 0u8, 0u8]
    }
}

/// Where the identity byte stands in the answer to the identity frame.
pub open spec fn identity_at(wide: bool) -> int {
    if wide {
        4
    } else {
        3
    }
}

/// The actions of an addressed read into a buffer that holds `buffer`.
pub open spec fn read_script(address: u32, buffer: Seq<u8>) -> Seq<Action> {
    seq![
        Action::Level { line: Line::ChipSelect, high: false },
        Action::Write { sent: be_bytes(command_word(Instruction::Read.code(), address)) },
        Action::Transfer { sent: buffer },
        Action::Level { line: Line::ChipSelect, high: true },
    ]
}

/// The actions of an addressed write of `data`.
pub open spec fn write_script(address: u32, data: Seq<u8>) -> Seq<Action> {
    seq![
        Action::Level { line: Line::ChipSelect, high: false },
        Action::Write { sent: be_bytes(command_word(Instruction::Write.code(), address)) },
        Action::Write { sent: data },
        Action::Level { line: Line::ChipSelect, high: true },
    ]
}

/// The actions that unlock the status register, where `seen` is the status
/// byte that the device reports on the way.
pub open spec fn unlock_script(seen: u8) -> Seq<Action> {
    level(Line::WriteProtect, true) + framed(status_frame()) + framed(
        status_write_frame(with_enable(seen, false)),
    )
}

/// The actions that lock the status register, where `seen` is the status byte
/// that the device reports on the way.
pub open spec fn lock_script(seen: u8) -> Seq<Action> {
    level(Line::WriteProtect, true) + framed(status_frame()) + framed(
        status_write_frame(with_enable(seen, true)),
    ) + level(Line::WriteProtect, false)
}

/// The actions of an erase of the given extent at `address`.
pub open spec fn erase_script(address: u32, erase: Erase) -> Seq<Action> {
    framed(status_frame()) + framed(seq![Instruction::WriteEnable.code()]) + framed(
        be_bytes(command_word(erase.instruction().code(), address)),
    )
}

/// The actions that set the array protection level, where `before` is the
/// status byte read first, and `unlocking` and `locking` are the status bytes
/// that the device reports while the register is unlocked and locked again.
pub open spec fn protect_script(
    protection: WriteProtection,
    before: u8,
    unlocking: u8,
    locking: u8,
) -> Seq<Action> {
    framed(status_frame()) + framed(seq![Instruction::WriteEnable.code()]) + unlock_script(
        unlocking,
    ) + framed(seq![Instruction::WriteEnable.code()]) + framed(
        status_write_frame(with_level(before, protection)),
    ) + lock_script(locking)
}

/// The command word of an instruction that carries an address.
pub fn command(opcode: u8, address: u32) -> (r: u32)
    ensures
        r == command_word(opcode, address),
{
    let field = opcode as u32;
    proof {
        assert(0xffff_ffffu32 >> 24u32 == 0xff) by (bit_vector);
    }
    let r = bits::set_word_bits(address, 24, 32, field);
    proof {
        assert((address & !(((0xffff_ffffu32 >> 0u32) >> 24u32) << 24u32)) | (field << 24u32) == (
        field << 24) | (address & 0x00ff_ffff)) by (bit_vector);
    }
    r
}

/// The command word that starts a read at `address`.
pub fn e25x_read_from_address_command(address: u32) -> (r: u32)
    ensures
        r == command_word(Instruction::Read.code(), address),
{
    command(Instruction::Read.opcode(), address)
}

/// The command word that starts a write at `address`.
pub fn e25x_write_from_address_command(address: u32) -> (r: u32)
    ensures
        r == command_word(Instruction::Write.code(), address),
{
    command(Instruction::Write.opcode(), address)
}

/// The four bytes of `word` in the order in which they go over the wire.
pub fn wire_bytes(word: u32) -> (r: [u8; 4])
    ensures
        r@ == be_bytes(word),
{
    let r = [(word >> 24) as u8, (word >> 16) as u8, (word >> 8) as u8, word as u8];
    assert(r@ =~= be_bytes(word));
    r
}

/// A command word holds its opcode in the top byte and the low 24 bits of the
/// address below it. So for an address below 2^24 the read command and the
/// write command hold the address unchanged and differ in the top byte alone,
/// which is the opcode of each.
pub proof fn lemma_command_word(opcode: u8, address: u32)
    ensures
        command_word(opcode, address) >> 24 == opcode,
        command_word(opcode, address) & 0x00ff_ffff == address & 0x00ff_ffff,
        address < 0x100_0000 ==> command_word(opcode, address) & 0x00ff_ffff == address,
        be_bytes(command_word(opcode, address))[0] == opcode,
        address < 0x100_0000 ==> command_word(Instruction::Read.code(), address) ^ command_word(
            Instruction::Write.code(),
            address,
        ) == ((Instruction::Read.code() ^ Instruction::Write.code()) as u32) << 24,
{
    let o = opcode as u32;
    assert(o <= 0xff ==> ((o << 24) | (address & 0x00ff_ffff)) >> 24 == o) by (bit_vector);
    assert(o <= 0xff ==> ((o << 24) | (address & 0x00ff_ffff)) & 0x00ff_ffff == address
        & 0x00ff_ffff) by (bit_vector);
    assert(address < 0x100_0000 ==> address & 0x00ff_ffff == address) by (bit_vector);
    assert(((3u32 << 24) | (address & 0x00ff_ffff)) ^ ((2u32 << 24) | (address & 0x00ff_ffff)) == (
    ((3u8 ^ 2u8) as u32) << 24)) by (bit_vector);
}

/// The actions that bring the signals to their idle levels and ask the device
/// for its identity.
pub open spec fn wake_script(wide: bool) -> Seq<Action> {
    level(Line::ChipSelect, true) + level(Line::Hold, true) + level(Line::WriteProtect, true)
        + framed(identity_frame(wide))
}

/// The actions that lock the status register at start-up: the write latch is
/// set and the register unlocked, then the write latch is set again and the
/// register locked. `unlocking` and `locking` are the status bytes that the
/// device reports on the way.
pub open spec fn guard_script(unlocking: u8, locking: u8) -> Seq<Action> {
    framed(seq![Instruction::WriteEnable.code()]) + unlock_script(unlocking) + framed(
        seq![Instruction::WriteEnable.code()],
    ) + lock_script(locking)
}

/// The actions of a start-up that finds the expected identity: the wake-up,
/// the locking of the status register where the variant asks for it, the
/// return to deep sleep where the variant has it, and the hold signal low.
pub open spec fn init_script(variant: Variant, unlocking: u8, locking: u8) -> Seq<Action> {
    wake_script(variant.wide()) + (if variant.guards_status() {
        guard_script(unlocking, locking)
    } else {
        Seq::empty()
    }) + (if variant.sleeps() {
        framed(seq![Instruction::DeepSleepPowerMode.code()])
    } else {
        Seq::empty()
    }) + level(Line::Hold, false)
}

/// `ops` is the record of a start-up of a device of `variant` that ended as
/// `r` reports. A start-up ends with `WrongId` exactly where the wake-up was
/// carried out to its end and the identity byte received was not the expected
/// one: nothing is asked of the hardware after the identity frame. Otherwise
/// the actions of a full start-up were carried out up to the first failure,
/// `r` is a success where there was none and carries the fault where there
/// was one, and the identity byte, once received, was the expected one.
pub open spec fn start_up<T, SpiError, PinError>(
    ops: Seq<Op>,
    variant: Variant,
    r: Result<T, Error<SpiError, PinError>>,
) -> bool {
    match r {
        Err(Error::WrongId) => {
            &&& performs(ops, wake_script(variant.wide()), Halt::Completed)
            &&& reply(ops, 4, identity_at(variant.wide())) != MANUFACTURER_ID
        },
        _ => {
            &&& halt_of(r) matches Some(halt) && performs(
                ops,
                init_script(variant, reply(ops, 11, 1), reply(ops, 21, 1)),
                halt,
            )
            &&& ops.len() > 6 ==> reply(ops, 4, identity_at(variant.wide())) == MANUFACTURER_ID
        },
    }
}

/// A handle on one device: the channel, the three control signals, and the
/// variant of the device behind them.
pub struct Eeprom25x<SPI, CS, WP, HOLD> {
    wiring: Wiring<SPI, CS, WP, HOLD>,
    variant: Variant,
}

impl<SPI, CS, WP, HOLD> Eeprom25x<SPI, CS, WP, HOLD> {
    /// Everything that this handle has asked of the hardware, oldest first.
    pub closed spec fn trace(self) -> Seq<Op> {
        self.wiring.record()
    }

    /// The variant that this handle was made for.
    pub closed spec fn variant(self) -> Variant {
        self.variant
    }

    /// What this handle has asked of the hardware since it was `before`.
    pub open spec fn issued(self, before: Self) -> Seq<Op> {
        since(self.trace(), before.trace())
    }

    /// This handle is `before` at a later time: the same variant, and a record
    /// that has only grown.
    pub open spec fn follows(self, before: Self) -> bool {
        before.trace().is_prefix_of(self.trace()) && self.variant() == before.variant()
    }

    /// Since it was `before`, this handle has carried out `script` up to the
    /// first failure, and `r` reports how that ended.
    pub open spec fn ran<T, SpiError, PinError>(
        self,
        before: Self,
        script: Seq<Action>,
        r: Result<T, Error<SpiError, PinError>>,
    ) -> bool {
        &&& self.follows(before)
        &&& halt_of(r) matches Some(halt) && performs(self.issued(before), script, halt)
    }

    /// Two runs in a row, the first of them to its end, are one run of the two
    /// scripts in a row.
    pub proof fn lemma_next<T, U, SpiError, PinError>(
        self,
        middle: Self,
        start: Self,
        first: Seq<Action>,
        second: Seq<Action>,
        r1: Result<T, Error<SpiError, PinError>>,
        r2: Result<U, Error<SpiError, PinError>>,
    )
        requires
            middle.ran(start, first, r1),
            r1 is Ok,
            self.ran(middle, second, r2),
        ensures
            self.ran(start, first + second, r2),
            self.issued(start) == middle.issued(start) + self.issued(middle),
            middle.issued(start).len() == first.len(),
    {
        lemma_since_split(start.trace(), middle.trace(), self.trace());
        lemma_performs_then(
            middle.issued(start),
            first,
            self.issued(middle),
            second,
            halt_of(r2).unwrap(),
        );
    }

    /// A run that failed is a failed run of any script that starts in the same
    /// way.
    pub proof fn lemma_stop_within<T, U, SpiError, PinError>(
        self,
        start: Self,
        done: Seq<Action>,
        whole: Seq<Action>,
        r1: Result<T, Error<SpiError, PinError>>,
        r2: Result<U, Error<SpiError, PinError>>,
    )
        requires
            self.ran(start, done, r1),
            r1 is Err,
            halt_of(r2) == halt_of(r1),
            done.len() <= whole.len(),
            forall|i: int| 0 <= i < done.len() ==> done[i] == whole[i],
        ensures
            self.ran(start, whole, r2),
    {
    }
}

impl<SPI, CS, WP, HOLD, SpiError, PinError> Eeprom25x<SPI, CS, WP, HOLD> where
    SPI: Channel<Error = SpiError>,
    CS: Signal<Error = PinError>,
    WP: Signal<Error = PinError>,
    HOLD: Signal<Error = PinError>,
 {
    /// Drives one control signal.
    fn drive(&mut self, line: Line, high: bool) -> (r: Result<(), Error<SpiError, PinError>>)
        ensures
            final(self).ran(*old(self), level(line, high), r),
    {
        let outcome = self.wiring.drive(line, high);
        proof {
            let op = Op {
                action: Action::Level { line, high },
                ok: outcome is Ok,
                received: Seq::empty(),
            };
            assert(since(self.trace(), old(self).trace()) =~= seq![op]);
        }
        match outcome {
            Ok(()) => Ok(()),
            Err(e) => Err(Error::PinError(e)),
        }
    }

    /// Exchanges `words` over the channel.
    fn exchange(&mut self, words: &mut [u8]) -> (r: Result<(), Error<SpiError, PinError>>)
        ensures
            final(self).ran(*old(self), seq![Action::Transfer { sent: old(words)@ }], r),
            final(self).issued(*old(self)).len() == 1,
            final(self).issued(*old(self))[0].received == final(words)@,
    {
        let ghost sent = words@;
        let outcome = self.wiring.exchange(words);
        proof {
            let op = Op {
                action: Action::Transfer { sent },
                ok: outcome is Ok,
                received: words@,
            };
            assert(since(self.trace(), old(self).trace()) =~= seq![op]);
        }
        match outcome {
            Ok(()) => Ok(()),
            Err(e) => Err(Error::SpiError(e)),
        }
    }

    /// Sends `words` over the channel.
    fn send(&mut self, words: &[u8]) -> (r: Result<(), Error<SpiError, PinError>>)
        ensures
            final(self).ran(*old(self), seq![Action::Write { sent: words@ }], r),
    {
        let outcome = self.wiring.send(words);
        proof {
            let op = Op {
                action: Action::Write { sent: words@ },
                ok: outcome is Ok,
                received: Seq::empty(),
            };
            assert(since(self.trace(), old(self).trace()) =~= seq![op]);
        }
        match outcome {
            Ok(()) => Ok(()),
            Err(e) => Err(Error::SpiError(e)),
        }
    }

    /// One framed transaction: chip-select low, `bytes` exchanged for what the
    /// device sends meanwhile, chip-select high. After a success `bytes` holds
    /// what was received.
    pub fn transfer(&mut self, bytes: &mut [u8]) -> (r: Result<(), Error<SpiError, PinError>>)
        ensures
            final(self).ran(*old(self), framed(old(bytes)@), r),
            r is Ok ==> final(bytes)@ == final(self).issued(*old(self))[1].received,
    {
        let ghost start = *self;
        let ghost frame = bytes@;
        let ghost low = level(Line::ChipSelect, false);
        let ghost swap = seq![Action::Transfer { sent: frame }];
        let ghost high = level(Line::ChipSelect, true);
        assert(low + swap + high =~= framed(frame));
        let r1 = self.drive(Line::ChipSelect, false);
        let ghost s1 = *self;
        if let Err(e) = r1 {
            proof {
                s1.lemma_stop_within(start, low, low + swap + high, r1, r1);
            }
            return Err(e);
        }
        let r2 = self.exchange(bytes);
        let ghost s2 = *self;
        proof {
            s2.lemma_next(s1, start, low, swap, r1, r2);
        }
        if let Err(e) = r2 {
            proof {
                s2.lemma_stop_within(start, low + swap, low + swap + high, r2, r2);
            }
            return Err(e);
        }
        let r3 = self.drive(Line::ChipSelect, true);
        proof {
            self.lemma_next(s2, start, low + swap, high, r2, r3);
        }
        r3
    }

    /// Sets the write latch. The device accepts a write, an erase or a status
    /// write only right after this.
    pub fn write_enable(&mut self) -> (r: Result<(), Error<SpiError, PinError>>)
        ensures
            final(self).ran(*old(self), framed(seq![Instruction::WriteEnable.code()]), r),
    {
        let mut buf = [Instruction::WriteEnable.opcode()];
        assert(buf@ =~= seq![Instruction::WriteEnable.code()]);
        self.transfer(&mut buf)
    }

    /// Clears the write latch.
    pub fn write_disable(&mut self) -> (r: Result<(), Error<SpiError, PinError>>)
        ensures
            final(self).ran(*old(self), framed(seq![Instruction::WriteDisable.code()]), r),
    {
        let mut buf = [Instruction::WriteDisable.opcode()];
        assert(buf@ =~= seq![Instruction::WriteDisable.code()]);
        self.transfer(&mut buf)
    }

    /// Puts the device into deep sleep.
    pub fn deep_sleep(&mut self) -> (r: Result<(), Error<SpiError, PinError>>)
        ensures
            final(self).ran(*old(self), framed(seq![Instruction::DeepSleepPowerMode.code()]), r),
    {
        let mut buf = [Instruction::DeepSleepPowerMode.opcode()];
        assert(buf@ =~= seq![Instruction::DeepSleepPowerMode.code()]);
        self.transfer(&mut buf)
    }

    /// Drives the hold signal: high where `enabled`, low where not.
    pub fn hold_transfer(&mut self, enabled: bool) -> (r: Result<(), Error<SpiError, PinError>>)
        ensures
            final(self).ran(*old(self), level(Line::Hold, enabled), r),
    {
        if enabled {
            self.drive(Line::Hold, true)
        } else {
            self.drive(Line::Hold, false)
        }
    }

    /// Reads the status register: the second byte that the device sends in
    /// answer to the status frame.
    pub fn status_read(&mut self) -> (r: Result<u8, Error<SpiError, PinError>>)
        ensures
            final(self).ran(*old(self), framed(status_frame()), r),
            r matches Ok(value) ==> value == reply(final(self).issued(*old(self)), 1, 1),
    {
        let mut buf = [Instruction::ReadStatus.opcode(), 0];
        assert(buf@ =~= status_frame());
        match self.transfer(&mut buf) {
            Ok(()) => Ok(buf[1]),
            Err(e) => Err(e),
        }
    }

    /// Reads the status register.
    pub fn status(&mut self) -> (r: Result<Status, Error<SpiError, PinError>>)
        ensures
            final(self).ran(*old(self), framed(status_frame()), r),
            r matches Ok(status) ==> status.value == reply(final(self).issued(*old(self)), 1, 1),
    {
        let mut buf = [Instruction::ReadStatus.opcode(), 0];
        assert(buf@ =~= status_frame());
        match self.transfer(&mut buf) {
            Ok(()) => Ok(Status { value: buf[1] }),
            Err(e) => Err(e),
        }
    }

    /// Reads the status register and refuses where the device is busy: the
    /// status is returned exactly where its busy flag is clear.
    pub fn error_on_writing(&mut self) -> (r: Result<Status, Error<SpiError, PinError>>)
        ensures
            final(self).follows(*old(self)),
            match r {
                Ok(status) => {
                    &&& performs(
                        final(self).issued(*old(self)),
                        framed(status_frame()),
                        Halt::Completed,
                    )
                    &&& status.value == reply(final(self).issued(*old(self)), 1, 1)
                    &&& !busy_of(status.value)
                },
                Err(Error::BusyWriting) => {
                    &&& performs(
                        final(self).issued(*old(self)),
                        framed(status_frame()),
                        Halt::Completed,
                    )
                    &&& busy_of(reply(final(self).issued(*old(self)), 1, 1))
                },
                Err(Error::PinError(_)) => performs(
                    final(self).issued(*old(self)),
                    framed(status_frame()),
                    Halt::LineFault,
                ),
                Err(Error::SpiError(_)) => performs(
                    final(self).issued(*old(self)),
                    framed(status_frame()),
                    Halt::BusFault,
                ),
                Err(_) => false,
            },
    {
        match self.status() {
            Ok(status) => {
                if status.write_in_progress() {
                    Err(Error::BusyWriting)
                } else {
                    Ok(status)
                }
            },
            Err(e) => Err(e),
        }
    }

    /// Wakes the device from deep sleep and returns the identity byte, which
    /// is the last byte that the device sends in answer to the identity frame.
    pub fn release_from_deep_sleep_and_get_manufacturer_id(&mut self) -> (r: Result<
        u8,
        Error<SpiError, PinError>,
    >)
        ensures
            final(self).ran(*old(self), framed(identity_frame(old(self).variant().wide())), r),
            r matches Ok(id) ==> id == reply(
                final(self).issued(*old(self)),
                1,
                identity_at(old(self).variant().wide()),
            ),
    {
        if self.variant.has_wide_identity() {
            let mut buf = [Instruction::ReleasePowerDown.opcode(), 0, 0, 0, 0];
            assert(buf@ =~= identity_frame(true));
            match self.transfer(&mut buf) {
                Ok(()) => Ok(buf[4]),
                Err(e) => Err(e),
            }
        } else {
            let mut buf = [Instruction::ReleasePowerDown.opcode(), 0, 0, 0];
            assert(buf@ =~= identity_frame(false));
            match self.transfer(&mut buf) {
                Ok(()) => Ok(buf[3]),
                Err(e) => Err(e),
            }
        }
    }

    /// Unlocks the status register: with the write-protect signal high, the
    /// status is read and written back with its protection enable flag
    /// cleared.
    pub fn enable_write_to_status(&mut self) -> (r: Result<(), Error<SpiError, PinError>>)
        ensures
            final(self).ran(
                *old(self),
                unlock_script(reply(final(self).issued(*old(self)), 2, 1)),
                r,
            ),
    {
        let ghost start = *self;
        let ghost a = level(Line::WriteProtect, true);
        let ghost b = framed(status_frame());
        let r1 = self.drive(Line::WriteProtect, true);
        let ghost s1 = *self;
        if let Err(e) = r1 {
            proof {
                s1.lemma_stop_within(
                    start,
                    a,
                    unlock_script(reply(s1.issued(start), 2, 1)),
                    r1,
                    r1,
                );
            }
            return Err(e);
        }
        let r2 = self.status();
        let ghost s2 = *self;
        proof {
            s2.lemma_next(s1, start, a, b, r1, r2);
        }
        let mut status = match r2 {
            Ok(status) => status,
            Err(e) => {
                proof {
                    s2.lemma_stop_within(
                        start,
                        a + b,
                        unlock_script(reply(s2.issued(start), 2, 1)),
                        r2,
                        r2,
                    );
                }
                return Err(e);
            },
        };
        status.set_write_protection_enabled(false);
        let mut buf = [Instruction::WriteStatus.opcode(), status.value];
        assert(buf@ =~= status_write_frame(status.value));
        let r3 = self.transfer(&mut buf);
        proof {
            let c = framed(status_write_frame(status.value));
            self.lemma_next(s2, start, a + b, c, r2, r3);
            assert(reply(self.issued(start), 2, 1) == reply(s2.issued(s1), 1, 1));
        }
        r3
    }

    /// Locks the status register: with the write-protect signal high, the
    /// status is read and written back with its protection enable flag set;
    /// then the write-protect signal goes low.
    pub fn disable_write_to_status(&mut self) -> (r: Result<(), Error<SpiError, PinError>>)
        ensures
            final(self).ran(
                *old(self),
                lock_script(reply(final(self).issued(*old(self)), 2, 1)),
                r,
            ),
    {
        let ghost start = *self;
        let ghost a = level(Line::WriteProtect, true);
        let ghost b = framed(status_frame());
        let ghost d = level(Line::WriteProtect, false);
        let r1 = self.drive(Line::WriteProtect, true);
        let ghost s1 = *self;
        if let Err(e) = r1 {
            proof {
                s1.lemma_stop_within(
                    start,
                    a,
                    lock_script(reply(s1.issued(start), 2, 1)),
                    r1,
                    r1,
                );
            }
            return Err(e);
        }
        let r2 = self.status();
        let ghost s2 = *self;
        proof {
            s2.lemma_next(s1, start, a, b, r1, r2);
        }
        let mut status = match r2 {
            Ok(status) => status,
            Err(e) => {
                proof {
                    s2.lemma_stop_within(
                        start,
                        a + b,
                        lock_script(reply(s2.issued(start), 2, 1)),
                        r2,
                        r2,
                    );
                }
                return Err(e);
            },
        };
        status.set_write_protection_enabled(true);
        let mut buf = [Instruction::WriteStatus.opcode(), status.value];
        assert(buf@ =~= status_write_frame(status.value));
        let ghost c = framed(status_write_frame(status.value));
        let r3 = self.transfer(&mut buf);
        let ghost s3 = *self;
        proof {
            s3.lemma_next(s2, start, a + b, c, r2, r3);
            assert(reply(s3.issued(start), 2, 1) == reply(s2.issued(s1), 1, 1));
        }
        if let Err(e) = r3 {
            proof {
                s3.lemma_stop_within(
                    start,
                    a + b + c,
                    lock_script(reply(s3.issued(start), 2, 1)),
                    r3,
                    r3,
                );
            }
            return Err(e);
        }
        let r4 = self.drive(Line::WriteProtect, false);
        proof {
            self.lemma_next(s3, start, a + b + c, d, r3, r4);
            assert(reply(self.issued(start), 2, 1) == reply(s3.issued(start), 2, 1));
        }
        r4
    }

    /// An addressed read: inside one chip-select window the read command is
    /// sent and `bytes` is exchanged for what the device holds from `address`
    /// on. After a success `bytes` holds what was received.
    pub fn read(&mut self, address: u32, bytes: &mut [u8]) -> (r: Result<
        (),
        Error<SpiError, PinError>,
    >)
        ensures
            final(self).ran(*old(self), read_script(address, old(bytes)@), r),
            r is Ok ==> final(bytes)@ == final(self).issued(*old(self))[2].received,
    {
        let ghost start = *self;
        let ghost whole = read_script(address, bytes@);
        let ghost a = level(Line::ChipSelect, false);
        let ghost b = seq![
            Action::Write { sent: be_bytes(command_word(Instruction::Read.code(), address)) },
        ];
        let ghost c = seq![Action::Transfer { sent: bytes@ }];
        let ghost d = level(Line::ChipSelect, true);
        assert(a + b + c + d =~= whole);
        let header = wire_bytes(e25x_read_from_address_command(address));
        let r1 = self.drive(Line::ChipSelect, false);
        let ghost s1 = *self;
        if let Err(e) = r1 {
            proof {
                s1.lemma_stop_within(start, a, whole, r1, r1);
            }
            return Err(e);
        }
        let r2 = self.send(&header);
        let ghost s2 = *self;
        proof {
            s2.lemma_next(s1, start, a, b, r1, r2);
        }
        if let Err(e) = r2 {
            proof {
                s2.lemma_stop_within(start, a + b, whole, r2, r2);
            }
            return Err(e);
        }
        let r3 = self.exchange(bytes);
        let ghost s3 = *self;
        proof {
            s3.lemma_next(s2, start, a + b, c, r2, r3);
        }
        if let Err(e) = r3 {
            proof {
                s3.lemma_stop_within(start, a + b + c, whole, r3, r3);
            }
            return Err(e);
        }
        let r4 = self.drive(Line::ChipSelect, true);
        proof {
            self.lemma_next(s3, start, a + b + c, d, r3, r4);
        }
        r4
    }

    /// An addressed write: inside one chip-select window the write command is
    /// sent, then `bytes`. Nothing here keeps `bytes` inside one page.
    pub fn write(&mut self, address: u32, bytes: &[u8]) -> (r: Result<
        (),
        Error<SpiError, PinError>,
    >)
        ensures
            final(self).ran(*old(self), write_script(address, bytes@), r),
    {
        let ghost start = *self;
        let ghost whole = write_script(address, bytes@);
        let ghost a = level(Line::ChipSelect, false);
        let ghost b = seq![
            Action::Write { sent: be_bytes(command_word(Instruction::Write.code(), address)) },
        ];
        let ghost c = seq![Action::Write { sent: bytes@ }];
        let ghost d = level(Line::ChipSelect, true);
        assert(a + b + c + d =~= whole);
        let header = wire_bytes(e25x_write_from_address_command(address));
        let r1 = self.drive(Line::ChipSelect, false);
        let ghost s1 = *self;
        if let Err(e) = r1 {
            proof {
                s1.lemma_stop_within(start, a, whole, r1, r1);
            }
            return Err(e);
        }
        let r2 = self.send(&header);
        let ghost s2 = *self;
        proof {
            s2.lemma_next(s1, start, a, b, r1, r2);
        }
        if let Err(e) = r2 {
            proof {
                s2.lemma_stop_within(start, a + b, whole, r2, r2);
            }
            return Err(e);
        }
        let r3 = self.send(bytes);
        let ghost s3 = *self;
        proof {
            s3.lemma_next(s2, start, a + b, c, r2, r3);
        }
        if let Err(e) = r3 {
            proof {
                s3.lemma_stop_within(start, a + b + c, whole, r3, r3);
            }
            return Err(e);
        }
        let r4 = self.drive(Line::ChipSelect, true);
        proof {
            self.lemma_next(s3, start, a + b + c, d, r3, r4);
        }
        r4
    }

    /// Erases a page, a sector or the whole array. The status is read first:
    /// where it shows the device busy, the erase is refused and nothing more
    /// is sent. Otherwise the write latch is set and the erase command is
    /// sent, which is `address` with its top byte replaced by the opcode.
    pub fn erase(&mut self, address: u32, erase: Erase) -> (r: Result<
        (),
        Error<SpiError, PinError>,
    >)
        ensures
            final(self).follows(*old(self)),
            match r {
                Err(Error::BusyWriting) => {
                    &&& performs(
                        final(self).issued(*old(self)),
                        framed(status_frame()),
                        Halt::Completed,
                    )
                    &&& busy_of(reply(final(self).issued(*old(self)), 1, 1))
                },
                _ => {
                    &&& final(self).ran(*old(self), erase_script(address, erase), r)
                    &&& final(self).issued(*old(self)).len() > 3 ==> !busy_of(
                        reply(final(self).issued(*old(self)), 1, 1),
                    )
                },
            },
    {
        let ghost start = *self;
        let ghost whole = erase_script(address, erase);
        let ghost a = framed(status_frame());
        let ghost b = framed(seq![Instruction::WriteEnable.code()]);
        let ghost c = framed(be_bytes(command_word(erase.instruction().code(), address)));
        let r1 = self.error_on_writing();
        let ghost s1 = *self;
        match r1 {
            Ok(_) => {},
            Err(Error::BusyWriting) => {
                return Err(Error::BusyWriting);
            },
            Err(e) => {
                proof {
                    s1.lemma_stop_within(start, a, whole, r1, r1);
                }
                return Err(e);
            },
        }
        let r2 = self.write_enable();
        let ghost s2 = *self;
        proof {
            s2.lemma_next(s1, start, a, b, r1, r2);
            assert(reply(s2.issued(start), 1, 1) == reply(s1.issued(start), 1, 1));
        }
        if let Err(e) = r2 {
            proof {
                s2.lemma_stop_within(start, a + b, whole, r2, r2);
            }
            return Err(e);
        }
        let mut buf = wire_bytes(command(erase.opcode(), address));
        let r3 = self.transfer(&mut buf);
        proof {
            self.lemma_next(s2, start, a + b, c, r2, r3);
            assert(reply(self.issued(start), 1, 1) == reply(s2.issued(start), 1, 1));
        }
        r3
    }

    /// Sets the array protection level. The status is read and the level
    /// replaced in it; then the write latch is set, the status register
    /// unlocked, the write latch set again, the new status written, and the
    /// status register locked again.
    pub fn set_array_write_protection(&mut self, level: WriteProtection) -> (r: Result<
        (),
        Error<SpiError, PinError>,
    >)
        ensures
            final(self).ran(
                *old(self),
                protect_script(
                    level,
                    reply(final(self).issued(*old(self)), 1, 1),
                    reply(final(self).issued(*old(self)), 8, 1),
                    reply(final(self).issued(*old(self)), 21, 1),
                ),
                r,
            ),
    {
        let ghost start = *self;
        let ghost a = framed(status_frame());
        let ghost b = framed(seq![Instruction::WriteEnable.code()]);
        let r1 = self.status();
        let ghost s1 = *self;
        let mut status = match r1 {
            Ok(status) => status,
            Err(e) => {
                proof {
                    let t = s1.issued(start);
                    let whole = protect_script(level, reply(t, 1, 1), reply(t, 8, 1), reply(t, 21, 1));
                    s1.lemma_stop_within(start, a, whole, r1, r1);
                }
                return Err(e);
            },
        };
        let ghost seen = status.value;
        status.set_write_protection_level(level);
        let r2 = self.write_enable();
        let ghost s2 = *self;
        proof {
            s2.lemma_next(s1, start, a, b, r1, r2);
        }
        if let Err(e) = r2 {
            proof {
                let t = s2.issued(start);
                let whole = protect_script(level, reply(t, 1, 1), reply(t, 8, 1), reply(t, 21, 1));
                s2.lemma_stop_within(start, a + b, whole, r2, r2);
            }
            return Err(e);
        }
        let r3 = self.enable_write_to_status();
        let ghost s3 = *self;
        let ghost c = unlock_script(reply(s3.issued(s2), 2, 1));
        proof {
            s3.lemma_next(s2, start, a + b, c, r2, r3);
            assert(reply(s3.issued(start), 8, 1) == reply(s3.issued(s2), 2, 1));
        }
        if let Err(e) = r3 {
            proof {
                let t = s3.issued(start);
                let whole = protect_script(level, reply(t, 1, 1), reply(t, 8, 1), reply(t, 21, 1));
                s3.lemma_stop_within(start, a + b + c, whole, r3, r3);
            }
            return Err(e);
        }
        let r4 = self.write_enable();
        let ghost s4 = *self;
        proof {
            s4.lemma_next(s3, start, a + b + c, b, r3, r4);
            assert(reply(s4.issued(start), 8, 1) == reply(s3.issued(start), 8, 1));
        }
        if let Err(e) = r4 {
            proof {
                let t = s4.issued(start);
                let whole = protect_script(level, reply(t, 1, 1), reply(t, 8, 1), reply(t, 21, 1));
                s4.lemma_stop_within(start, a + b + c + b, whole, r4, r4);
            }
            return Err(e);
        }
        let mut buf = [Instruction::WriteStatus.opcode(), status.value];
        assert(buf@ =~= status_write_frame(with_level(seen, level)));
        let ghost d = framed(status_write_frame(with_level(seen, level)));
        let r5 = self.transfer(&mut buf);
        let ghost s5 = *self;
        proof {
            s5.lemma_next(s4, start, a + b + c + b, d, r4, r5);
            assert(reply(s5.issued(start), 8, 1) == reply(s3.issued(start), 8, 1));
            assert(reply(s5.issued(start), 1, 1) == seen);
        }
        if let Err(e) = r5 {
            proof {
                let t = s5.issued(start);
                let whole = protect_script(level, reply(t, 1, 1), reply(t, 8, 1), reply(t, 21, 1));
                s5.lemma_stop_within(start, a + b + c + b + d, whole, r5, r5);
            }
            return Err(e);
        }
        let r6 = self.disable_write_to_status();
        proof {
            let f = lock_script(reply(self.issued(s5), 2, 1));
            self.lemma_next(s5, start, a + b + c + b + d, f, r5, r6);
            assert(reply(self.issued(start), 21, 1) == reply(self.issued(s5), 2, 1));
            assert(reply(self.issued(start), 8, 1) == reply(s3.issued(start), 8, 1));
            assert(reply(self.issued(start), 1, 1) == seen);
        }
        r6
    }

    /// Brings the signals to their idle levels, wakes the device and returns
    /// its identity byte.
    fn wake(&mut self) -> (r: Result<u8, Error<SpiError, PinError>>)
        ensures
            final(self).ran(*old(self), wake_script(old(self).variant().wide()), r),
            r matches Ok(id) ==> id == reply(
                final(self).issued(*old(self)),
                4,
                identity_at(old(self).variant().wide()),
            ),
    {
        let ghost start = *self;
        let ghost whole = wake_script(self.variant().wide());
        let ghost a = level(Line::ChipSelect, true);
        let ghost b = level(Line::Hold, true);
        let ghost c = level(Line::WriteProtect, true);
        let ghost d = framed(identity_frame(self.variant().wide()));
        let r1 = self.drive(Line::ChipSelect, true);
        let ghost s1 = *self;
        if let Err(e) = r1 {
            proof {
                s1.lemma_stop_within(start, a, whole, r1, r1);
            }
            return Err(e);
        }
        let r2 = self.drive(Line::Hold, true);
        let ghost s2 = *self;
        proof {
            s2.lemma_next(s1, start, a, b, r1, r2);
        }
        if let Err(e) = r2 {
            proof {
                s2.lemma_stop_within(start, a + b, whole, r2, r2);
            }
            return Err(e);
        }
        let r3 = self.drive(Line::WriteProtect, true);
        let ghost s3 = *self;
        proof {
            s3.lemma_next(s2, start, a + b, c, r2, r3);
        }
        if let Err(e) = r3 {
            proof {
                s3.lemma_stop_within(start, a + b + c, whole, r3, r3);
            }
            return Err(e);
        }
        let r4 = self.release_from_deep_sleep_and_get_manufacturer_id();
        proof {
            self.lemma_next(s3, start, a + b + c, d, r3, r4);
            assert(forall|j: int| reply(self.issued(start), 4, j) == reply(self.issued(s3), 1, j));
        }
        r4
    }

    /// Locks the status register as a start-up does.
    fn guard_status(&mut self) -> (r: Result<(), Error<SpiError, PinError>>)
        ensures
            final(self).ran(
                *old(self),
                guard_script(
                    reply(final(self).issued(*old(self)), 5, 1),
                    reply(final(self).issued(*old(self)), 15, 1),
                ),
                r,
            ),
    {
        let ghost start = *self;
        let ghost a = framed(seq![Instruction::WriteEnable.code()]);
        let r1 = self.write_enable();
        let ghost s1 = *self;
        if let Err(e) = r1 {
            proof {
                let t = s1.issued(start);
                s1.lemma_stop_within(start, a, guard_script(reply(t, 5, 1), reply(t, 15, 1)), r1, r1);
            }
            return Err(e);
        }
        let r2 = self.enable_write_to_status();
        let ghost s2 = *self;
        let ghost b = unlock_script(reply(s2.issued(s1), 2, 1));
        proof {
            s2.lemma_next(s1, start, a, b, r1, r2);
            assert(reply(s2.issued(start), 5, 1) == reply(s2.issued(s1), 2, 1));
        }
        if let Err(e) = r2 {
            proof {
                let t = s2.issued(start);
                s2.lemma_stop_within(
                    start,
                    a + b,
                    guard_script(reply(t, 5, 1), reply(t, 15, 1)),
                    r2,
                    r2,
                );
            }
            return Err(e);
        }
        let r3 = self.write_enable();
        let ghost s3 = *self;
        proof {
            s3.lemma_next(s2, start, a + b, a, r2, r3);
            assert(reply(s3.issued(start), 5, 1) == reply(s2.issued(start), 5, 1));
        }
        if let Err(e) = r3 {
            proof {
                let t = s3.issued(start);
                s3.lemma_stop_within(
                    start,
                    a + b + a,
                    guard_script(reply(t, 5, 1), reply(t, 15, 1)),
                    r3,
                    r3,
                );
            }
            return Err(e);
        }
        let r4 = self.disable_write_to_status();
        proof {
            let c = lock_script(reply(self.issued(s3), 2, 1));
            self.lemma_next(s3, start, a + b + a, c, r3, r4);
            assert(reply(self.issued(start), 5, 1) == reply(s2.issued(start), 5, 1));
            assert(reply(self.issued(start), 15, 1) == reply(self.issued(s3), 2, 1));
        }
        r4
    }

    /// Starts the device up. The signals go to their idle levels and the
    /// device is asked for its identity. Where the identity is not the
    /// expected one the start-up ends there with `WrongId`. Otherwise the
    /// status register is locked where the variant asks for it, the device
    /// goes back to deep sleep where the variant has it, and the hold signal
    /// goes low.
    pub fn initialize(&mut self) -> (r: Result<(), Error<SpiError, PinError>>)
        ensures
            final(self).follows(*old(self)),
            match r {
                Err(Error::WrongId) => {
                    &&& performs(
                        final(self).issued(*old(self)),
                        wake_script(old(self).variant().wide()),
                        Halt::Completed,
                    )
                    &&& reply(
                        final(self).issued(*old(self)),
                        4,
                        identity_at(old(self).variant().wide()),
                    ) != MANUFACTURER_ID
                },
                _ => {
                    &&& final(self).ran(
                        *old(self),
                        init_script(
                            old(self).variant(),
                            reply(final(self).issued(*old(self)), 11, 1),
                            reply(final(self).issued(*old(self)), 21, 1),
                        ),
                        r,
                    )
                    &&& final(self).issued(*old(self)).len() > 6 ==> reply(
                        final(self).issued(*old(self)),
                        4,
                        identity_at(old(self).variant().wide()),
                    ) == MANUFACTURER_ID
                },
            },
    {
        let ghost start = *self;
        let ghost variant = self.variant();
        let ghost at = identity_at(variant.wide());
        let ghost ok: Result<(), Error<SpiError, PinError>> = Ok(());
        let ghost a = wake_script(variant.wide());
        let r1 = self.wake();
        let ghost s1 = *self;
        let id = match r1 {
            Ok(id) => id,
            Err(e) => {
                proof {
                    let t = s1.issued(start);
                    s1.lemma_stop_within(
                        start,
                        a,
                        init_script(variant, reply(t, 11, 1), reply(t, 21, 1)),
                        r1,
                        r1,
                    );
                }
                return Err(e);
            },
        };
        if id != MANUFACTURER_ID {
            return Err(Error::WrongId);
        }
        let ghost b = if variant.guards_status() {
            guard_script(reply(self.issued(s1), 5, 1), reply(self.issued(s1), 15, 1))
        } else {
            Seq::empty()
        };
        if self.variant.has_status_protection() {
            let r2 = self.guard_status();
            proof {
                b = guard_script(reply(self.issued(s1), 5, 1), reply(self.issued(s1), 15, 1));
                self.lemma_next(s1, start, a, b, r1, r2);
                assert(reply(self.issued(start), 11, 1) == reply(self.issued(s1), 5, 1));
                assert(reply(self.issued(start), 21, 1) == reply(self.issued(s1), 15, 1));
                assert(reply(self.issued(start), 4, at) == id);
            }
            if let Err(e) = r2 {
                proof {
                    let t = self.issued(start);
                    self.lemma_stop_within(
                        start,
                        a + b,
                        init_script(variant, reply(t, 11, 1), reply(t, 21, 1)),
                        r2,
                        r2,
                    );
                }
                return Err(e);
            }
        } else {
            proof {
                b = Seq::empty();
                assert(a + b =~= a);
            }
        }
        let ghost s2 = *self;
        let ghost unlocking = reply(s2.issued(start), 11, 1);
        let ghost locking = reply(s2.issued(start), 21, 1);
        assert(s2.ran(start, a + b, ok));
        assert(reply(s2.issued(start), 4, at) == id);
        let ghost c = if variant.sleeps() {
            framed(seq![Instruction::DeepSleepPowerMode.code()])
        } else {
            Seq::empty()
        };
        if self.variant.has_deep_sleep() {
            let r3 = self.deep_sleep();
            proof {
                self.lemma_next(s2, start, a + b, c, ok, r3);
                assert(reply(self.issued(start), 4, at) == id);
                if variant.guards_status() {
                    assert(reply(self.issued(start), 11, 1) == unlocking);
                    assert(reply(self.issued(start), 21, 1) == locking);
                }
            }
            if let Err(e) = r3 {
                proof {
                    let t = self.issued(start);
                    self.lemma_stop_within(
                        start,
                        a + b + c,
                        init_script(variant, reply(t, 11, 1), reply(t, 21, 1)),
                        r3,
                        r3,
                    );
                }
                return Err(e);
            }
        } else {
            proof {
                assert(a + b + c =~= a + b);
            }
        }
        let ghost s3 = *self;
        assert(s3.ran(start, a + b + c, ok));
        let r4 = self.hold_transfer(false);
        proof {
            self.lemma_next(s3, start, a + b + c, level(Line::Hold, false), ok, r4);
            assert(reply(self.issued(start), 4, at) == id);
            if variant.guards_status() {
                assert(reply(self.issued(start), 11, 1) == unlocking);
                assert(reply(self.issued(start), 21, 1) == locking);
            }
        }
        r4
    }

    /// Takes hold of the channel and the three signals and starts the device
    /// up, as `initialize` does on a handle whose record is empty. A handle
    /// is returned exactly where the start-up found the expected identity and
    /// was carried out to its end; its record is then that of the start-up.
    /// After a failure the hardware is dropped, and the record with it: what
    /// had been asked of the hardware until then is the `ops` of the contract.
    pub fn new(spi: SPI, cs: CS, wp: WP, hold: HOLD, variant: Variant) -> (r: Result<
        Self,
        Error<SpiError, PinError>,
    >)
        ensures
            exists|ops: Seq<Op>|
                {
                    &&& #[trigger] start_up(ops, variant, r)
                    &&& r matches Ok(device) ==> device.trace() == ops && device.variant()
                        == variant
                },
            r matches Ok(device) ==> {
                &&& device.variant() == variant
                &&& performs(
                    device.trace(),
                    init_script(
                        variant,
                        reply(device.trace(), 11, 1),
                        reply(device.trace(), 21, 1),
                    ),
                    Halt::Completed,
                )
                &&& reply(device.trace(), 4, identity_at(variant.wide())) == MANUFACTURER_ID
            },
    {
        let mut ret = Eeprom25x { wiring: Wiring::new(spi, cs, wp, hold), variant };
        let ghost start = ret;
        let outcome = ret.initialize();
        let ghost ops = ret.trace();
        proof {
            assert(ret.issued(start) =~= ops);
            assert(start_up(ops, variant, outcome));
        }
        match outcome {
            Ok(()) => {
                proof {
                    assert(start_up(ops, variant, Ok::<Self, Error<SpiError, PinError>>(ret)));
                }
                Ok(ret)
            },
            Err(e) => {
                proof {
                    assert(start_up(ops, variant, Err::<Self, Error<SpiError, PinError>>(e)));
                }
                Err(e)
            },
        }
    }

    /// The variant that this handle was made for.
    pub fn configuration(&self) -> (r: Variant)
        ensures
            r == self.variant(),
    {
        self.variant
    }
}

} // verus!
