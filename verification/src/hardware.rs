//! The hardware that the driver talks to, and the record of what it asked of
//! it.
//!
//! The bus and the three control signals are supplied by the platform through
//! the traits [`Channel`] and [`Signal`]. Their methods promise nothing: the
//! driver is proved for every way in which the hardware may answer or fail.
//! What the driver asked of the hardware, in order, is kept as a ghost
//! sequence of [`Op`]s, and the driver's contracts are stated over it. The
//! record is kept by [`Wiring`], which owns the hardware: nothing reaches the
//! hardware but through it, and nothing else can write to the record.

use vstd::prelude::*;

verus! {

/// A duplex byte channel to the device.
pub trait Channel {
    type Error;

    /// Sends `words` and overwrites them with the bytes received meanwhile.
    fn transfer(&mut self, words: &mut [u8]) -> (r: Result<(), Self::Error>);

    /// Sends `words` and discards what is received.
    fn write(&mut self, words: &[u8]) -> (r: Result<(), Self::Error>);
}

/// A binary output signal.
pub trait Signal {
    type Error;

    /// Drives the signal to its high level.
    fn set_high(&mut self) -> (r: Result<(), Self::Error>);

    /// Drives the signal to its low level.
    fn set_low(&mut self) -> (r: Result<(), Self::Error>);
}

/// One of the three control signals of the device.
#[derive(Clone, Copy, Debug, PartialEq, Eq, Structural)]
pub enum Line {
    ChipSelect,
    WriteProtect,
    Hold,
}

/// Something the driver asks of the hardware.
pub enum Action {
    /// Drive a control signal high or low.
    Level { line: Line, high: bool },
    /// Send `sent` over the channel and take the bytes received in return.
    Transfer { sent: Seq<u8> },
    /// Send `sent` over the channel.
    Write { sent: Seq<u8> },
}

/// An action together with how the hardware answered it.
pub struct Op {
    pub action: Action,
    /// Whether the hardware reported success.
    pub ok: bool,
    /// The content of the buffer after a transfer; empty for other actions.
    pub received: Seq<u8>,
}

/// How a sequence of actions ended.
pub enum Halt {
    /// Every action was performed and succeeded.
    Completed,
    /// A control signal reported a failure; nothing was attempted after it.
    LineFault,
    /// The channel reported a failure; nothing was attempted after it.
    BusFault,
}

impl Action {
    /// The kind of fault that this action can end in.
    pub open spec fn fault(self) -> Halt {
        match self {
            Action::Level { .. } => Halt::LineFault,
            _ => Halt::BusFault,
        }
    }

    /// Whether this action sends bytes without receiving any.
    pub open spec fn is_write(self) -> bool {
        self is Write
    }
}

/// `ops` is what happens when `script` is carried out action by action and
/// given up at the first failure: the actions of `ops` are those of `script`
/// in order, all but the last succeeded, and `halt` tells whether the script
/// was carried out to its end or which kind of action failed last.
pub open spec fn performs(ops: Seq<Op>, script: Seq<Action>, halt: Halt) -> bool {
    &&& ops.len() <= script.len()
    &&& forall|i: int| 0 <= i < ops.len() ==> (#[trigger] ops[i]).action == script[i]
    &&& forall|i: int| 0 <= i < ops.len() - 1 ==> (#[trigger] ops[i]).ok
    &&& match halt {
        Halt::Completed => ops.len() == script.len() && (ops.len() > 0 ==> ops.last().ok),
        _ => ops.len() > 0 && !ops.last().ok && ops.last().action.fault() == halt,
    }
}

/// Byte `j` of what the transfer at position `i` of `ops` received, or 0 where
/// there is no such byte.
pub open spec fn reply(ops: Seq<Op>, i: int, j: int) -> u8 {
    if 0 <= i < ops.len() && 0 <= j < ops[i].received.len() {
        ops[i].received[j]
    } else {
        0
    }
}

/// The actions of one framed transaction: chip-select goes low, `frame` is
/// exchanged over the channel, chip-select goes high again.
pub open spec fn framed(frame: Seq<u8>) -> Seq<Action> {
    seq![
        Action::Level { line: Line::ChipSelect, high: false },
        Action::Transfer { sent: frame },
        Action::Level { line: Line::ChipSelect, high: true },
    ]
}

/// The single action of driving `line` to a level.
pub open spec fn level(line: Line, high: bool) -> Seq<Action> {
    seq![Action::Level { line, high }]
}

/// What was appended to the record `before` to give the record `after`.
pub open spec fn since(after: Seq<Op>, before: Seq<Op>) -> Seq<Op> {
    after.skip(before.len() as int)
}

/// A script carried out to its end, followed by a second one, is the two
/// scripts in a row, ending as the second one ended.
pub proof fn lemma_performs_then(
    a: Seq<Op>,
    first: Seq<Action>,
    b: Seq<Op>,
    second: Seq<Action>,
    halt: Halt,
)
    requires
        performs(a, first, Halt::Completed),
        performs(b, second, halt),
    ensures
        performs(a + b, first + second, halt),
{
    let ops = a + b;
    let script = first + second;
    assert forall|i: int| 0 <= i < ops.len() implies (#[trigger] ops[i]).action == script[i] by {
        if i < a.len() {
            assert(ops[i] == a[i]);
        } else {
            assert(ops[i] == b[i - a.len()]);
        }
    }
    assert forall|i: int| 0 <= i < ops.len() - 1 implies (#[trigger] ops[i]).ok by {
        if i < a.len() {
            assert(ops[i] == a[i]);
            if i == a.len() - 1 {
                assert(a.last().ok);
            }
        } else {
            assert(ops[i] == b[i - a.len()]);
        }
    }
    if b.len() > 0 {
        assert(ops.last() == b.last());
    } else {
        assert(ops =~= a);
    }
}

/// What was appended since the start is what was appended up to some point in
/// between, followed by what was appended after it.
pub proof fn lemma_since_split(start: Seq<Op>, middle: Seq<Op>, end: Seq<Op>)
    requires
        start.is_prefix_of(middle),
        middle.is_prefix_of(end),
    ensures
        start.is_prefix_of(end),
        since(end, start) =~= since(middle, start) + since(end, middle),
{
}

/// The channel and the three control signals of one device, together with
/// the record of what was asked of them. The hardware can be reached through
/// the three methods `drive`, `exchange` and `send` only, and each of them
/// appends to the record the one call that it makes.
pub struct Wiring<SPI, CS, WP, HOLD> {
    spi: SPI,
    cs: CS,
    wp: WP,
    hold: HOLD,
    record: Ghost<Seq<Op>>,
}

impl<SPI, CS, WP, HOLD> Wiring<SPI, CS, WP, HOLD> {
    /// Everything that was asked of the hardware, oldest first.
    pub closed spec fn record(self) -> Seq<Op> {
        self.record@
    }
}

impl<SPI, CS, WP, HOLD, SpiError, PinError> Wiring<SPI, CS, WP, HOLD> where
    SPI: Channel<Error = SpiError>,
    CS: Signal<Error = PinError>,
    WP: Signal<Error = PinError>,
    HOLD: Signal<Error = PinError>,
 {
    /// Takes hold of the channel and the signals, with an empty record.
    pub fn new(spi: SPI, cs: CS, wp: WP, hold: HOLD) -> (r: Self)
        ensures
            r.record() == Seq::<Op>::empty(),
    {
        Wiring { spi, cs, wp, hold, record: Ghost(Seq::empty()) }
    }

    /// Drives one control signal high or low.
    pub fn drive(&mut self, line: Line, high: bool) -> (r: Result<(), PinError>)
        ensures
            final(self).record() == old(self).record().push(
                Op { action: Action::Level { line, high }, ok: r is Ok, received: Seq::empty() },
            ),
    {
        let outcome = match line {
            Line::ChipSelect => if high {
                self.cs.set_high()
            } else {
                self.cs.set_low()
            },
            Line::WriteProtect => if high {
                self.wp.set_high()
            } else {
                self.wp.set_low()
            },
            Line::Hold => if high {
                self.hold.set_high()
            } else {
                self.hold.set_low()
            },
        };
        proof {
            self.record@ = self.record@.push(
                Op { action: Action::Level { line, high }, ok: outcome is Ok, received: Seq::empty() },
            );
        }
        outcome
    }

    /// Sends `words` over the channel and overwrites them with what is
    /// received meanwhile.
    pub fn exchange(&mut self, words: &mut [u8]) -> (r: Result<(), SpiError>)
        ensures
            final(self).record() == old(self).record().push(
                Op {
                    action: Action::Transfer { sent: old(words)@ },
                    ok: r is Ok,
                    received: final(words)@,
                },
            ),
    {
        let ghost sent = words@;
        let outcome = self.spi.transfer(words);
        proof {
            self.record@ = self.record@.push(
                Op { action: Action::Transfer { sent }, ok: outcome is Ok, received: words@ },
            );
        }
        outcome
    }

    /// Sends `words` over the channel.
    pub fn send(&mut self, words: &[u8]) -> (r: Result<(), SpiError>)
        ensures
            final(self).record() == old(self).record().push(
                Op { action: Action::Write { sent: words@ }, ok: r is Ok, received: Seq::empty() },
            ),
    {
        let outcome = self.spi.write(words);
        proof {
            self.record@ = self.record@.push(
                Op { action: Action::Write { sent: words@ }, ok: outcome is Ok, received: Seq::empty() },
            );
        }
        outcome
    }
}

} // verus!
