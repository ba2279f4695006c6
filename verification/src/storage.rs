//! Linear storage on top of the driver: reads and writes at any offset and of
//! any length inside the device, with writes split at page boundaries.

use crate::bits;
use crate::eeprom25x::{
    halt_of, identity_frame, read_script, status_frame, write_script, Eeprom25x, Error,
};
use crate::hardware::{
    framed, lemma_since_split, level, performs, reply, since, Action, Channel, Halt, Line, Op,
    Signal,
};
use crate::plan::{
    burst_fits, bursts, first_chunk, lemma_bursts_quiet, lemma_bursts_write, lemma_plan_start,
    lemma_plan_unfold, lemma_poll_script, pages_touched, plan, poll_script, Burst,
};
use crate::register::Instruction;
use crate::status::busy_of;
use crate::variant::Variant;
use vstd::prelude::*;
use vstd::slice::slice_subrange;

verus! {

/// The status byte that poll number `k` of a run of polls received.
pub open spec fn polled(ops: Seq<Op>, k: int) -> u8 {
    reply(ops, 3 * k + 1, 1)
}

/// What a wait for the device may leave in the record, and what it returns
/// for it. The status is polled until it shows the device idle, at most
/// `limit` times. Every poll before the last one saw the device busy. The
/// wait succeeds exactly where the last poll saw it idle, and times out
/// exactly where `limit` polls saw it busy.
pub open spec fn waited<SpiError, PinError>(
    ops: Seq<Op>,
    limit: u64,
    r: Result<(), Error<SpiError, PinError>>,
) -> bool {
    let count = (ops.len() + 2) / 3;
    &&& count <= limit
    &&& forall|k: int| 0 <= k < count - 1 ==> busy_of(#[trigger] polled(ops, k))
    &&& match r {
        Ok(()) => count >= 1 && performs(ops, poll_script(count), Halt::Completed) && !busy_of(
            polled(ops, count - 1),
        ),
        Err(Error::WriteTimeout) => count == limit && performs(
            ops,
            poll_script(count),
            Halt::Completed,
        ) && (count >= 1 ==> busy_of(polled(ops, count - 1))),
        Err(Error::PinError(_)) => performs(ops, poll_script(count), Halt::LineFault),
        Err(Error::SpiError(_)) => performs(ops, poll_script(count), Halt::BusFault),
        Err(_) => false,
    }
}

/// The actions with which an operation of the storage layer begins: hold
/// high, and the wake-up where the variant sleeps.
pub open spec fn open_script(variant: Variant) -> Seq<Action> {
    level(Line::Hold, true) + (if variant.sleeps() {
        framed(identity_frame(variant.wide()))
    } else {
        Seq::empty()
    })
}

/// The actions with which an operation of the storage layer ends: the return
/// to deep sleep where the variant sleeps, and hold low.
pub open spec fn close_script(variant: Variant) -> Seq<Action> {
    (if variant.sleeps() {
        framed(seq![Instruction::DeepSleepPowerMode.code()])
    } else {
        Seq::empty()
    }) + level(Line::Hold, false)
}

/// The actions of a read through the storage layer into a buffer that holds
/// `buffer`: the opening actions, one addressed read, the closing actions.
pub open spec fn fetch_script(variant: Variant, offset: u32, buffer: Seq<u8>) -> Seq<Action> {
    open_script(variant) + read_script(offset, buffer) + close_script(variant)
}

/// Where the transfer that carries the data stands among the actions of a
/// read through the storage layer.
pub open spec fn fetch_at(variant: Variant) -> int {
    open_script(variant).len() as int + 2
}

/// The actions of one write cycle with `polls` polls: the write latch is set,
/// `data` is written at `offset` in one burst, the status is polled, and the
/// write latch is cleared.
pub open spec fn cycle_script(offset: u32, data: Seq<u8>, polls: nat) -> Seq<Action> {
    framed(seq![Instruction::WriteEnable.code()]) + write_script(offset, data) + poll_script(polls)
        + framed(seq![Instruction::WriteDisable.code()])
}

/// The status byte that poll number `k` of a write cycle received.
pub open spec fn cycle_poll(ops: Seq<Op>, k: int) -> u8 {
    reply(ops, 3 * k + 8, 1)
}

/// `ops` is one write cycle of `data` at `offset` that was carried out to its
/// end: all its actions succeeded, it polled at most `limit` times, and its
/// last poll, and no earlier one, saw the device idle.
pub open spec fn cycle_done(ops: Seq<Op>, offset: u32, data: Seq<u8>, limit: u64) -> bool {
    let polls = (ops.len() - 10) / 3;
    &&& 1 <= polls <= limit
    &&& performs(ops, cycle_script(offset, data, polls as nat), Halt::Completed)
    &&& !busy_of(cycle_poll(ops, polls - 1))
    &&& forall|k: int| 0 <= k < polls - 1 ==> busy_of(#[trigger] cycle_poll(ops, k))
}

/// `ops` is one completed write cycle for each burst of `made`, in order, and
/// nothing else.
pub open spec fn written(ops: Seq<Op>, made: Seq<Burst>, limit: u64) -> bool
    decreases made.len(),
{
    if made.len() == 0 {
        ops.len() == 0
    } else {
        exists|length: int|
            0 <= length <= ops.len() && cycle_done(
                #[trigger] ops.skip(ops.len() - length),
                made.last().address as u32,
                made.last().data,
                limit,
            ) && written(ops.take(ops.len() - length), made.drop_last(), limit)
    }
}

/// `ops` is the record of write cycles that stopped short of the plan
/// `target`: one completed write cycle for each of its first bursts, and then
/// the write cycle of its next burst, which ended in the error of `r`.
pub open spec fn stopped_in_cycle<SpiError, PinError>(
    ops: Seq<Op>,
    target: Seq<Burst>,
    limit: u64,
    r: Result<(), Error<SpiError, PinError>>,
) -> bool {
    exists|k: int, m: int|
        0 <= k < target.len() && 0 <= m <= ops.len() && written(ops.take(m), target.take(k), limit)
            && #[trigger] cycled(ops.skip(m), target[k].address as u32, target[k].data, limit, r)
}

/// `ops` is the record of a write through the storage layer that failed with
/// the error of `r`, where `target` is the plan of the write. Either an
/// opening action failed; or the opening actions succeeded and a write cycle
/// failed or timed out, after completed write cycles for the bursts before
/// its own; or all the write cycles of the plan were completed and a closing
/// action failed.
pub open spec fn write_failed<SpiError, PinError>(
    ops: Seq<Op>,
    variant: Variant,
    target: Seq<Burst>,
    limit: u64,
    r: Result<(), Error<SpiError, PinError>>,
) -> bool {
    let opening = open_script(variant).len() as int;
    ||| halt_of(r) matches Some(halt) && performs(ops, open_script(variant), halt)
    ||| {
        &&& ops.len() >= opening
        &&& performs(ops.take(opening), open_script(variant), Halt::Completed)
        &&& stopped_in_cycle(ops.skip(opening), target, limit, r)
    }
    ||| {
        &&& ops.len() >= opening
        &&& performs(ops.take(opening), open_script(variant), Halt::Completed)
        &&& halt_of(r) matches Some(halt) && exists|m: int|
            opening <= m <= ops.len() && written(ops.subrange(opening, m), target, limit)
                && #[trigger] performs(ops.skip(m), close_script(variant), halt)
    }
}

/// Completed write cycles for the bursts made so far, followed by a write
/// cycle for the next burst of the plan that ended in an error, are write
/// cycles that stopped short of the plan.
proof fn lemma_stopped_in_cycle<SpiError, PinError>(
    done: Seq<Op>,
    cycle: Seq<Op>,
    made: Seq<Burst>,
    next: Seq<Burst>,
    offset: u32,
    data: Seq<u8>,
    limit: u64,
    r: Result<(), Error<SpiError, PinError>>,
)
    requires
        written(done, made, limit),
        cycled(cycle, offset, data, limit, r),
    ensures
        stopped_in_cycle(done + cycle, made + (seq![cycle_burst(offset, data)] + next), limit, r),
{
    let ops = done + cycle;
    let target = made + (seq![cycle_burst(offset, data)] + next);
    let k = made.len() as int;
    let m = done.len() as int;
    assert(ops.take(m) =~= done);
    assert(ops.skip(m) =~= cycle);
    assert(target.take(k) =~= made);
    assert(target[k] == cycle_burst(offset, data));
    assert(cycled(ops.skip(m), target[k].address as u32, target[k].data, limit, r));
}

/// A completed write cycle after completed write cycles makes one more.
proof fn lemma_written_push(
    ops: Seq<Op>,
    made: Seq<Burst>,
    cycle: Seq<Op>,
    offset: u32,
    data: Seq<u8>,
    limit: u64,
)
    requires
        written(ops, made, limit),
        cycle_done(cycle, offset, data, limit),
    ensures
        written(ops + cycle, made.push(cycle_burst(offset, data)), limit),
{
    let all = ops + cycle;
    let more = made.push(cycle_burst(offset, data));
    assert(all.skip(all.len() - cycle.len()) =~= cycle);
    assert(all.take(all.len() - cycle.len()) =~= ops);
    assert(more.drop_last() =~= made);
    assert(more.last() == cycle_burst(offset, data));
    assert(cycle_done(
        all.skip(all.len() - cycle.len()),
        more.last().address as u32,
        more.last().data,
        limit,
    ));
}

/// What one write cycle may leave in the record, and what it returns for it.
/// A cycle that succeeds has carried out all its actions, and its last poll,
/// and no earlier one, saw the device idle. A cycle that times out has polled
/// `limit` times, saw the device busy each time, and has not cleared the write
/// latch. A cycle that ends in a fault has carried out its actions up to the
/// one that failed.
pub open spec fn cycled<SpiError, PinError>(
    ops: Seq<Op>,
    offset: u32,
    data: Seq<u8>,
    limit: u64,
    r: Result<(), Error<SpiError, PinError>>,
) -> bool {
    match r {
        Ok(()) => cycle_done(ops, offset, data, limit),
        Err(Error::WriteTimeout) => {
            &&& performs(
                ops,
                framed(seq![Instruction::WriteEnable.code()]) + write_script(offset, data)
                    + poll_script(limit as nat),
                Halt::Completed,
            )
            &&& forall|k: int| 0 <= k < limit ==> busy_of(#[trigger] cycle_poll(ops, k))
        },
        Err(Error::PinError(_)) => exists|polls: nat|
            polls <= limit && performs(
                ops,
                #[trigger] cycle_script(offset, data, polls),
                Halt::LineFault,
            ),
        Err(Error::SpiError(_)) => exists|polls: nat|
            polls <= limit && performs(
                ops,
                #[trigger] cycle_script(offset, data, polls),
                Halt::BusFault,
            ),
        Err(_) => false,
    }
}

/// The burst of the write cycle of `data` at `offset`.
pub open spec fn cycle_burst(offset: u32, data: Seq<u8>) -> Burst {
    Burst { address: offset as nat, data }
}

/// A write cycle adds its burst to a record as soon as its data is sent,
/// which is its sixth action, and nothing else.
proof fn lemma_bursts_cycle(
    record: Seq<Op>,
    ops: Seq<Op>,
    offset: u32,
    data: Seq<u8>,
    polls: nat,
)
    requires
        offset < 0x100_0000,
        ops.len() <= cycle_script(offset, data, polls).len(),
        forall|i: int|
            0 <= i < ops.len() ==> (#[trigger] ops[i]).action == cycle_script(
                offset,
                data,
                polls,
            )[i],
    ensures
        bursts(record + ops) == if ops.len() >= 6 {
            bursts(record).push(cycle_burst(offset, data))
        } else {
            bursts(record)
        },
{
    lemma_poll_script(polls);
    let script = cycle_script(offset, data, polls);
    let enable = framed(seq![Instruction::WriteEnable.code()]);
    let disable = framed(seq![Instruction::WriteDisable.code()]);
    let write = write_script(offset, data);
    assert(script.len() == 10 + 3 * polls);
    assert forall|i: int| 0 <= i < script.len() && i != 4 && i != 5 implies !(
    #[trigger] script[i]).is_write() by {
        if i < 3 {
            assert(script[i] == enable[i]);
        } else if i < 7 {
            assert(script[i] == write[i - 3]);
        } else if i < 7 + 3 * polls {
            assert(script[i] == poll_script(polls)[i - 7]);
        } else {
            assert(script[i] == disable[i - 7 - 3 * polls]);
        }
    }
    assert forall|i: int| 3 <= i < 6 implies script[i] == write[i - 3] by {}
    if ops.len() < 4 {
        lemma_bursts_quiet(record, ops);
    } else {
        let head = ops.take(3);
        lemma_bursts_quiet(record, head);
        if ops.len() < 6 {
            let rest = ops.skip(3);
            let whole = record + head + rest;
            assert(record + ops =~= whole);
            if ops.len() == 4 {
                lemma_bursts_quiet(record + head, rest);
            } else {
                assert(whole.drop_last() =~= record + head + rest.take(1));
                assert(whole[whole.len() - 2] == ops[3]);
                lemma_bursts_quiet(record + head, rest.take(1));
            }
        } else {
            let burst = ops.subrange(3, 6);
            let tail = ops.skip(6);
            assert forall|i: int| 0 <= i < 3 implies (#[trigger] burst[i]).action == write[i] by {
                assert(burst[i] == ops[i + 3]);
            }
            assert forall|i: int| 0 <= i < tail.len() implies !(
            #[trigger] tail[i]).action.is_write() by {
                assert(tail[i] == ops[i + 6]);
            }
            assert(record + ops =~= record + head + burst + tail);
            lemma_bursts_quiet(record + head + burst, tail);
            lemma_bursts_write(record + head, burst, offset, data);
        }
    }
}

/// Whatever way a write cycle ended, it added to the record its own burst or
/// nothing; where it succeeded or timed out, its own burst.
proof fn lemma_bursts_cycled<SpiError, PinError>(
    record: Seq<Op>,
    ops: Seq<Op>,
    offset: u32,
    data: Seq<u8>,
    limit: u64,
    r: Result<(), Error<SpiError, PinError>>,
)
    requires
        offset < 0x100_0000,
        cycled(ops, offset, data, limit, r),
    ensures
        bursts(record + ops) == bursts(record).push(cycle_burst(offset, data)) || (r is Err
            && bursts(record + ops) == bursts(record)),
        r is Ok ==> bursts(record + ops) == bursts(record).push(cycle_burst(offset, data)),
{
    match r {
        Ok(()) => {
            let polls = ((ops.len() - 10) / 3) as nat;
            lemma_poll_script(polls);
            lemma_bursts_cycle(record, ops, offset, data, polls);
        },
        Err(Error::WriteTimeout) => {
            lemma_poll_script(limit as nat);
            lemma_bursts_cycle(record, ops, offset, data, limit as nat);
        },
        Err(Error::PinError(_)) => {
            let polls = choose|polls: nat|
                polls <= limit && performs(
                    ops,
                    #[trigger] cycle_script(offset, data, polls),
                    Halt::LineFault,
                );
            lemma_bursts_cycle(record, ops, offset, data, polls);
        },
        Err(Error::SpiError(_)) => {
            let polls = choose|polls: nat|
                polls <= limit && performs(
                    ops,
                    #[trigger] cycle_script(offset, data, polls),
                    Halt::BusFault,
                );
            lemma_bursts_cycle(record, ops, offset, data, polls);
        },
        Err(_) => {},
    }
}

/// One more write cycle takes the first burst of what is left of the plan
/// into the record, or nothing where it failed before its data was sent.
proof fn lemma_write_step<SpiError, PinError>(
    record: Seq<Op>,
    ops: Seq<Op>,
    offset: u32,
    rest: Seq<u8>,
    chunk: nat,
    page: nat,
    limit: u64,
    r: Result<(), Error<SpiError, PinError>>,
    whole: Seq<Burst>,
)
    requires
        offset < 0x100_0000,
        page > 0,
        rest.len() > 0,
        chunk == first_chunk(offset as nat, rest.len(), page),
        cycled(ops, offset, rest.take(chunk as int), limit, r),
        bursts(record) + plan(offset as nat, rest, page) == whole,
    ensures
        r is Ok ==> bursts(record + ops) + plan(
            (offset + chunk) as nat,
            rest.skip(chunk as int),
            page,
        ) == whole,
        bursts(record + ops).is_prefix_of(whole),
        plan(offset as nat, rest, page) == seq![cycle_burst(offset, rest.take(chunk as int))]
            + plan((offset + chunk) as nat, rest.skip(chunk as int), page),
{
    let next = plan((offset + chunk) as nat, rest.skip(chunk as int), page);
    let burst = cycle_burst(offset, rest.take(chunk as int));
    lemma_bursts_cycled(record, ops, offset, rest.take(chunk as int), limit, r);
    lemma_plan_unfold(offset as nat, rest, page);
    assert(bursts(record).push(burst) + next =~= bursts(record) + (seq![burst] + next));
    lemma_start_of(bursts(record).push(burst), next);
    lemma_start_of(bursts(record), seq![burst] + next);
}

/// A sequence is a prefix of itself with anything appended.
proof fn lemma_start_of<A>(first: Seq<A>, more: Seq<A>)
    ensures
        first.is_prefix_of(first + more),
{
}

/// What was appended since the start begins with what was appended up to
/// some point in between, and ends with what was appended after it.
proof fn lemma_since_parts(start: Seq<Op>, middle: Seq<Op>, end: Seq<Op>)
    requires
        start.is_prefix_of(middle),
        middle.is_prefix_of(end),
    ensures
        start.is_prefix_of(end),
        since(end, start).len() == since(middle, start).len() + since(end, middle).len(),
        since(end, start).take(since(middle, start).len() as int) == since(middle, start),
        since(end, start).skip(since(end, start).len() - since(end, middle).len()) == since(
            end,
            middle,
        ),
{
    lemma_since_split(start, middle, end);
    assert(since(end, start).take(since(middle, start).len() as int) =~= since(middle, start));
    assert(since(end, start).skip(since(end, start).len() - since(end, middle).len()) =~= since(
        end,
        middle,
    ));
}

/// Neither the opening nor the closing actions of an operation of the
/// storage layer hold an action that sends without receiving.
proof fn lemma_open_close_quiet(variant: Variant)
    ensures
        forall|i: int|
            0 <= i < open_script(variant).len() ==> !(#[trigger] open_script(
                variant,
            )[i]).is_write(),
        forall|i: int|
            0 <= i < close_script(variant).len() ==> !(#[trigger] close_script(
                variant,
            )[i]).is_write(),
{
}

/// The actions of a script that holds no action that sends without receiving
/// add no burst to a record, however far the script was carried out.
proof fn lemma_bursts_script(record: Seq<Op>, ops: Seq<Op>, script: Seq<Action>, halt: Halt)
    requires
        performs(ops, script, halt),
        forall|i: int| 0 <= i < script.len() ==> !(#[trigger] script[i]).is_write(),
    ensures
        bursts(record + ops) == bursts(record),
{
    assert forall|i: int| 0 <= i < ops.len() implies !(#[trigger] ops[i]).action.is_write() by {
        assert(ops[i].action == script[i]);
    }
    lemma_bursts_quiet(record, ops);
}

/// The length of the first burst of a write of `remaining` bytes at `offset`.
pub fn chunk_len(offset: u32, remaining: usize, page_size: usize) -> (r: usize)
    requires
        page_size > 0,
    ensures
        r == first_chunk(offset as nat, remaining as nat, page_size as nat),
        r <= remaining,
        remaining > 0 ==> r > 0,
{
    let this_page_offset = offset as usize % page_size;
    let this_page_remaining = page_size - this_page_offset;
    if remaining < this_page_remaining {
        remaining
    } else {
        this_page_remaining
    }
}

/// Linear storage on one device.
pub struct Storage<SPI, CS, WP, HOLD> {
    /// The driver of the device that holds the data.
    pub eeprom: Eeprom25x<SPI, CS, WP, HOLD>,
    /// How often the status is polled after a burst before the write gives
    /// up with a timeout. With the largest limit, which is the default, a
    /// write waits for the device for as long as anyone could watch it.
    pub poll_limit: u64,
}

impl<SPI, CS, WP, HOLD, SpiError, PinError> Storage<SPI, CS, WP, HOLD> where
    SPI: Channel<Error = SpiError>,
    CS: Signal<Error = PinError>,
    WP: Signal<Error = PinError>,
    HOLD: Signal<Error = PinError>,
 {
    /// Storage on the device behind `eeprom`, with the largest poll limit
    /// there is.
    pub fn new(eeprom: Eeprom25x<SPI, CS, WP, HOLD>) -> (r: Self)
        ensures
            r.eeprom == eeprom,
            r.poll_limit == u64::MAX,
    {
        Storage { eeprom, poll_limit: u64::MAX }
    }

    /// The number of bytes that the device holds.
    pub fn capacity(&self) -> (r: usize)
        ensures
            r == self.eeprom.variant().size(),
    {
        self.eeprom.configuration().capacity()
    }

    /// Polls the status until it shows the device idle, at most `poll_limit`
    /// times, each poll in a chip-select window of its own.
    pub fn wait_until_idle(&mut self) -> (r: Result<(), Error<SpiError, PinError>>)
        ensures
            final(self).poll_limit == old(self).poll_limit,
            final(self).eeprom.follows(old(self).eeprom),
            waited(final(self).eeprom.issued(old(self).eeprom), old(self).poll_limit, r),
    {
        let ghost start = self.eeprom;
        let ghost ok: Result<(), Error<SpiError, PinError>> = Ok(());
        let limit = self.poll_limit;
        let mut polls: u64 = 0;
        assert(self.eeprom.issued(start) =~= Seq::empty());
        while polls < limit
            invariant
                polls <= limit,
                limit == self.poll_limit,
                limit == old(self).poll_limit,
                start == old(self).eeprom,
                ok is Ok,
                self.eeprom.ran(start, poll_script(polls as nat), ok),
                self.eeprom.issued(start).len() == 3 * polls,
                forall|k: int|
                    0 <= k < polls ==> busy_of(#[trigger] polled(self.eeprom.issued(start), k)),
            decreases limit - polls,
        {
            let ghost before = self.eeprom;
            let r = self.eeprom.status_read();
            proof {
                self.eeprom.lemma_next(
                    before,
                    start,
                    poll_script(polls as nat),
                    framed(status_frame()),
                    ok,
                    r,
                );
                assert forall|k: int| 0 <= k < polls implies busy_of(
                    #[trigger] polled(self.eeprom.issued(start), k),
                ) by {
                    assert(polled(self.eeprom.issued(start), k) == polled(before.issued(start), k));
                }
            }
            match r {
                Err(e) => {
                    return Err(e);
                },
                Ok(value) => {
                    proof {
                        assert(value & (1u8 << 0u8) != 0 <==> value & 0x01 != 0) by (bit_vector);
                        assert(polled(self.eeprom.issued(start), polls as int) == value);
                    }
                    polls = polls + 1;
                    if !bits::get_bit(value, 0) {
                        return Ok(());
                    }
                },
            }
        }
        Err(Error::WriteTimeout)
    }

    /// Reads `bytes.len()` bytes from `offset` on into `bytes`, in one
    /// addressed read. A read that reaches beyond the end of the device is
    /// refused before anything is asked of the hardware.
    pub fn read(&mut self, offset: u32, bytes: &mut [u8]) -> (r: Result<
        (),
        Error<SpiError, PinError>,
    >)
        ensures
            final(self).poll_limit == old(self).poll_limit,
            final(self).eeprom.follows(old(self).eeprom),
            match r {
                Err(Error::TooMuchData) => {
                    &&& offset + old(bytes)@.len() > old(self).eeprom.variant().size()
                    &&& *final(self) == *old(self)
                    &&& final(bytes)@ == old(bytes)@
                },
                _ => {
                    &&& offset + old(bytes)@.len() <= old(self).eeprom.variant().size()
                    &&& final(self).eeprom.ran(
                        old(self).eeprom,
                        fetch_script(old(self).eeprom.variant(), offset, old(bytes)@),
                        r,
                    )
                    &&& r is Ok ==> final(bytes)@ == final(self).eeprom.issued(
                        old(self).eeprom,
                    )[fetch_at(old(self).eeprom.variant())].received
                },
            },
    {
        let ghost start = self.eeprom;
        let ghost buffer = bytes@;
        let variant = self.eeprom.configuration();
        let ghost whole = fetch_script(variant, offset, buffer);
        let ghost a = open_script(variant);
        let ghost b = read_script(offset, buffer);
        let ghost c = close_script(variant);
        let capacity = variant.capacity();
        let length = bytes.len();
        if length > capacity || offset as usize > capacity - length {
            return Err(Error::TooMuchData);
        }
        let r1 = self.open();
        let ghost s1 = self.eeprom;
        if let Err(e) = r1 {
            proof {
                s1.lemma_stop_within(start, a, whole, r1, r1);
            }
            return Err(e);
        }
        let r2 = self.eeprom.read(offset, bytes);
        let ghost s2 = self.eeprom;
        proof {
            s2.lemma_next(s1, start, a, b, r1, r2);
        }
        if let Err(e) = r2 {
            proof {
                s2.lemma_stop_within(start, a + b, whole, r2, r2);
            }
            return Err(e);
        }
        assert(s2.issued(start)[fetch_at(variant)].received == bytes@);
        let r3 = self.close();
        proof {
            self.eeprom.lemma_next(s2, start, a + b, c, r2, r3);
        }
        r3
    }

    /// One write cycle: the write latch is set, `chunk` is written at
    /// `offset` in one burst, the status is polled until the device is idle,
    /// and the write latch is cleared. Nothing here keeps `chunk` inside one
    /// page.
    pub fn write_page(&mut self, offset: u32, chunk: &[u8]) -> (r: Result<
        (),
        Error<SpiError, PinError>,
    >)
        ensures
            final(self).poll_limit == old(self).poll_limit,
            final(self).eeprom.follows(old(self).eeprom),
            cycled(
                final(self).eeprom.issued(old(self).eeprom),
                offset,
                chunk@,
                old(self).poll_limit,
                r,
            ),
    {
        let ghost start = self.eeprom;
        let ghost ok: Result<(), Error<SpiError, PinError>> = Ok(());
        let ghost limit = self.poll_limit;
        let ghost a = framed(seq![Instruction::WriteEnable.code()]);
        let ghost b = write_script(offset, chunk@);
        let ghost z = framed(seq![Instruction::WriteDisable.code()]);
        let r1 = self.eeprom.write_enable();
        let ghost s1 = self.eeprom;
        if let Err(e) = r1 {
            proof {
                s1.lemma_stop_within(start, a, cycle_script(offset, chunk@, 0), r1, r1);
            }
            return Err(e);
        }
        let r2 = self.eeprom.write(offset, chunk);
        let ghost s2 = self.eeprom;
        proof {
            s2.lemma_next(s1, start, a, b, r1, r2);
        }
        if let Err(e) = r2 {
            proof {
                s2.lemma_stop_within(start, a + b, cycle_script(offset, chunk@, 0), r2, r2);
            }
            return Err(e);
        }
        let r3 = self.wait_until_idle();
        let ghost s3 = self.eeprom;
        let ghost polls = ((s3.issued(s2).len() + 2) / 3) as nat;
        let ghost c = poll_script(polls);
        proof {
            lemma_poll_script(polls);
            lemma_since_split(start.trace(), s2.trace(), s3.trace());
            assert(s3.issued(start) == s2.issued(start) + s3.issued(s2));
            assert(s2.issued(start).len() == 7);
            assert forall|k: int| 0 <= k < polls implies #[trigger] cycle_poll(s3.issued(start), k)
                == polled(s3.issued(s2), k) by {
                let i = 3 * k + 1;
                if i < s3.issued(s2).len() {
                    assert(s3.issued(start)[i + 7] == s3.issued(s2)[i]);
                }
            }
        }
        match r3 {
            Ok(()) => {
                proof {
                    s3.lemma_next(s2, start, a + b, c, r2, r3);
                }
            },
            Err(Error::WriteTimeout) => {
                proof {
                    s3.lemma_next(s2, start, a + b, c, r2, ok);
                }
                return Err(Error::WriteTimeout);
            },
            Err(e) => {
                proof {
                    s3.lemma_next(s2, start, a + b, c, r2, r3);
                    s3.lemma_stop_within(
                        start,
                        a + b + c,
                        cycle_script(offset, chunk@, polls),
                        r3,
                        r3,
                    );
                }
                return Err(e);
            },
        }
        let r4 = self.eeprom.write_disable();
        proof {
            self.eeprom.lemma_next(s3, start, a + b + c, z, r3, r4);
            assert(s3.issued(start).len() == 7 + 3 * polls);
            assert(polls <= limit);
            let ops = self.eeprom.issued(start);
            if r4 is Ok {
                assert(ops.len() == 10 + 3 * polls);
                assert((ops.len() - 10) / 3 == polls);
                assert(performs(ops, cycle_script(offset, chunk@, polls), Halt::Completed));
                assert(polls >= 1);
                assert(cycle_poll(ops, polls - 1) == polled(s3.issued(s2), polls - 1));
            } else {
                assert(performs(ops, cycle_script(offset, chunk@, polls), halt_of(r4).unwrap()));
            }
            assert forall|k: int| 0 <= k < polls implies #[trigger] cycle_poll(
                self.eeprom.issued(start),
                k,
            ) == polled(s3.issued(s2), k) by {
                assert(cycle_poll(self.eeprom.issued(start), k) == cycle_poll(s3.issued(start), k));
            }
        }
        r4
    }

    /// Begins an operation of the storage layer: hold high, and the wake-up
    /// where the variant sleeps.
    fn open(&mut self) -> (r: Result<(), Error<SpiError, PinError>>)
        ensures
            final(self).poll_limit == old(self).poll_limit,
            final(self).eeprom.ran(old(self).eeprom, open_script(old(self).eeprom.variant()), r),
    {
        let ghost start = self.eeprom;
        let variant = self.eeprom.configuration();
        let ghost a = level(Line::Hold, true);
        let ghost b = framed(identity_frame(variant.wide()));
        let r1 = self.eeprom.hold_transfer(true);
        let ghost s1 = self.eeprom;
        if let Err(e) = r1 {
            proof {
                s1.lemma_stop_within(start, a, open_script(variant), r1, r1);
            }
            return Err(e);
        }
        if variant.has_deep_sleep() {
            let r2 = self.eeprom.release_from_deep_sleep_and_get_manufacturer_id();
            proof {
                self.eeprom.lemma_next(s1, start, a, b, r1, r2);
            }
            match r2 {
                Ok(_) => Ok(()),
                Err(e) => Err(e),
            }
        } else {
            proof {
                assert(a + Seq::<Action>::empty() =~= a);
            }
            Ok(())
        }
    }

    /// Ends an operation of the storage layer: the return to deep sleep where
    /// the variant sleeps, and hold low.
    fn close(&mut self) -> (r: Result<(), Error<SpiError, PinError>>)
        ensures
            final(self).poll_limit == old(self).poll_limit,
            final(self).eeprom.ran(old(self).eeprom, close_script(old(self).eeprom.variant()), r),
    {
        let ghost start = self.eeprom;
        let ghost ok: Result<(), Error<SpiError, PinError>> = Ok(());
        let variant = self.eeprom.configuration();
        let ghost a = if variant.sleeps() {
            framed(seq![Instruction::DeepSleepPowerMode.code()])
        } else {
            Seq::empty()
        };
        let ghost b = level(Line::Hold, false);
        if variant.has_deep_sleep() {
            let r1 = self.eeprom.deep_sleep();
            if let Err(e) = r1 {
                proof {
                    self.eeprom.lemma_stop_within(start, a, close_script(variant), r1, r1);
                }
                return Err(e);
            }
        } else {
            proof {
                assert(self.eeprom.issued(start) =~= Seq::empty());
            }
        }
        let ghost s1 = self.eeprom;
        assert(s1.ran(start, a, ok));
        let r2 = self.eeprom.hold_transfer(false);
        proof {
            self.eeprom.lemma_next(s1, start, a, b, ok, r2);
        }
        r2
    }

    /// Writes `bytes` from `offset` on in write cycles of one burst each, the
    /// bursts being those of the plan. `record` is what the caller has asked
    /// of the hardware before.
    fn write_bursts(&mut self, offset: u32, bytes: &[u8], Ghost(record): Ghost<Seq<Op>>) -> (r:
        Result<(), Error<SpiError, PinError>>)
        requires
            offset + bytes@.len() <= 0x100_0000,
            old(self).eeprom.variant().page() > 0,
        ensures
            final(self).poll_limit == old(self).poll_limit,
            final(self).eeprom.follows(old(self).eeprom),
            r is Err ==> !(r matches Err(Error::TooMuchData)),
            bursts(record + final(self).eeprom.issued(old(self).eeprom)).is_prefix_of(
                bursts(record) + plan(offset as nat, bytes@, old(self).eeprom.variant().page()),
            ),
            r is Ok ==> bursts(record + final(self).eeprom.issued(old(self).eeprom)) == bursts(
                record,
            ) + plan(offset as nat, bytes@, old(self).eeprom.variant().page()),
            r is Ok ==> written(
                final(self).eeprom.issued(old(self).eeprom),
                plan(offset as nat, bytes@, old(self).eeprom.variant().page()),
                old(self).poll_limit,
            ),
            r is Err ==> stopped_in_cycle(
                final(self).eeprom.issued(old(self).eeprom),
                plan(offset as nat, bytes@, old(self).eeprom.variant().page()),
                old(self).poll_limit,
                r,
            ),
    {
        let ghost start = self.eeprom;
        let page_size = self.eeprom.configuration().page_size();
        let length = bytes.len();
        let ghost whole = bursts(record) + plan(offset as nat, bytes@, page_size as nat);
        let ghost target = plan(offset as nat, bytes@, page_size as nat);
        let ghost made = Seq::<Burst>::empty();
        let mut cur: u32 = offset;
        let mut done: usize = 0;
        proof {
            assert(bytes@.skip(0) =~= bytes@);
            assert(record + self.eeprom.issued(start) =~= record);
            assert(self.eeprom.issued(start) =~= Seq::empty());
            assert(made + target =~= target);
        }
        while done < length
            invariant
                start == old(self).eeprom,
                self.poll_limit == old(self).poll_limit,
                self.eeprom.follows(start),
                length == bytes@.len(),
                done <= length,
                cur == offset + done,
                offset + length <= 0x100_0000,
                page_size == start.variant().page(),
                page_size > 0,
                whole == bursts(record) + plan(offset as nat, bytes@, page_size as nat),
                target == plan(offset as nat, bytes@, page_size as nat),
                made + plan(cur as nat, bytes@.skip(done as int), page_size as nat) == target,
                written(self.eeprom.issued(start), made, self.poll_limit),
                bursts(record + self.eeprom.issued(start)) + plan(
                    cur as nat,
                    bytes@.skip(done as int),
                    page_size as nat,
                ) == whole,
            decreases length - done,
        {
            let ghost before = self.eeprom;
            let ghost rest = bytes@.skip(done as int);
            let chunk = chunk_len(cur, length - done, page_size);
            let piece = slice_subrange(bytes, done, done + chunk);
            let r3 = self.write_page(cur, piece);
            proof {
                let ops = self.eeprom.issued(before);
                lemma_since_split(start.trace(), before.trace(), self.eeprom.trace());
                assert(piece@ =~= rest.take(chunk as int));
                assert(rest.skip(chunk as int) =~= bytes@.skip(done + chunk));
                lemma_write_step(
                    record + before.issued(start),
                    ops,
                    cur,
                    rest,
                    chunk as nat,
                    page_size as nat,
                    self.poll_limit,
                    r3,
                    whole,
                );
                assert(record + self.eeprom.issued(start) =~= record + before.issued(start) + ops);
            }
            if let Err(e) = r3 {
                proof {
                    let next = plan(
                        (cur + chunk) as nat,
                        rest.skip(chunk as int),
                        page_size as nat,
                    );
                    lemma_stopped_in_cycle(
                        before.issued(start),
                        self.eeprom.issued(before),
                        made,
                        next,
                        cur,
                        piece@,
                        self.poll_limit,
                        r3,
                    );
                }
                return Err(e);
            }
            proof {
                let ops = self.eeprom.issued(before);
                let next = plan((cur + chunk) as nat, rest.skip(chunk as int), page_size as nat);
                lemma_written_push(before.issued(start), made, ops, cur, piece@, self.poll_limit);
                assert(made.push(cycle_burst(cur, piece@)) + next =~= made + (seq![
                    cycle_burst(cur, piece@),
                ] + next));
                made = made.push(cycle_burst(cur, piece@));
            }
            cur = cur + chunk as u32;
            done = done + chunk;
        }
        proof {
            assert(plan(cur as nat, bytes@.skip(done as int), page_size as nat) =~= Seq::empty());
            assert(bursts(record + self.eeprom.issued(start)) =~= whole);
            assert(made =~= target);
        }
        Ok(())
    }

    /// Writes `bytes` from `offset` on. A write that reaches beyond the end of
    /// the device is refused before anything is asked of the hardware.
    /// Otherwise the data goes out in write cycles of one burst each, between
    /// the opening and the closing actions. However the write ends, the
    /// bursts sent are the first ones of the plan for this offset, this data
    /// and the page size of the device, so none of them crosses a page
    /// boundary; after a success they are the whole plan.
    pub fn write(&mut self, offset: u32, bytes: &[u8]) -> (r: Result<(), Error<SpiError, PinError>>)
        ensures
            final(self).poll_limit == old(self).poll_limit,
            final(self).eeprom.follows(old(self).eeprom),
            match r {
                Err(Error::TooMuchData) => {
                    &&& offset + bytes@.len() > old(self).eeprom.variant().size()
                    &&& *final(self) == *old(self)
                },
                _ => offset + bytes@.len() <= old(self).eeprom.variant().size(),
            },
            bursts(final(self).eeprom.issued(old(self).eeprom)).is_prefix_of(
                plan(offset as nat, bytes@, old(self).eeprom.variant().page()),
            ),
            forall|i: int|
                0 <= i < bursts(final(self).eeprom.issued(old(self).eeprom)).len() ==> burst_fits(
                    #[trigger] bursts(final(self).eeprom.issued(old(self).eeprom))[i],
                    offset as nat,
                    bytes@,
                    old(self).eeprom.variant().page(),
                ),
            r is Err && !(r matches Err(Error::TooMuchData)) ==> write_failed(
                final(self).eeprom.issued(old(self).eeprom),
                old(self).eeprom.variant(),
                plan(offset as nat, bytes@, old(self).eeprom.variant().page()),
                old(self).poll_limit,
                r,
            ),
            r is Ok ==> {
                let ops = final(self).eeprom.issued(old(self).eeprom);
                let variant = old(self).eeprom.variant();
                let opening = open_script(variant).len();
                let closing = close_script(variant).len();
                &&& bursts(ops) == plan(offset as nat, bytes@, variant.page())
                &&& bursts(ops).len() == pages_touched(
                    offset as nat,
                    bytes@.len(),
                    variant.page(),
                )
                &&& ops.len() >= opening + closing
                &&& performs(ops.take(opening as int), open_script(variant), Halt::Completed)
                &&& performs(
                    ops.skip(ops.len() - closing),
                    close_script(variant),
                    Halt::Completed,
                )
                &&& written(
                    ops.subrange(opening as int, ops.len() - closing),
                    plan(offset as nat, bytes@, variant.page()),
                    old(self).poll_limit,
                )
            },
    {
        let ghost start = self.eeprom;
        let variant = self.eeprom.configuration();
        let capacity = variant.capacity();
        let page_size = variant.page_size();
        let length = bytes.len();
        let ghost whole = plan(offset as nat, bytes@, page_size as nat);
        if length > capacity || offset as usize > capacity - length {
            proof {
                assert(self.eeprom.issued(start) =~= Seq::empty());
                lemma_plan_start(Seq::empty(), offset as nat, bytes@, page_size as nat);
            }
            return Err(Error::TooMuchData);
        }
        let r1 = self.open();
        let ghost s1 = self.eeprom;
        let ghost opened = s1.issued(start);
        proof {
            lemma_open_close_quiet(variant);
            lemma_bursts_script(Seq::empty(), opened, open_script(variant), halt_of(r1).unwrap());
            assert(Seq::<Op>::empty() + opened =~= opened);
            assert(bursts(opened) + whole =~= whole);
        }
        if let Err(e) = r1 {
            proof {
                lemma_plan_start(bursts(opened), offset as nat, bytes@, page_size as nat);
            }
            return Err(e);
        }
        let r2 = self.write_bursts(offset, bytes, Ghost(opened));
        let ghost s2 = self.eeprom;
        proof {
            lemma_since_parts(start.trace(), s1.trace(), s2.trace());
            lemma_since_split(start.trace(), s1.trace(), s2.trace());
            lemma_plan_start(bursts(s2.issued(start)), offset as nat, bytes@, page_size as nat);
            assert(s2.issued(start).take(opened.len() as int) =~= opened);
            assert(s2.issued(start).skip(opened.len() as int) =~= s2.issued(s1));
        }
        if let Err(e) = r2 {
            return Err(e);
        }
        let r3 = self.close();
        proof {
            let closed = self.eeprom.issued(s2);
            lemma_since_parts(start.trace(), s2.trace(), self.eeprom.trace());
            lemma_since_split(start.trace(), s2.trace(), self.eeprom.trace());
            let ops = self.eeprom.issued(start);
            assert(bursts(ops) == bursts(s2.issued(start))) by {
                lemma_open_close_quiet(variant);
                lemma_bursts_script(
                    s2.issued(start),
                    closed,
                    close_script(variant),
                    halt_of(r3).unwrap(),
                );
            }
            assert(bursts(s2.issued(start)) == whole);
            assert(ops.take(opened.len() as int) =~= opened);
            if r3 is Err {
                let m = s2.issued(start).len() as int;
                assert(ops.subrange(opened.len() as int, m) =~= s2.issued(s1));
                assert(ops.skip(m) =~= closed);
                assert(performs(ops.skip(m), close_script(variant), halt_of(r3).unwrap()));
            }
            if r3 is Ok {
                assert(ops.subrange(opened.len() as int, ops.len() - closed.len()) =~= s2.issued(
                    s1,
                ));
            }
        }
        r3
    }
}

} // verus!
