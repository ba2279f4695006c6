//! How a write is split into bursts, and how the bursts are found again in
//! the record of what the driver asked of the hardware.

use crate::eeprom25x::{be_bytes, command_word, status_frame, write_script};
use crate::hardware::{framed, Action, Op};
use crate::register::Instruction;
use vstd::arithmetic::div_mod::{lemma_fundamental_div_mod, lemma_fundamental_div_mod_converse};
use vstd::prelude::*;

verus! {

/// One burst of a write: the bytes of `data`, written from `address` on
/// inside one chip-select window.
pub struct Burst {
    pub address: nat,
    pub data: Seq<u8>,
}

/// The length of the first burst of a write of `remaining` bytes at `offset`:
/// what is left of the page that `offset` lies in, or all of the bytes where
/// they are fewer.
pub open spec fn first_chunk(offset: nat, remaining: nat, page: nat) -> nat {
    let room = (page - offset % page) as nat;
    if remaining < room {
        remaining
    } else {
        room
    }
}

/// The bursts into which a write of `data` at `offset` is split on a device
/// with pages of `page` bytes: each burst ends where its page ends, or where
/// the data ends.
pub open spec fn plan(offset: nat, data: Seq<u8>, page: nat) -> Seq<Burst>
    decreases data.len(),
{
    let chunk = first_chunk(offset, data.len(), page);
    if data.len() == 0 || chunk == 0 {
        Seq::empty()
    } else {
        seq![Burst { address: offset, data: data.take(chunk as int) }] + plan(
            offset + chunk,
            data.skip(chunk as int),
            page,
        )
    }
}

/// The number of pages that `length` bytes from `offset` on lie in.
pub open spec fn pages_touched(offset: nat, length: nat, page: nat) -> int {
    if length == 0 {
        0
    } else {
        (offset + length - 1) / (page as int) - (offset as int) / (page as int) + 1
    }
}

/// Whether `header` is the command of an addressed write.
pub open spec fn is_write_header(header: Seq<u8>) -> bool {
    header.len() == 4 && header[0] == Instruction::Write.code()
}

/// The address that a four-byte command carries.
pub open spec fn header_address(header: Seq<u8>) -> nat {
    (header[1] as nat) * 0x1_0000 + (header[2] as nat) * 0x100 + (header[3] as nat)
}

/// The bursts that a record holds, oldest first: each place where the command
/// of an addressed write was sent and a second piece of data right after it.
pub open spec fn bursts(ops: Seq<Op>) -> Seq<Burst>
    decreases ops.len(),
{
    if ops.len() < 2 {
        Seq::empty()
    } else {
        let earlier = bursts(ops.drop_last());
        match (ops[ops.len() - 2].action, ops.last().action) {
            (Action::Write { sent: header }, Action::Write { sent: data }) => {
                if is_write_header(header) {
                    earlier.push(Burst { address: header_address(header), data })
                } else {
                    earlier
                }
            },
            _ => earlier,
        }
    }
}

/// Actions that send nothing without receiving add no burst to a record.
pub proof fn lemma_bursts_quiet(record: Seq<Op>, more: Seq<Op>)
    requires
        forall|i: int| 0 <= i < more.len() ==> !(#[trigger] more[i]).action.is_write(),
    ensures
        bursts(record + more) == bursts(record),
    decreases more.len(),
{
    if more.len() == 0 {
        assert(record + more =~= record);
    } else {
        let whole = record + more;
        assert(whole.drop_last() =~= record + more.drop_last());
        assert(whole.last() == more.last());
        assert(!more[more.len() - 1].action.is_write());
        lemma_bursts_quiet(record, more.drop_last());
        if whole.len() < 2 {
            assert(record.len() == 0);
        }
    }
}

/// The command of a write to an address below 2^24 carries that address.
pub proof fn lemma_header_address(address: u32)
    requires
        address < 0x100_0000,
    ensures
        is_write_header(be_bytes(command_word(Instruction::Write.code(), address))),
        header_address(be_bytes(command_word(Instruction::Write.code(), address))) == address,
{
    let w = command_word(Instruction::Write.code(), address);
    assert(w == (2u32 << 24) | (address & 0x00ff_ffff));
    let b0 = (w >> 24) as u8;
    let b1 = (w >> 16) as u8;
    let b2 = (w >> 8) as u8;
    let b3 = w as u8;
    assert(address < 0x100_0000 && w == (2u32 << 24) | (address & 0x00ff_ffff) ==> (w >> 24) as u8
        == 2u8 && ((w >> 16) as u8 as u32) * 0x1_0000 + ((w >> 8) as u8 as u32) * 0x100 + (
    w as u8 as u32) == address) by (bit_vector);
}

/// An addressed write adds one burst to a record as soon as its data is
/// sent: the address and the data of the write.
pub proof fn lemma_bursts_write(record: Seq<Op>, more: Seq<Op>, address: u32, data: Seq<u8>)
    requires
        address < 0x100_0000,
        more.len() == 3,
        forall|i: int| 0 <= i < 3 ==> (#[trigger] more[i]).action == write_script(address, data)[i],
    ensures
        bursts(record + more) == bursts(record).push(Burst { address: address as nat, data }),
        bursts(record + more.take(2)) == bursts(record),
{
    lemma_header_address(address);
    let three = record + more;
    let two = record + more.take(2);
    let one = record + more.take(1);
    assert(three.drop_last() =~= two);
    assert(two.drop_last() =~= one);
    assert(one.drop_last() =~= record);
    assert(three.last() == more[2]);
    assert(three[three.len() - 2] == more[1]);
    assert(two.last() == more[1]);
    assert(two[two.len() - 2] == more[0]);
    assert(one.last() == more[0]);
    assert(bursts(two) == bursts(one));
    assert(bursts(one) == bursts(record)) by {
        if one.len() >= 2 {
        } else {
            assert(record.len() == 0);
        }
    }
}

/// The status frame exchanged `count` times in a row, each in a chip-select
/// window of its own.
pub open spec fn poll_script(count: nat) -> Seq<Action>
    decreases count,
{
    if count == 0 {
        Seq::empty()
    } else {
        poll_script((count - 1) as nat) + framed(status_frame())
    }
}

/// A run of polls is three actions for each poll, none of which sends
/// without receiving.
pub proof fn lemma_poll_script(count: nat)
    ensures
        poll_script(count).len() == 3 * count,
        forall|i: int| 0 <= i < 3 * count ==> !(#[trigger] poll_script(count)[i]).is_write(),
    decreases count,
{
    if count > 0 {
        lemma_poll_script((count - 1) as nat);
    }
}

/// The first burst of a write holds at least one byte and ends inside the
/// page in which it starts; where data is left after it, it ends where its
/// page ends.
pub proof fn lemma_first_chunk(offset: nat, remaining: nat, page: nat)
    requires
        page > 0,
        remaining > 0,
    ensures
        1 <= first_chunk(offset, remaining, page) <= remaining,
        (offset + first_chunk(offset, remaining, page) - 1) / (page as int) == (offset as int) / (
        page as int),
        first_chunk(offset, remaining, page) < remaining ==> ((offset + first_chunk(
            offset,
            remaining,
            page,
        )) as int) / (page as int) == (offset as int) / (page as int) + 1,
{
    let p = page as int;
    let chunk = first_chunk(offset, remaining, page);
    lemma_fundamental_div_mod(offset as int, p);
    let q = offset as int / p;
    let m = offset as int % p;
    assert(0 <= m < p);
    assert(offset + chunk - 1 == q * p + (m + chunk - 1)) by (nonlinear_arith)
        requires
            offset == p * q + m,
    ;
    lemma_fundamental_div_mod_converse(offset + chunk - 1, p, q, m + chunk - 1);
    if chunk < remaining {
        assert(offset + chunk == (q + 1) * p + 0) by (nonlinear_arith)
            requires
                offset == p * q + m,
                chunk == p - m,
        ;
        lemma_fundamental_div_mod_converse((offset + chunk) as int, p, q + 1, 0);
    }
}

/// A plan for data that is not empty is its first burst, followed by the plan
/// for the rest of the data.
pub proof fn lemma_plan_unfold(offset: nat, data: Seq<u8>, page: nat)
    requires
        page > 0,
        data.len() > 0,
    ensures
        plan(offset, data, page) == seq![
            Burst {
                address: offset,
                data: data.take(first_chunk(offset, data.len(), page) as int),
            },
        ] + plan(
            offset + first_chunk(offset, data.len(), page),
            data.skip(first_chunk(offset, data.len(), page) as int),
            page,
        ),
{
    lemma_first_chunk(offset, data.len(), page);
}

/// A plan has as many bursts as the data touches pages.
pub proof fn lemma_plan_count(offset: nat, data: Seq<u8>, page: nat)
    requires
        page > 0,
    ensures
        plan(offset, data, page).len() == pages_touched(offset, data.len(), page),
    decreases data.len(),
{
    if data.len() > 0 {
        let chunk = first_chunk(offset, data.len(), page);
        let rest = data.skip(chunk as int);
        lemma_first_chunk(offset, data.len(), page);
        lemma_plan_unfold(offset, data, page);
        lemma_plan_count(offset + chunk, rest, page);
        if rest.len() > 0 {
            assert(offset + chunk + rest.len() - 1 == offset + data.len() - 1);
        }
    }
}

/// What holds of burst `i` of the plan for `data` at `offset`: it holds at
/// least one byte, it lies inside one page, and it carries the bytes of
/// `data` that belong at its address.
pub open spec fn burst_fits(burst: Burst, offset: nat, data: Seq<u8>, page: nat) -> bool {
    &&& burst.data.len() >= 1
    &&& (burst.address as int) / (page as int) == (burst.address + burst.data.len() - 1) / (
    page as int)
    &&& offset <= burst.address
    &&& burst.address + burst.data.len() <= offset + data.len()
    &&& burst.data == data.subrange(
        burst.address - offset,
        burst.address - offset + burst.data.len(),
    )
}

/// Every burst of a plan holds at least one byte, lies inside one page and
/// carries the bytes of the data that belong at its address.
pub proof fn lemma_plan_fits(offset: nat, data: Seq<u8>, page: nat)
    requires
        page > 0,
    ensures
        forall|i: int|
            0 <= i < plan(offset, data, page).len() ==> burst_fits(
                #[trigger] plan(offset, data, page)[i],
                offset,
                data,
                page,
            ),
    decreases data.len(),
{
    if data.len() > 0 {
        let chunk = first_chunk(offset, data.len(), page);
        let rest = data.skip(chunk as int);
        let whole = plan(offset, data, page);
        let tail = plan(offset + chunk, rest, page);
        lemma_first_chunk(offset, data.len(), page);
        lemma_plan_unfold(offset, data, page);
        lemma_plan_fits(offset + chunk, rest, page);
        assert forall|i: int| 0 <= i < whole.len() implies burst_fits(
            #[trigger] whole[i],
            offset,
            data,
            page,
        ) by {
            if i == 0 {
                assert(whole[0].data =~= data.subrange(0, chunk as int));
            } else {
                let burst = tail[i - 1];
                assert(whole[i] == burst);
                assert(burst_fits(burst, offset + chunk, rest, page));
                let from = burst.address - (offset + chunk);
                assert(rest.subrange(from, from + burst.data.len()) =~= data.subrange(
                    burst.address - offset,
                    burst.address - offset + burst.data.len(),
                ));
            }
        }
    }
}

/// The bursts of a plan follow one another without a gap: the first starts at
/// the offset, each later one where the one before it ended, and the last
/// ends where the data ends.
pub proof fn lemma_plan_contiguous(offset: nat, data: Seq<u8>, page: nat)
    requires
        page > 0,
    ensures
        data.len() > 0 ==> plan(offset, data, page).len() > 0,
        plan(offset, data, page).len() > 0 ==> plan(offset, data, page)[0].address == offset
            && plan(offset, data, page).last().address + plan(
            offset,
            data,
            page,
        ).last().data.len() == offset + data.len(),
        forall|i: int|
            0 < i < plan(offset, data, page).len() ==> (#[trigger] plan(
                offset,
                data,
                page,
            )[i]).address == plan(offset, data, page)[i - 1].address + plan(
                offset,
                data,
                page,
            )[i - 1].data.len(),
    decreases data.len(),
{
    if data.len() > 0 {
        let chunk = first_chunk(offset, data.len(), page);
        let rest = data.skip(chunk as int);
        let whole = plan(offset, data, page);
        let tail = plan(offset + chunk, rest, page);
        lemma_first_chunk(offset, data.len(), page);
        lemma_plan_unfold(offset, data, page);
        lemma_plan_contiguous(offset + chunk, rest, page);
        assert forall|i: int| 0 < i < whole.len() implies (#[trigger] whole[i]).address == whole[i
            - 1].address + whole[i - 1].data.len() by {
            assert(whole[i] == tail[i - 1]);
            if i > 1 {
                assert(whole[i - 1] == tail[i - 2]);
            }
        }
        if tail.len() > 0 {
            assert(whole.last() == tail.last());
        }
    }
}

/// The bursts with which a plan begins hold at least one byte each, lie inside
/// one page each and carry the bytes of the data that belong at their
/// addresses; and all the bursts of a plan are as many as the data touches
/// pages.
pub proof fn lemma_plan_start(found: Seq<Burst>, offset: nat, data: Seq<u8>, page: nat)
    requires
        page > 0,
        found.is_prefix_of(plan(offset, data, page)),
    ensures
        forall|i: int| 0 <= i < found.len() ==> burst_fits(#[trigger] found[i], offset, data, page),
        found == plan(offset, data, page) ==> found.len() == pages_touched(
            offset,
            data.len(),
            page,
        ),
{
    lemma_plan_fits(offset, data, page);
    lemma_plan_count(offset, data, page);
    assert forall|i: int| 0 <= i < found.len() implies burst_fits(
        #[trigger] found[i],
        offset,
        data,
        page,
    ) by {
        assert(found[i] == plan(offset, data, page)[i]);
    }
}

} // verus!
