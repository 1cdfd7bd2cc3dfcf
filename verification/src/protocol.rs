use vstd::prelude::*;

use crate::error::SpiFlashError;
use crate::interface::{Delay, Level, SpiInterface, Transfer};
use crate::types::{Command, Size, Status1, DUMMY_BYTE};

verus! {

broadcast use vstd::seq_lib::group_seq_properties;

/// Bytes in a program page.
pub const PAGE_SIZE: u32 = 256;

/// Bytes in an erase sector.
pub const SECTOR_SIZE: u32 = 4096;

/// Bytes in an erase block.
pub const BLOCK_SIZE: u32 = 65536;

/// How many busy answers a wait for the end of an erase or program accepts
/// before it gives up.
pub const STATUS_POLL_LIMIT: u64 = 0xFFFF_FFFF_FFFF_FFFF;

/// One thing the driver did: a transaction (the transfers between one select
/// and the following release of the device), or a wait of some milliseconds.
pub enum Step {
    Transaction(Seq<Transfer>),
    Wait(u32),
}

/// The transfers a step puts on the bus.
pub open spec fn step_transfers(s: Step) -> Seq<Transfer> {
    match s {
        Step::Transaction(t) => t,
        Step::Wait(_) => Seq::empty(),
    }
}

/// The selections of the device a step makes.
pub open spec fn step_selections(s: Step) -> nat {
    match s {
        Step::Transaction(_) => 1,
        Step::Wait(_) => 0,
    }
}

/// The transfers the steps put on the bus, in order.
pub open spec fn bus_of(steps: Seq<Step>) -> Seq<Transfer>
    decreases steps.len(),
{
    if steps.len() == 0 {
        Seq::empty()
    } else {
        bus_of(steps.drop_last()) + step_transfers(steps.last())
    }
}

/// The number of transactions among the steps.
pub open spec fn selections(steps: Seq<Step>) -> nat
    decreases steps.len(),
{
    if steps.len() == 0 {
        0
    } else {
        selections(steps.drop_last()) + step_selections(steps.last())
    }
}

/// For each transfer of a step taken after `before` selections, the number of
/// chip-select levels that had been driven when it went out: a transaction's
/// transfers go out after its select (level `2 * before`) and before its
/// release.
pub open spec fn step_issue_levels(s: Step, before: nat) -> Seq<nat> {
    match s {
        Step::Transaction(t) => Seq::new(t.len(), |i: int| 2 * before + 1),
        Step::Wait(_) => Seq::empty(),
    }
}

/// For each transfer of the steps, the number of chip-select levels driven
/// when it went out, when every transfer goes out while its own
/// transaction holds the device selected.
pub open spec fn framed_issue_levels(steps: Seq<Step>) -> Seq<nat>
    decreases steps.len(),
{
    if steps.len() == 0 {
        Seq::empty()
    } else {
        framed_issue_levels(steps.drop_last()) + step_issue_levels(
            steps.last(),
            selections(steps.drop_last()),
        )
    }
}

/// The transfers of steps one after the other are the transfers of each part.
pub proof fn lemma_bus_of_concat(a: Seq<Step>, b: Seq<Step>)
    ensures
        bus_of(a + b) == bus_of(a) + bus_of(b),
    decreases b.len(),
{
    if b.len() == 0 {
        assert(a + b =~= a);
        assert(bus_of(a) + bus_of(b) =~= bus_of(a));
    } else {
        lemma_bus_of_concat(a, b.drop_last());
        assert((a + b).drop_last() =~= a + b.drop_last());
        assert((a + b).last() == b.last());
        assert(bus_of(a) + bus_of(b.drop_last()) + step_transfers(b.last()) =~= bus_of(a) + bus_of(
            b,
        ));
    }
}

/// How a transfer leaves bus and device, as the bus describes them: a write
/// as `wrote` says, a read bringing in `answer` and leaving them as
/// `was_read` says. The driver makes no full-duplex exchanges.
pub open spec fn bus_transition<S: SpiInterface>(t: Transfer, before: S, after: S) -> bool {
    match t {
        Transfer::Write(tx) => before.wrote(tx, &after),
        Transfer::Read(given, got) => got == before.answer(given) && before.was_read(
            given,
            &after,
        ),
        Transfer::Exchange(_, _, _) => false,
    }
}

/// `states` are bus and device before the first of `transfers` and after each.
pub open spec fn bus_follows<S: SpiInterface>(transfers: Seq<Transfer>, states: Seq<S>) -> bool {
    &&& states.len() == transfers.len() + 1
    &&& forall|j: int|
        0 <= j < transfers.len() ==> bus_transition(#[trigger] transfers[j], states[j], states[j + 1])
}

/// A bus history grows by one transfer and the state after it.
pub proof fn lemma_bus_follows_push<S: SpiInterface>(
    transfers: Seq<Transfer>,
    states: Seq<S>,
    t: Transfer,
    s: S,
)
    requires
        bus_follows(transfers, states),
        bus_transition(t, states.last(), s),
    ensures
        bus_follows(transfers.push(t), states.push(s)),
{
    assert forall|j: int| 0 <= j < transfers.push(t).len() implies bus_transition(
        #[trigger] transfers.push(t)[j],
        states.push(s)[j],
        states.push(s)[j + 1],
    ) by {
        if j == transfers.len() {
            assert(states.push(s)[j] == states.last());
        }
    }
}

/// One more step adds its transfers to the bus and, for a transaction, one
/// more selection.
pub proof fn lemma_steps_push(steps: Seq<Step>, s: Step)
    ensures
        bus_of(steps.push(s)) == bus_of(steps) + step_transfers(s),
        selections(steps.push(s)) == selections(steps) + step_selections(s),
        framed_issue_levels(steps.push(s)) == framed_issue_levels(steps) + step_issue_levels(
            s,
            selections(steps),
        ),
{
    assert(steps.push(s).drop_last() =~= steps);
}

/// How a step leaves the timer: a transaction does not touch it, a wait of
/// `ms` milliseconds is a wait as the timer describes it.
pub open spec fn timer_step<T: Delay>(s: Step, before: T, after: T) -> bool {
    match s {
        Step::Transaction(_) => after == before,
        Step::Wait(ms) => before.waited(&after, ms),
    }
}

/// `ts` are the states of the timer before the first step and after each step.
pub open spec fn timer_chain<T: Delay>(steps: Seq<Step>, ts: Seq<T>) -> bool {
    &&& ts.len() == steps.len() + 1
    &&& forall|i: int| 0 <= i < steps.len() ==> timer_step(#[trigger] steps[i], ts[i], ts[i + 1])
}

/// A chain grows by one step and the timer state after it.
pub proof fn lemma_timer_chain_push<T: Delay>(steps: Seq<Step>, ts: Seq<T>, s: Step, t: T)
    requires
        timer_chain(steps, ts),
        timer_step(s, ts.last(), t),
    ensures
        timer_chain(steps.push(s), ts.push(t)),
{
    assert forall|i: int| 0 <= i < steps.push(s).len() implies timer_step(
        #[trigger] steps.push(s)[i],
        ts.push(t)[i],
        ts.push(t)[i + 1],
    ) by {
        if i == steps.len() {
            assert(ts.push(t)[i] == ts.last());
        }
    }
}

/// The milliseconds a wait of `us` microseconds asks the timer for.
pub open spec fn wait_ms(us: u32) -> u32 {
    ((us + 999) / 1000) as u32
}

/// The microseconds the driver waits between status polls of an erase or program.
pub const BUSY_POLL_US: u32 = 100;

/// The chip-select levels of `n` transactions: each selects, then releases the device.
pub open spec fn select_pulses(n: nat) -> Seq<Level> {
    Seq::new(2 * n, |i: int| if i % 2 == 0 { Level::Low } else { Level::High })
}

/// One more transaction adds one more select/release pair.
pub proof fn lemma_select_pulses_step(s: Seq<Level>, n: nat)
    ensures
        (s + select_pulses(n)).push(Level::Low).push(Level::High) == s + select_pulses(n + 1),
{
    assert((s + select_pulses(n)).push(Level::Low).push(Level::High) =~= s + select_pulses(n + 1));
}

/// A transaction that only clocks out one instruction byte.
pub open spec fn instruction(c: Command) -> Seq<Transfer> {
    seq![Transfer::Write(seq![c.opcode()])]
}

/// A transaction that clocks out an instruction and one argument byte.
pub open spec fn instruction_with(c: Command, arg: u8) -> Seq<Transfer> {
    seq![Transfer::Write(seq![c.opcode(), arg])]
}

/// The bytes that ask for the identification: the JEDEC ID instruction and
/// three filler bytes.
pub open spec fn identification_request() -> Seq<u8> {
    seq![Command::JEDECID.opcode(), DUMMY_BYTE, DUMMY_BYTE, DUMMY_BYTE]
}

/// The identification is asked for with the JEDEC ID instruction (9Fh) and
/// three filler bytes (A5h), and an identification transaction writes
/// exactly that before it reads four bytes.
pub proof fn lemma_identification_asks_jedec_id(tx: Seq<Transfer>)
    ensures
        identification_request() == seq![0x9Fu8, 0xA5u8, 0xA5u8, 0xA5u8],
        is_identification(tx) ==> tx[0] == Transfer::Write(seq![0x9Fu8, 0xA5u8, 0xA5u8, 0xA5u8])
            && tx[1]->Read_0.len() == 4,
{
}

/// The identification transaction: the JEDEC ID instruction and three filler
/// bytes out, four bytes in.
pub open spec fn is_identification(tx: Seq<Transfer>) -> bool {
    &&& tx.len() == 2
    &&& tx[0] == Transfer::Write(
        seq![Command::JEDECID.opcode(), DUMMY_BYTE, DUMMY_BYTE, DUMMY_BYTE],
    )
    &&& tx[1] is Read
    &&& tx[1]->Read_0 == seq![0u8, 0u8, 0u8, 0u8]
    &&& tx[1]->Read_1.len() == 4
}

/// A transaction that reads a status register `c` names: the instruction and a
/// filler byte out, two bytes in, into a buffer handed over cleared.
pub open spec fn is_register_read(tx: Seq<Transfer>, c: Command) -> bool {
    &&& tx.len() == 2
    &&& tx[0] == Transfer::Write(seq![c.opcode(), DUMMY_BYTE])
    &&& tx[1] is Read
    &&& tx[1]->Read_0 == seq![0u8, 0u8]
    &&& tx[1]->Read_1.len() == 2
}

/// The register value a register read delivered: the second byte in.
pub open spec fn register_value(tx: Seq<Transfer>) -> u8 {
    tx[1]->Read_1[1]
}

/// A step that reads status register 1.
pub open spec fn is_status_poll(s: Step) -> bool {
    &&& s is Transaction
    &&& is_register_read(s->Transaction_0, Command::ReadStatus1)
}

/// The value of status register 1 a poll delivered.
pub open spec fn poll_value(s: Step) -> u8 {
    register_value(s->Transaction_0)
}

/// Polls of status register 1 at the even places, a wait of `ms` milliseconds
/// at the odd ones: a wait after each poll but the last.
pub open spec fn is_poll_sequence(steps: Seq<Step>, ms: u32) -> bool {
    &&& steps.len() % 2 == 1
    &&& forall|i: int| 0 <= i < steps.len() && i % 2 == 0 ==> is_status_poll(#[trigger] steps[i])
    &&& forall|i: int| 0 <= i < steps.len() && i % 2 == 1 ==> #[trigger] steps[i] == Step::Wait(ms)
}

/// Whether a value of status register 1 reports an operation in progress.
pub open spec fn is_busy(status: u8) -> bool {
    status & Status1::Busy.bit() != 0
}

/// A wait that ended because the device reported it was done: status
/// register 1 polled until the first answer that is not busy, with a wait of
/// `ms` milliseconds after each busy answer.
pub open spec fn is_completed_wait(steps: Seq<Step>, ms: u32) -> bool {
    &&& is_poll_sequence(steps, ms)
    &&& forall|i: int|
        0 <= i < steps.len() - 1 && i % 2 == 0 ==> is_busy(poll_value(#[trigger] steps[i]))
    &&& !is_busy(poll_value(steps.last()))
}

/// A wait that gave up: status register 1 polled `STATUS_POLL_LIMIT` times,
/// busy each time, with a wait of `ms` milliseconds between polls.
pub open spec fn is_abandoned_wait(steps: Seq<Step>, ms: u32) -> bool {
    &&& is_poll_sequence(steps, ms)
    &&& steps.len() == 2 * STATUS_POLL_LIMIT - 1
    &&& forall|i: int| 0 <= i < steps.len() && i % 2 == 0 ==> is_busy(poll_value(#[trigger] steps[i]))
}

/// The low three bytes of an address, most significant first.
pub open spec fn address_bytes3(a: int) -> Seq<u8> {
    seq![((a / 0x10000) % 0x100) as u8, ((a / 0x100) % 0x100) as u8, (a % 0x100) as u8]
}

/// The four bytes of an address, most significant first.
pub open spec fn address_bytes4(a: int) -> Seq<u8> {
    seq![((a / 0x1000000) % 0x100) as u8] + address_bytes3(a)
}

/// The byte extractions the driver computes with masks and shifts are the
/// digits of the address in base 256.
pub proof fn lemma_address_bytes(a: u32)
    ensures
        ((a & 0xFF000000) >> 24) as u8 == ((a as int / 0x1000000) % 0x100) as u8,
        ((a & 0x00FF0000) >> 16) as u8 == ((a as int / 0x10000) % 0x100) as u8,
        ((a & 0x0000FF00) >> 8) as u8 == ((a as int / 0x100) % 0x100) as u8,
        (a & 0x000000FF) as u8 == (a as int % 0x100) as u8,
        (a >> 24) as u8 == ((a as int / 0x1000000) % 0x100) as u8,
        (a >> 16) as u8 == ((a as int / 0x10000) % 0x100) as u8,
        (a >> 8) as u8 == ((a as int / 0x100) % 0x100) as u8,
        a as u8 == (a as int % 0x100) as u8,
{
    assert(((a & 0xFF000000) >> 24) as u8 == ((a / 0x1000000) % 0x100) as u8) by (bit_vector);
    assert(((a & 0x00FF0000) >> 16) as u8 == ((a / 0x10000) % 0x100) as u8) by (bit_vector);
    assert(((a & 0x0000FF00) >> 8) as u8 == ((a / 0x100) % 0x100) as u8) by (bit_vector);
    assert((a & 0x000000FF) as u8 == (a % 0x100) as u8) by (bit_vector);
    assert((a >> 24) as u8 == ((a / 0x1000000) % 0x100) as u8) by (bit_vector);
    assert((a >> 16) as u8 == ((a / 0x10000) % 0x100) as u8) by (bit_vector);
    assert((a >> 8) as u8 == ((a / 0x100) % 0x100) as u8) by (bit_vector);
    assert(a as u8 == (a % 0x100) as u8) by (bit_vector);
}

/// The instruction and address that open a page program; devices of 512
/// blocks or more take four address bytes.
pub open spec fn program_header(a: int, wide: bool) -> Seq<u8> {
    if wide {
        seq![Command::PageProg4Add.opcode()] + address_bytes4(a)
    } else {
        seq![Command::PageProg3Add.opcode()] + address_bytes3(a)
    }
}

/// The number that bytes `b` spell, most significant first.
pub open spec fn big_endian(b: Seq<u8>) -> int
    decreases b.len(),
{
    if b.len() == 0 {
        0
    } else {
        big_endian(b.drop_last()) * 256 + b.last()
    }
}

/// For every byte of a device, the page program that starts there names it
/// exactly: the header is the three-byte instruction followed by three address
/// bytes on devices under 512 blocks, whose addresses all fit in three bytes,
/// and the four-byte instruction followed by four address bytes from 512
/// blocks on.
pub proof fn lemma_program_header_names_address(size: Size, page: int, offset: int)
    requires
        0 <= page < size.blocks() * 256,
        0 <= offset < PAGE_SIZE,
    ensures
        ({
            let wide = size.blocks() >= 512;
            let h = program_header(page * PAGE_SIZE + offset, wide);
            &&& h.len() == if wide {
                5int
            } else {
                4int
            }
            &&& h[0] == if wide {
                0x12u8
            } else {
                0x02u8
            }
            &&& big_endian(h.drop_first()) == page * PAGE_SIZE + offset
        }),
{
    let wide = size.blocks() >= 512;
    let a = page * PAGE_SIZE + offset;
    assert(0 <= a < 0x4000000) by (nonlinear_arith)
        requires
            0 <= page < size.blocks() * 256,
            size.blocks() <= 1024,
            0 <= offset < 256,
            a == page * 256 + offset,
    ;
    let x = a as u32;
    assert(((x / 0x1000000) % 0x100) * 0x1000000 + ((x / 0x10000) % 0x100) * 0x10000 + ((x
        / 0x100) % 0x100) * 0x100 + x % 0x100 == x) by (bit_vector);
    assert(x < 0x1000000 ==> ((x / 0x10000) % 0x100) * 0x10000 + ((x / 0x100) % 0x100) * 0x100
        + x % 0x100 == x) by (bit_vector);
    let h = program_header(a, wide);
    let t = h.drop_first();
    if wide {
        assert(t =~= address_bytes4(a));
        reveal_with_fuel(big_endian, 5);
        assert(t.drop_last().drop_last().drop_last().drop_last() =~= Seq::<u8>::empty());
    } else {
        assert(size.blocks() <= 256);
        assert(a < 0x1000000) by (nonlinear_arith)
            requires
                0 <= page < size.blocks() * 256,
                size.blocks() <= 256,
                0 <= offset < 256,
                a == page * 256 + offset,
        ;
        assert(t =~= address_bytes3(a));
        reveal_with_fuel(big_endian, 4);
        assert(t.drop_last().drop_last().drop_last() =~= Seq::<u8>::empty());
    }
}

/// The address bytes of an instruction spell the address, most significant
/// first, for every address they can hold.
proof fn lemma_address_bytes_spell(a: int, wide: bool)
    requires
        0 <= a,
        wide ==> a < 0x1_0000_0000,
        !wide ==> a < 0x100_0000,
    ensures
        wide ==> big_endian(address_bytes4(a)) == a,
        !wide ==> big_endian(address_bytes3(a)) == a,
{
    let x = a as u32;
    assert(((x / 0x1000000) % 0x100) * 0x1000000 + ((x / 0x10000) % 0x100) * 0x10000 + ((x
        / 0x100) % 0x100) * 0x100 + x % 0x100 == x) by (bit_vector);
    assert(x < 0x1000000 ==> ((x / 0x10000) % 0x100) * 0x10000 + ((x / 0x100) % 0x100) * 0x100
        + x % 0x100 == x) by (bit_vector);
    if wide {
        let t = address_bytes4(a);
        reveal_with_fuel(big_endian, 5);
        assert(t.drop_last().drop_last().drop_last().drop_last() =~= Seq::<u8>::empty());
    } else {
        let t = address_bytes3(a);
        reveal_with_fuel(big_endian, 4);
        assert(t.drop_last().drop_last().drop_last() =~= Seq::<u8>::empty());
    }
}

/// The frame of every erase: write enable (06h) first, write disable (04h)
/// last, and each status poll in between writes the read status register 1
/// instruction (05h) and a filler byte (A5h).
pub open spec fn is_erase_frame(txs: Seq<Step>) -> bool {
    &&& txs[0]->Transaction_0 == seq![Transfer::Write(seq![0x06u8])]
    &&& txs.last()->Transaction_0 == seq![Transfer::Write(seq![0x04u8])]
    &&& forall|i: int|
        2 <= i < txs.len() - 1 && (i - 2) % 2 == 0 ==> (#[trigger] txs[i])->Transaction_0[0]
            == Transfer::Write(seq![0x05u8, 0xA5u8])
}

proof fn lemma_erase_frame(txs: Seq<Step>, start: Seq<Transfer>)
    requires
        is_erase(txs, start),
    ensures
        is_erase_frame(txs),
{
    let w = txs.subrange(2, txs.len() - 1);
    assert forall|i: int| 2 <= i < txs.len() - 1 && (i - 2) % 2 == 0 implies (#[trigger] txs[
        i])->Transaction_0[0] == Transfer::Write(seq![0x05u8, 0xA5u8]) by {
        assert(w[i - 2] == txs[i]);
        assert(is_status_poll(w[i - 2]));
    }
}

/// Erasing sector `sector` of a device of capacity `size` sends, between
/// write enable and write disable, one transaction: the sector erase
/// instruction of the command set (20h, or 21h with four address bytes on
/// devices of 512 blocks or more), never a block or chip erase, followed by
/// the first address of the sector, most significant byte first.
pub proof fn lemma_sector_erase_sends_sector_erase(txs: Seq<Step>, size: Size, sector: int)
    requires
        0 <= sector < size.blocks() * 16,
        is_erase(
            txs,
            erase_transaction(
                Command::SectorErase3Add,
                Command::SectorErase4Add,
                sector * SECTOR_SIZE,
                size.blocks() >= 512,
            ),
        ),
    ensures
        ({
            let wide = size.blocks() >= 512;
            let t = txs[1]->Transaction_0;
            &&& is_erase_frame(txs)
            &&& t.len() == 1
            &&& t[0] is Write
            &&& t[0]->Write_0.len() == if wide {
                5int
            } else {
                4int
            }
            &&& t[0]->Write_0[0] == if wide {
                0x21u8
            } else {
                0x20u8
            }
            &&& big_endian(t[0]->Write_0.drop_first()) == sector * SECTOR_SIZE
        }),
{
    let wide = size.blocks() >= 512;
    let a = sector * SECTOR_SIZE;
    lemma_erase_frame(txs, erase_transaction(Command::SectorErase3Add, Command::SectorErase4Add, a, wide));
    assert(0 <= a < size.blocks() * 0x10000) by (nonlinear_arith)
        requires
            0 <= sector < size.blocks() * 16,
            a == sector * 4096,
    ;
    if !wide {
        assert(size.blocks() <= 256);
        assert(size.blocks() * 0x10000 <= 0x100_0000) by (nonlinear_arith)
            requires
                size.blocks() <= 256,
        ;
    } else {
        assert(size.blocks() * 0x10000 <= 0x1_0000_0000) by (nonlinear_arith)
            requires
                size.blocks() <= 1024,
        ;
    }
    lemma_address_bytes_spell(a, wide);
    let w = txs[1]->Transaction_0[0]->Write_0;
    if wide {
        assert(w.drop_first() =~= address_bytes4(a));
    } else {
        assert(w.drop_first() =~= address_bytes3(a));
    }
}

/// Erasing block `block` of a device of capacity `size` sends, between write
/// enable and write disable, one transaction: the 64 KiB block erase
/// instruction of the command set (D8h, or DCh with four address bytes on
/// devices of 512 blocks or more), never a sector or chip erase, followed by
/// the first address of the block, most significant byte first.
pub proof fn lemma_block_erase_sends_block_erase(txs: Seq<Step>, size: Size, block: int)
    requires
        0 <= block < size.blocks(),
        is_erase(
            txs,
            erase_transaction(
                Command::BlockErase3Add,
                Command::BlockErase4Add,
                block * BLOCK_SIZE,
                size.blocks() >= 512,
            ),
        ),
    ensures
        ({
            let wide = size.blocks() >= 512;
            let t = txs[1]->Transaction_0;
            &&& is_erase_frame(txs)
            &&& t.len() == 1
            &&& t[0] is Write
            &&& t[0]->Write_0.len() == if wide {
                5int
            } else {
                4int
            }
            &&& t[0]->Write_0[0] == if wide {
                0xDCu8
            } else {
                0xD8u8
            }
            &&& big_endian(t[0]->Write_0.drop_first()) == block * BLOCK_SIZE
        }),
{
    let wide = size.blocks() >= 512;
    let a = block * BLOCK_SIZE;
    lemma_erase_frame(txs, erase_transaction(Command::BlockErase3Add, Command::BlockErase4Add, a, wide));
    assert(0 <= a < size.blocks() * 0x10000) by (nonlinear_arith)
        requires
            0 <= block < size.blocks(),
            a == block * 0x10000,
    ;
    if !wide {
        assert(size.blocks() <= 256);
        assert(size.blocks() * 0x10000 <= 0x100_0000) by (nonlinear_arith)
            requires
                size.blocks() <= 256,
        ;
    } else {
        assert(size.blocks() * 0x10000 <= 0x1_0000_0000) by (nonlinear_arith)
            requires
                size.blocks() <= 1024,
        ;
    }
    lemma_address_bytes_spell(a, wide);
    let w = txs[1]->Transaction_0[0]->Write_0;
    if wide {
        assert(w.drop_first() =~= address_bytes4(a));
    } else {
        assert(w.drop_first() =~= address_bytes3(a));
    }
}

/// Erasing the whole device sends, between write enable and write disable,
/// the single byte of the chip erase instruction (60h).
pub proof fn lemma_chip_erase_sends_chip_erase(txs: Seq<Step>)
    requires
        is_erase(txs, instruction(Command::ChipErase1)),
    ensures
        is_erase_frame(txs),
        txs[1]->Transaction_0 == seq![Transfer::Write(seq![0x60u8])],
{
    lemma_erase_frame(txs, instruction(Command::ChipErase1));
}

/// Distinct instructions of the command set have distinct opcodes, so no
/// instruction can stand in for another.
pub proof fn lemma_opcodes_distinct(a: Command, b: Command)
    requires
        a != b,
    ensures
        a.opcode() != b.opcode(),
{
}

/// How many bytes of a request of `size` bytes fit from `offset` in a region
/// of `region` bytes (a page, a sector or a block): the most that fits, that
/// is no more than `size`, ending no later than the end of the region, and
/// all of `size` unless that would run past the end.
pub proof fn lemma_fill_is_what_fits(size: int, offset: int, region: int)
    requires
        0 <= size,
        0 <= offset < region,
    ensures
        0 <= region_fill(size, offset, region) <= size,
        offset + region_fill(size, offset, region) <= region,
        region_fill(size, offset, region) == size || offset + region_fill(size, offset, region)
            == region,
        region == PAGE_SIZE ==> page_fill(size, offset) == region_fill(size, offset, region),
{
}

/// The transaction that programs `data` at address `a`.
pub open spec fn program_transaction(a: int, data: Seq<u8>, wide: bool) -> Seq<Transfer> {
    seq![Transfer::Write(program_header(a, wide)), Transfer::Write(data)]
}

/// A complete page program: write enable, the program transaction, a wait
/// that saw the device finish, write disable.
pub open spec fn is_completed_program(
    txs: Seq<Step>,
    a: int,
    data: Seq<u8>,
    wide: bool,
) -> bool {
    &&& 4 <= txs.len()
    &&& txs[0] == Step::Transaction(instruction(Command::WriteEnable))
    &&& txs[1] == Step::Transaction(program_transaction(a, data, wide))
    &&& is_completed_wait(txs.subrange(2, txs.len() - 1), wait_ms(BUSY_POLL_US))
    &&& txs.last() == Step::Transaction(instruction(Command::WriteDisable))
}

/// A page program cut short by the bus: after the header, or after the data.
pub open spec fn is_interrupted_program(
    txs: Seq<Step>,
    a: int,
    data: Seq<u8>,
    wide: bool,
) -> bool {
    ||| txs == seq![
        Step::Transaction(instruction(Command::WriteEnable)),
        Step::Transaction(seq![Transfer::Write(program_header(a, wide))]),
    ]
    ||| txs == seq![
        Step::Transaction(instruction(Command::WriteEnable)),
        Step::Transaction(program_transaction(a, data, wide)),
    ]
}

/// A page program whose wait gave up.
pub open spec fn is_abandoned_program(
    txs: Seq<Step>,
    a: int,
    data: Seq<u8>,
    wide: bool,
) -> bool {
    &&& 2 <= txs.len()
    &&& txs[0] == Step::Transaction(instruction(Command::WriteEnable))
    &&& txs[1] == Step::Transaction(program_transaction(a, data, wide))
    &&& is_abandoned_wait(txs.skip(2), wait_ms(BUSY_POLL_US))
}

/// The transaction that starts erasing at address `a`: instruction `narrow`
/// with three address bytes, or, on devices of 512 blocks or more,
/// instruction `wide_c` with four.
pub open spec fn erase_transaction(narrow: Command, wide_c: Command, a: int, wide: bool) -> Seq<
    Transfer,
> {
    if wide {
        seq![Transfer::Write(seq![wide_c.opcode()] + address_bytes4(a))]
    } else {
        seq![Transfer::Write(seq![narrow.opcode()] + address_bytes3(a))]
    }
}

/// An erase: write enable, the erase transaction `start`, a wait that saw the
/// device finish or gave up, write disable.
pub open spec fn is_erase(txs: Seq<Step>, start: Seq<Transfer>) -> bool {
    &&& 4 <= txs.len()
    &&& txs[0] == Step::Transaction(instruction(Command::WriteEnable))
    &&& txs[1] == Step::Transaction(start)
    &&& is_completed_wait(txs.subrange(2, txs.len() - 1), wait_ms(BUSY_POLL_US))
        || is_abandoned_wait(txs.subrange(2, txs.len() - 1), wait_ms(BUSY_POLL_US))
    &&& txs.last() == Step::Transaction(instruction(Command::WriteDisable))
}

/// The number of bytes of a request of `size` bytes that fit in a region of
/// `region` bytes from `offset` on.
pub open spec fn region_fill(size: int, offset: int, region: int) -> int {
    if size > region - offset {
        region - offset
    } else {
        size
    }
}

/// The number of bytes of a program request that fit in the page from `offset` on.
pub open spec fn page_fill(size: int, offset: int) -> int {
    if size > PAGE_SIZE - offset {
        PAGE_SIZE - offset
    } else {
        size
    }
}

/// What a request to program `size` bytes of `data` at `offset` in page
/// `page` sent, given the result it gave: nothing when the page or the offset
/// is out of range; else a program of the bytes that fit in the page,
/// complete, cut short by the bus, or abandoned, as the result says.
pub open spec fn is_program_outcome<E1, E2>(
    txs: Seq<Step>,
    page: int,
    offset: int,
    size: int,
    data: Seq<u8>,
    page_count: int,
    wide: bool,
    r: Result<(), SpiFlashError<E1, E2>>,
) -> bool {
    if page >= page_count || offset >= PAGE_SIZE {
        &&& r matches Err(SpiFlashError::Protocol)
        &&& txs.len() == 0
    } else {
        let a = page * PAGE_SIZE + offset;
        let d = data.take(page_fill(size, offset));
        match r {
            Ok(_) => is_completed_program(txs, a, d, wide),
            Err(SpiFlashError::Spi(_)) => is_interrupted_program(txs, a, d, wide),
            Err(SpiFlashError::Protocol) => is_abandoned_program(txs, a, d, wide),
            Err(SpiFlashError::Io(_)) => false,
        }
    }
}

/// What the bus returned for a page program that sent its transactions
/// `txs`, the bus having returned `n` results before, given the result:
/// header and data acknowledged when it succeeded or its wait gave up; when
/// it failed on the bus, the failing transfer (header or data) returned that
/// very error and was the last one, and a failing data transfer followed an
/// acknowledged header.
pub open spec fn is_program_answered<E, E2>(
    results: Seq<Result<(), E>>,
    n: int,
    txs: Seq<Step>,
    in_range: bool,
    r: Result<(), SpiFlashError<E, E2>>,
) -> bool {
    match r {
        Ok(_) => results[n + 1] is Ok && results[n + 2] is Ok,
        Err(SpiFlashError::Spi(e)) => if txs[1]->Transaction_0.len() == 1 {
            results.len() == n + 2 && results[n + 1] == Err::<(), E>(e)
        } else {
            &&& results.len() == n + 3
            &&& results[n + 1] is Ok
            &&& results[n + 2] == Err::<(), E>(e)
        },
        Err(SpiFlashError::Protocol) => in_range ==> results[n + 1] is Ok && results[n + 2] is Ok,
        Err(SpiFlashError::Io(_)) => false,
    }
}

/// A bus error a request returned is one the bus itself returned: some
/// transfer after the first `n` results returned that very error.
pub open spec fn is_bus_reported<E, E2>(
    results: Seq<Result<(), E>>,
    n: int,
    r: Result<(), SpiFlashError<E, E2>>,
) -> bool {
    r matches Err(SpiFlashError::Spi(e)) ==> exists|j: int|
        n <= j < results.len() && #[trigger] results[j] == Err::<(), E>(e)
}

/// The length of the first piece of `[a, a + len)`: up to the end of the
/// page that holds `a`.
pub open spec fn first_chunk_len(a: nat, len: nat) -> nat {
    let room = (PAGE_SIZE - a % (PAGE_SIZE as nat)) as nat;
    if len <= room {
        len
    } else {
        room
    }
}

/// The pieces `[a, a + len)` splits into at page boundaries, as (address, length).
pub open spec fn page_chunks(a: nat, len: nat) -> Seq<(nat, nat)>
    decreases len,
{
    if len == 0 {
        Seq::empty()
    } else {
        let first = first_chunk_len(a, len);
        seq![(a, first)] + page_chunks(a + first, (len - first) as nat)
    }
}

/// The first piece, then the pieces of what is left.
pub proof fn lemma_page_chunks_unfold(a: nat, len: nat)
    requires
        len > 0,
    ensures
        page_chunks(a, len).len() > 0,
        page_chunks(a, len)[0] == (a, first_chunk_len(a, len)),
        page_chunks(a, len).drop_first() == page_chunks(
            a + first_chunk_len(a, len),
            (len - first_chunk_len(a, len)) as nat,
        ),
        0 < first_chunk_len(a, len) <= len,
{
    let first = first_chunk_len(a, len);
    assert(page_chunks(a, len) == seq![(a, first)] + page_chunks(a + first, (len - first) as nat));
    assert(page_chunks(a, len).drop_first() =~= page_chunks(a + first, (len - first) as nat));
}

/// Laws of the split into pages: the pieces are not empty, each stays within
/// one page, each after the first starts a page, each starts where the one
/// before ended, and together they run from `a` to `a + len`.
pub proof fn lemma_page_chunks_tile(a: nat, len: nat)
    ensures
        len == 0 <==> page_chunks(a, len).len() == 0,
        forall|i: int|
            0 <= i < page_chunks(a, len).len() ==> 0 < (#[trigger] page_chunks(a, len)[i]).1 && page_chunks(
                a,
                len,
            )[i].0 % (PAGE_SIZE as nat) + page_chunks(a, len)[i].1 <= PAGE_SIZE,
        forall|i: int|
            0 < i < page_chunks(a, len).len() ==> (#[trigger] page_chunks(a, len)[i]).0 % (
            PAGE_SIZE as nat) == 0,
        forall|i: int|
            0 <= i < page_chunks(a, len).len() - 1 ==> (#[trigger] page_chunks(a, len)[i + 1]).0
                == page_chunks(a, len)[i].0 + page_chunks(a, len)[i].1,
        len > 0 ==> page_chunks(a, len)[0].0 == a,
        len > 0 ==> page_chunks(a, len).last().0 + page_chunks(a, len).last().1 == a + len,
        forall|i: int|
            0 <= i < page_chunks(a, len).len() ==> a <= (#[trigger] page_chunks(a, len)[i]).0
                && page_chunks(a, len)[i].0 + page_chunks(a, len)[i].1 <= a + len,
    decreases len,
{
    if len > 0 {
        lemma_page_chunks_unfold(a, len);
        let first = first_chunk_len(a, len);
        let rest = page_chunks(a + first, (len - first) as nat);
        lemma_page_chunks_tile(a + first, (len - first) as nat);
        let all = page_chunks(a, len);
        assert(all == seq![(a, first)] + rest);
        assert forall|i: int| 0 < i < all.len() implies all[i] == rest[i - 1] by {}
        if len - first > 0 {
            assert((a + first) % (PAGE_SIZE as nat) == 0);
        }
    }
}

/// The slices of `data` (which starts at address `base`) that the pieces
/// `chunks` cover, in order.
pub open spec fn chunk_data(chunks: Seq<(nat, nat)>, base: nat, data: Seq<u8>) -> Seq<Seq<u8>> {
    chunks.map_values(|c: (nat, nat)| data.subrange(c.0 - base, c.0 - base + c.1))
}

/// Written one after the other, the slices of the pieces of `[a, a + len)`
/// are exactly the bytes of `data` from `a` to `a + len`.
pub proof fn lemma_page_chunks_data(a: nat, len: nat, base: nat, data: Seq<u8>)
    requires
        base <= a,
        a - base + len <= data.len(),
    ensures
        chunk_data(page_chunks(a, len), base, data).flatten() == data.subrange(
            a - base,
            a - base + len,
        ),
    decreases len,
{
    let all = page_chunks(a, len);
    if len == 0 {
        assert(chunk_data(all, base, data) =~= Seq::<Seq<u8>>::empty());
        assert(data.subrange(a - base, a - base + len) =~= Seq::<u8>::empty());
    } else {
        lemma_page_chunks_unfold(a, len);
        let first = first_chunk_len(a, len);
        let rest = page_chunks(a + first, (len - first) as nat);
        lemma_page_chunks_data(a + first, (len - first) as nat, base, data);
        let pieces = chunk_data(all, base, data);
        assert(pieces.drop_first() =~= chunk_data(rest, base, data));
        assert(pieces.first() == data.subrange(a - base, a - base + first));
        assert(data.subrange(a - base, a - base + len) =~= data.subrange(a - base, a - base + first)
            + data.subrange(a - base + first, a - base + len));
    }
}

/// Whether `txs` is a complete program of piece `c` of `data`, which starts at address `base`.
pub open spec fn is_completed_chunk(
    txs: Seq<Step>,
    c: (nat, nat),
    base: nat,
    data: Seq<u8>,
    page_count: int,
    wide: bool,
) -> bool {
    &&& c.0 / (PAGE_SIZE as nat) < page_count
    &&& is_completed_program(txs, c.0 as int, data.subrange(c.0 - base, c.0 - base + c.1), wide)
}

/// `parts` cuts `txs` into one run of transactions per piece tried: a
/// complete program of each piece of `chunks` but the last tried, whose run
/// is complete when the request succeeded and is the outcome of the failure
/// otherwise.
pub open spec fn is_chunked_run<E1, E2>(
    parts: Seq<Seq<Step>>,
    txs: Seq<Step>,
    chunks: Seq<(nat, nat)>,
    base: nat,
    data: Seq<u8>,
    page_count: int,
    wide: bool,
    r: Result<(), SpiFlashError<E1, E2>>,
) -> bool {
    &&& txs == parts.flatten()
    &&& parts.len() <= chunks.len()
    &&& forall|i: int|
        0 <= i < parts.len() - 1 ==> is_completed_chunk(
            #[trigger] parts[i],
            chunks[i],
            base,
            data,
            page_count,
            wide,
        )
    &&& match r {
        Ok(_) => {
            &&& parts.len() == chunks.len()
            &&& parts.len() > 0 ==> is_completed_chunk(
                parts.last(),
                chunks.last(),
                base,
                data,
                page_count,
                wide,
            )
        },
        Err(_) => {
            let c = chunks[parts.len() - 1];
            &&& parts.len() > 0
            &&& is_program_outcome(
                parts.last(),
                (c.0 / (PAGE_SIZE as nat)) as int,
                (c.0 % (PAGE_SIZE as nat)) as int,
                c.1 as int,
                data.subrange(c.0 - base, c.0 - base + c.1),
                page_count,
                wide,
                r,
            )
        },
    }
}

/// What a request to program the pieces `chunks` of `data` (which starts at
/// address `base`) one page at a time sent, given its result: a complete
/// program of each piece when it succeeded; when it failed, complete programs
/// of the first pieces and then the outcome of the piece that failed.
pub open spec fn is_chunked_outcome<E1, E2>(
    txs: Seq<Step>,
    chunks: Seq<(nat, nat)>,
    base: nat,
    data: Seq<u8>,
    page_count: int,
    wide: bool,
    r: Result<(), SpiFlashError<E1, E2>>,
) -> bool {
    exists|parts: Seq<Seq<Step>>|
        #[trigger] is_chunked_run(parts, txs, chunks, base, data, page_count, wide, r)
}

/// The bytes a page program transaction carries.
pub open spec fn program_payload(txs: Seq<Step>) -> Seq<u8> {
    txs[1]->Transaction_0[1]->Write_0
}

/// A successful write of `[a, a + len)` programs exactly the data: the
/// payloads of its page programs, in order, are the bytes `data[..len]`, and
/// each program names the address of the piece it carries.
pub proof fn lemma_chunked_write_programs_data<E1, E2>(
    txs: Seq<Step>,
    a: nat,
    len: nat,
    data: Seq<u8>,
    page_count: int,
    wide: bool,
)
    requires
        len <= data.len(),
        is_chunked_outcome(
            txs,
            page_chunks(a, len),
            a,
            data,
            page_count,
            wide,
            Ok::<(), SpiFlashError<E1, E2>>(()),
        ),
    ensures
        exists|parts: Seq<Seq<Step>>|
            {
                &&& #[trigger] is_chunked_run(
                    parts,
                    txs,
                    page_chunks(a, len),
                    a,
                    data,
                    page_count,
                    wide,
                    Ok::<(), SpiFlashError<E1, E2>>(()),
                )
                &&& parts.map_values(|p: Seq<Step>| program_payload(p)).flatten()
                    == data.take(len as int)
                &&& forall|i: int|
                    0 <= i < parts.len() ==> (#[trigger] parts[i])[1]->Transaction_0[0] == Transfer::Write(
                        program_header(page_chunks(a, len)[i].0 as int, wide),
                    )
            },
{
    let chunks = page_chunks(a, len);
    let parts = choose|parts: Seq<Seq<Step>>|
        #[trigger] is_chunked_run(
            parts,
            txs,
            chunks,
            a,
            data,
            page_count,
            wide,
            Ok::<(), SpiFlashError<E1, E2>>(()),
        );
    assert forall|i: int| 0 <= i < parts.len() implies is_completed_chunk(
        #[trigger] parts[i],
        chunks[i],
        a,
        data,
        page_count,
        wide,
    ) by {
        if i == parts.len() - 1 {
            assert(parts[i] == parts.last());
        }
    }
    let payloads = parts.map_values(|p: Seq<Step>| program_payload(p));
    assert(payloads =~= chunk_data(chunks, a, data));
    lemma_page_chunks_data(a, len, a, data);
    assert(data.subrange(0, len as int) =~= data.take(len as int));
}

/// A successful program of `size` bytes of `data` at `offset` in page `page`
/// of a device of capacity `size_cap` sends write enable (06h); then, in one
/// transaction, the page program instruction (02h, or 12h with four address
/// bytes on devices of 512 blocks or more) naming the byte address and the
/// first `n` bytes of `data`, where `n` is the most that fits: no more than
/// `size`, ending no later than the end of the page, and all of `size` unless
/// that would cross it; then status polls (05h) and write disable (04h).
pub proof fn lemma_page_program_sends_what_fits<E1, E2>(
    txs: Seq<Step>,
    size_cap: Size,
    page: int,
    offset: int,
    size: int,
    data: Seq<u8>,
)
    requires
        0 <= page < size_cap.blocks() * 256,
        0 <= offset < PAGE_SIZE,
        0 <= size <= data.len(),
        is_program_outcome(
            txs,
            page,
            offset,
            size,
            data,
            size_cap.blocks() * 256,
            size_cap.blocks() >= 512,
            Ok::<(), SpiFlashError<E1, E2>>(()),
        ),
    ensures
        ({
            let wide = size_cap.blocks() >= 512;
            let t = txs[1]->Transaction_0;
            let n = program_payload(txs).len() as int;
            &&& is_erase_frame(txs)
            &&& t.len() == 2
            &&& t[0] is Write
            &&& t[0]->Write_0[0] == if wide {
                0x12u8
            } else {
                0x02u8
            }
            &&& big_endian(t[0]->Write_0.drop_first()) == page * PAGE_SIZE + offset
            &&& 0 <= n <= size
            &&& offset + n <= PAGE_SIZE
            &&& n == size || offset + n == PAGE_SIZE
            &&& program_payload(txs) == data.take(n)
        }),
{
    let wide = size_cap.blocks() >= 512;
    let a = page * PAGE_SIZE + offset;
    let d = data.take(page_fill(size, offset));
    lemma_program_header_names_address(size_cap, page, offset);
    let w = txs.subrange(2, txs.len() - 1);
    assert forall|i: int| 2 <= i < txs.len() - 1 && (i - 2) % 2 == 0 implies (#[trigger] txs[
        i])->Transaction_0[0] == Transfer::Write(seq![0x05u8, 0xA5u8]) by {
        assert(w[i - 2] == txs[i]);
        assert(is_status_poll(w[i - 2]));
    }
    assert(program_payload(txs) == d);
}

/// A successful write of `size` bytes of `data` into a region of `region`
/// bytes (a sector or a block) from `offset` on, with the region's byte at
/// `offset` at address `base`, programs exactly the first `n` bytes of
/// `data`, in page pieces from `base` on, where `n` is the most that fits: no
/// more than `size`, ending no later than the end of the region, and all of
/// `size` unless that would run past it.
pub proof fn lemma_region_write_programs_what_fits<E1, E2>(
    txs: Seq<Step>,
    base: nat,
    size: int,
    offset: int,
    region: int,
    data: Seq<u8>,
    page_count: int,
    wide: bool,
)
    requires
        0 <= offset < region,
        0 <= size <= data.len(),
        is_chunked_outcome(
            txs,
            page_chunks(base, region_fill(size, offset, region) as nat),
            base,
            data,
            page_count,
            wide,
            Ok::<(), SpiFlashError<E1, E2>>(()),
        ),
    ensures
        ({
            let n = region_fill(size, offset, region);
            &&& 0 <= n <= size
            &&& offset + n <= region
            &&& n == size || offset + n == region
            &&& exists|parts: Seq<Seq<Step>>|
                {
                    &&& #[trigger] is_chunked_run(
                        parts,
                        txs,
                        page_chunks(base, n as nat),
                        base,
                        data,
                        page_count,
                        wide,
                        Ok::<(), SpiFlashError<E1, E2>>(()),
                    )
                    &&& parts.map_values(|p: Seq<Step>| program_payload(p)).flatten()
                        == data.take(n)
                }
        }),
{
    lemma_fill_is_what_fits(size, offset, region);
    let n = region_fill(size, offset, region);
    lemma_chunked_write_programs_data::<E1, E2>(txs, base, n as nat, data, page_count, wide);
}

/// Whether `data` (which starts at address `base`) holds every piece of
/// `chunks` a request reaches: a piece is reached when every piece before it
/// lies in a page below `page_count`.
#[verifier::opaque]
pub open spec fn covers_reached(
    chunks: Seq<(nat, nat)>,
    base: nat,
    data_len: int,
    page_count: int,
) -> bool {
    forall|k: int|
        0 <= k < chunks.len() && (forall|j: int|
            0 <= j < k ==> (#[trigger] chunks[j]).0 / (PAGE_SIZE as nat) < page_count)
            ==> (#[trigger] chunks[k]).0 - base + chunks[k].1 <= data_len
}

/// The pieces a write of `len` bytes at address `a` programs: split at page
/// boundaries, and a single empty piece when there is nothing to write.
pub open spec fn address_chunks(a: nat, len: nat) -> Seq<(nat, nat)> {
    if len == 0 {
        seq![(a, 0nat)]
    } else {
        page_chunks(a, len)
    }
}

/// A write of a region (sector or block) from an offset inside it is,
/// for a request of at least one byte, the same traffic as a write of the
/// same bytes at the address where they start: the same pieces, the same
/// buffer requirement, and the same outcome for every result.
pub proof fn lemma_region_write_is_address_write<E1, E2>(
    txs: Seq<Step>,
    a: nat,
    len: nat,
    data: Seq<u8>,
    page_count: int,
    wide: bool,
    r: Result<(), SpiFlashError<E1, E2>>,
)
    requires
        len > 0,
    ensures
        address_chunks(a, len) == page_chunks(a, len),
        covers_reached(page_chunks(a, len), a, data.len() as int, page_count) == covers_reached(
            address_chunks(a, len),
            a,
            data.len() as int,
            page_count,
        ),
        is_chunked_outcome(txs, page_chunks(a, len), a, data, page_count, wide, r)
            == is_chunked_outcome(txs, address_chunks(a, len), a, data, page_count, wide, r),
{
}

} // verus!
