use vstd::prelude::*;

use crate::device::SpiFlash;
use crate::error::SpiFlashError;
use crate::interface::{CsPin, Delay, Level, SpiInterface, Transfer};
use crate::protocol::{
    bus_follows, bus_of, bus_transition, is_abandoned_program, is_bus_reported, is_busy,
    is_chunked_outcome, is_chunked_run, is_completed_program, is_poll_sequence,
    is_program_answered, is_program_outcome, lemma_bus_of_concat, page_fill, poll_value,
    step_transfers, Step, PAGE_SIZE,
};
use crate::types::DUMMY_BYTE;

verus! {

/// The error the mock bus would report; it never does.
#[derive(Debug, Clone, Copy)]
pub enum MockError {
    Generic,
}

/// A chip-select pin that remembers its level.
pub struct MockCs {
    pub state_low: bool,
    pub levels: Ghost<Seq<Level>>,
}

impl MockCs {
    /// Whether the pin is driven low.
    pub open spec fn is_low(&self) -> bool {
        self.state_low
    }

    /// A pin driven high, with nothing driven yet.
    pub fn new() -> (r: Self)
        ensures
            !r.is_low(),
            r.levels() == Seq::<Level>::empty(),
    {
        Self { state_low: false, levels: Ghost(Seq::empty()) }
    }
}

impl CsPin for MockCs {
    type IoError = ();

    open spec fn levels(&self) -> Seq<Level> {
        self.levels@
    }

    fn set_low(&mut self) -> (r: Result<(), Self::IoError>)
        ensures
            r is Ok,
            final(self).is_low(),
    {
        self.state_low = true;
        proof {
            self.levels@ = self.levels@.push(Level::Low);
        }
        Ok(())
    }

    fn set_high(&mut self) -> (r: Result<(), Self::IoError>)
        ensures
            r is Ok,
            !final(self).is_low(),
    {
        self.state_low = false;
        proof {
            self.levels@ = self.levels@.push(Level::High);
        }
        Ok(())
    }
}

/// A timer that does not wait.
pub struct MockDelay;

impl Delay for MockDelay {
    /// A wait leaves the timer as it was.
    open spec fn waited(&self, after: &Self, ms: u32) -> bool {
        *after == *self
    }

    fn delay_ms(&mut self, _ms: u32) {
    }
}

/// A bus with a simulated device on it: it keeps the last bytes written,
/// follows write enable and disable, takes writes of the three status
/// registers, and answers identification and status reads.
pub struct MockSpi {
    pub last_tx: Vec<u8>,
    pub write_enabled: bool,
    pub jedec_id: [u8; 3],
    pub status1: u8,
    pub status2: u8,
    pub status3: u8,
    pub log: Ghost<Seq<Transfer>>,
    pub results: Ghost<Seq<Result<(), MockError>>>,
}

/// The state of the simulated device.
pub struct MockSpiView {
    pub last_sent: Seq<u8>,
    pub write_enabled: bool,
    pub jedec_id: Seq<u8>,
    pub status1: u8,
    pub status2: u8,
    pub status3: u8,
}

impl View for MockSpi {
    type V = MockSpiView;

    open spec fn view(&self) -> MockSpiView {
        MockSpiView {
            last_sent: self.last_tx@,
            write_enabled: self.write_enabled,
            jedec_id: self.jedec_id@,
            status1: self.status1,
            status2: self.status2,
            status3: self.status3,
        }
    }
}

impl MockSpiView {
    /// What the simulated device puts in a read buffer that holds `rx`: the
    /// identification after `9F`, the status register after `05`, `35` or
    /// `15`, when the buffer is long enough; otherwise the buffer unchanged.
    pub open spec fn response(self, rx: Seq<u8>) -> Seq<u8> {
        let last = self.last_sent;
        if last.len() == 0 {
            rx
        } else if last[0] == 0x9F {
            if rx.len() >= 4 {
                rx.update(0, 0).update(1, self.jedec_id[0]).update(2, self.jedec_id[1]).update(
                    3,
                    self.jedec_id[2],
                )
            } else {
                rx
            }
        } else if last[0] == 0x05 {
            if rx.len() >= 2 {
                rx.update(1, self.status1)
            } else {
                rx
            }
        } else if last[0] == 0x35 {
            if rx.len() >= 2 {
                rx.update(1, self.status2)
            } else {
                rx
            }
        } else if last[0] == 0x15 {
            if rx.len() >= 2 {
                rx.update(1, self.status3)
            } else {
                rx
            }
        } else {
            rx
        }
    }

    /// The state after a write of `tx`: `tx` kept; `06` enables writes, `04`
    /// disables them, and `01`, `31` or `11` with an argument byte set status
    /// register 1, 2 or 3.
    pub open spec fn after_write(self, tx: Seq<u8>) -> MockSpiView {
        MockSpiView {
            last_sent: tx,
            write_enabled: if tx.len() > 0 && tx[0] == 0x06 {
                true
            } else if tx.len() > 0 && tx[0] == 0x04 {
                false
            } else {
                self.write_enabled
            },
            jedec_id: self.jedec_id,
            status1: if tx.len() > 1 && tx[0] == 0x01 {
                tx[1]
            } else {
                self.status1
            },
            status2: if tx.len() > 1 && tx[0] == 0x31 {
                tx[1]
            } else {
                self.status2
            },
            status3: if tx.len() > 1 && tx[0] == 0x11 {
                tx[1]
            } else {
                self.status3
            },
        }
    }
}

/// The simulated device reads back what a status register write stored:
/// after `x` is written to status register 1, 2 or 3 (`01`, `31`, `11`),
/// reading that register (`05`, `35`, `15`) gives `x` in the second byte.
pub proof fn lemma_status_read_back(v: MockSpiView, x: u8, rx: Seq<u8>)
    requires
        rx.len() >= 2,
    ensures
        v.after_write(seq![0x01, x]).after_write(seq![0x05, DUMMY_BYTE]).response(rx)[1] == x,
        v.after_write(seq![0x31, x]).after_write(seq![0x35, DUMMY_BYTE]).response(rx)[1] == x,
        v.after_write(seq![0x11, x]).after_write(seq![0x15, DUMMY_BYTE]).response(rx)[1] == x,
{
}

/// Whether program data `d` sets status register 1 of the simulated device
/// to a busy value: it starts with `01` and its second byte has busy set.
pub open spec fn sets_busy(d: Seq<u8>) -> bool {
    d.len() > 1 && d[0] == 0x01 && is_busy(d[1])
}

/// The simulated device acknowledges every transfer: after `k` transfers of
/// a run, the bus has returned what it had before, then `k` times `Ok`.
pub proof fn lemma_mock_acknowledges(transfers: Seq<Transfer>, states: Seq<MockSpi>, k: int)
    requires
        bus_follows(transfers, states),
        0 <= k < states.len(),
    ensures
        states[k].results@ == states[0].results@ + Seq::new(k as nat, |i: int| Ok::<(), MockError>(())),
    decreases k,
{
    if k > 0 {
        lemma_mock_acknowledges(transfers, states, k - 1);
        assert(bus_transition(transfers[k - 1], states[k - 1], states[k]));
        assert(states[k].results@ =~= states[0].results@ + Seq::new(
            k as nat,
            |i: int| Ok::<(), MockError>(()),
        ));
    } else {
        assert(states[0].results@ =~= states[0].results@ + Seq::new(
            0nat,
            |i: int| Ok::<(), MockError>(()),
        ));
    }
}

/// On the simulated device, a page program in range succeeds when status
/// register 1 does not report busy before it and the bytes it programs do
/// not set busy: the bus acknowledges header and data, and the first poll
/// finds the device ready.
pub proof fn lemma_mock_program_succeeds<CS: CsPin, Timer: Delay>(
    before: SpiFlash<MockSpi, CS, Timer>,
    after: SpiFlash<MockSpi, CS, Timer>,
    page: int,
    offset: int,
    size: int,
    data: Seq<u8>,
    r: Result<(), SpiFlashError<MockError, CS::IoError>>,
)
    requires
        before.consistent(),
        after.consistent(),
        after.continues(before),
        0 <= page < before.info().page_count,
        0 <= offset < PAGE_SIZE,
        is_program_outcome(
            after.since(before),
            page,
            offset,
            size,
            data,
            before.info().page_count as int,
            before.info().block_count >= 512,
            r,
        ),
        is_program_answered(
            after.bus_results(),
            before.bus_results().len() as int,
            after.since(before),
            true,
            r,
        ),
        !is_busy(before.bus_device()@.status1),
        !sets_busy(data.take(page_fill(size, offset))),
    ensures
        r is Ok,
{
    let txs = after.since(before);
    let origin = before.bus_origin().len() as int;
    let sa = after.bus_states();
    let sb = before.bus_states();
    let ta = after.bus().skip(origin);
    let tb = before.bus().skip(origin);
    assert(after.steps() =~= before.steps() + txs);
    assert(ta =~= bus_of(after.steps()));
    assert(tb =~= bus_of(before.steps()));
    lemma_bus_of_concat(before.steps(), txs);
    let mb = tb.len() as int;
    assert(sb.len() == mb + 1);
    assert(sa[mb] == sb[mb]);
    match r {
        Ok(_) => {},
        Err(SpiFlashError::Spi(e)) => {
            lemma_mock_acknowledges(ta, sa, sa.len() - 1);
            lemma_mock_acknowledges(tb, sb, sb.len() - 1);
            assert(sa[0] == sb[0]);
            let n = before.bus_results().len() as int;
            assert(n >= sa[0].results@.len());
            if txs[1]->Transaction_0.len() == 1 {
                assert(after.bus_results()[n + 1] is Ok);
            } else {
                assert(after.bus_results()[n + 2] is Ok);
            }
        },
        Err(SpiFlashError::Protocol) => {
            let d = data.take(page_fill(size, offset));
            let wide = before.info().block_count >= 512;
            let a = page * PAGE_SIZE + offset;
            assert(txs.skip(2)[0] == txs[2]);
            assert(txs =~= txs.take(3) + txs.skip(3));
            lemma_bus_of_concat(txs.take(3), txs.skip(3));
            assert(txs.take(3).drop_last() =~= txs.take(2));
            assert(txs.take(2).drop_last() =~= txs.take(1));
            assert(txs.take(1).drop_last() =~= txs.take(0));
            reveal_with_fuel(bus_of, 4);
            let poll = txs[2]->Transaction_0;
            assert(bus_of(txs.take(3)) =~= seq![
                Transfer::Write(seq![0x06u8]),
                Transfer::Write(crate::protocol::program_header(a, wide)),
                Transfer::Write(d),
            ] + poll);
            assert(ta[mb] == Transfer::Write(seq![0x06u8]));
            assert(ta[mb + 1] == Transfer::Write(crate::protocol::program_header(a, wide)));
            assert(ta[mb + 2] == Transfer::Write(d));
            assert(ta[mb + 3] == poll[0]);
            assert(ta[mb + 4] == poll[1]);
            assert(bus_transition(ta[mb], sa[mb], sa[mb + 1]));
            assert(bus_transition(ta[mb + 1], sa[mb + 1], sa[mb + 2]));
            assert(bus_transition(ta[mb + 2], sa[mb + 2], sa[mb + 3]));
            assert(bus_transition(ta[mb + 3], sa[mb + 3], sa[mb + 4]));
            assert(bus_transition(ta[mb + 4], sa[mb + 4], sa[mb + 5]));
            assert(sa[mb + 2]@.status1 == sa[mb]@.status1);
        },
        Err(SpiFlashError::Io(_)) => {},
    }
}

/// Whether no byte `01` of `data` is followed by a byte with busy set, so
/// that no piece of `data` sent as program data sets status register 1 of the
/// simulated device busy.
pub open spec fn sets_busy_nowhere(data: Seq<u8>) -> bool {
    forall|i: int| 0 <= i < data.len() - 1 && #[trigger] data[i] == 0x01 ==> !is_busy(data[i + 1])
}

/// A transfer that leaves status register 1 of the simulated device not busy
/// when it was not: not a write that sets it busy.
spec fn harmless(t: Transfer) -> bool {
    t is Write ==> !sets_busy(t->Write_0)
}

/// Transfers that are all harmless.
spec fn quiet(ts: Seq<Transfer>) -> bool {
    forall|j: int| 0 <= j < ts.len() ==> harmless(#[trigger] ts[j])
}

/// No prefix of a piece of `data` sets busy.
proof fn lemma_piece_harmless(data: Seq<u8>, start: int, end: int, k: int)
    requires
        sets_busy_nowhere(data),
        0 <= start <= end <= data.len(),
        0 <= k <= end - start,
    ensures
        !sets_busy(data.subrange(start, end).take(k)),
        !sets_busy(data.subrange(start, end)),
{
    let d = data.subrange(start, end);
    if d.len() > 1 && d[0] == 0x01 {
        assert(data[start] == 0x01);
        assert(d[1] == data[start + 1]);
    }
    let e = d.take(k);
    if e.len() > 1 && e[0] == 0x01 {
        assert(e[0] == data[start]);
        assert(e[1] == data[start + 1]);
    }
}

/// The transfers of steps that each send only harmless writes.
proof fn lemma_quiet_bus(steps: Seq<Step>)
    requires
        forall|i: int| 0 <= i < steps.len() ==> quiet(step_transfers(#[trigger] steps[i])),
    ensures
        quiet(bus_of(steps)),
    decreases steps.len(),
{
    if steps.len() > 0 {
        lemma_quiet_bus(steps.drop_last());
        let front = bus_of(steps.drop_last());
        let last = step_transfers(steps.last());
        assert(quiet(last));
        assert forall|j: int| 0 <= j < bus_of(steps).len() implies harmless(#[trigger] bus_of(steps)[j]) by {
            if j < front.len() {
                assert(bus_of(steps)[j] == front[j]);
            } else {
                assert(bus_of(steps)[j] == last[j - front.len()]);
            }
        }
    }
}

/// The transfers of runs one after the other, each of harmless writes only.
proof fn lemma_quiet_flatten(parts: Seq<Seq<Step>>)
    requires
        forall|i: int| 0 <= i < parts.len() ==> quiet(bus_of(#[trigger] parts[i])),
    ensures
        quiet(bus_of(parts.flatten())),
    decreases parts.len(),
{
    if parts.len() == 0 {
        assert(bus_of(parts.flatten()) =~= Seq::<Transfer>::empty());
    } else {
        let front = parts.drop_last();
        assert forall|i: int| 0 <= i < front.len() implies quiet(bus_of(#[trigger] front[i])) by {
            assert(front[i] == parts[i]);
        }
        lemma_quiet_flatten(front);
        front.lemma_flatten_push(parts.last());
        assert(front.push(parts.last()) =~= parts);
        lemma_bus_of_concat(front.flatten(), parts.last());
        let x = bus_of(front.flatten());
        let y = bus_of(parts.last());
        assert(quiet(y));
        assert forall|j: int| 0 <= j < (x + y).len() implies harmless(#[trigger] (x + y)[j]) by {
            if j < x.len() {
                assert((x + y)[j] == x[j]);
            } else {
                assert((x + y)[j] == y[j - x.len()]);
            }
        }
    }
}

/// The steps of a wait send only harmless writes.
proof fn lemma_wait_quiet(w: Seq<Step>, ms: u32, k: int)
    requires
        is_poll_sequence(w, ms),
        0 <= k < w.len(),
    ensures
        quiet(step_transfers(w[k])),
{
    if k % 2 == 0 {
        assert(crate::protocol::is_status_poll(w[k]));
        let t = step_transfers(w[k]);
        assert forall|j: int| 0 <= j < t.len() implies harmless(#[trigger] t[j]) by {
            if j == 0 {
                assert(t[0] == Transfer::Write(seq![0x05u8, DUMMY_BYTE]));
            }
        }
    } else {
        assert(w[k] == Step::Wait(ms));
    }
}

/// A page program of data that does not set busy, complete or abandoned,
/// sends only harmless writes.
proof fn lemma_program_quiet(p: Seq<Step>, a: int, d: Seq<u8>, wide: bool)
    requires
        !sets_busy(d),
        is_completed_program(p, a, d, wide) || is_abandoned_program(p, a, d, wide),
    ensures
        quiet(bus_of(p)),
{
    let header = crate::protocol::program_header(a, wide);
    assert(header[0] == 0x02 || header[0] == 0x12);
    assert forall|k: int| 0 <= k < p.len() implies quiet(step_transfers(#[trigger] p[k])) by {
        if k == 0 {
            assert(step_transfers(p[0]) == seq![Transfer::Write(seq![0x06u8])]);
            assert(harmless(step_transfers(p[0])[0]));
        } else if k == 1 {
            let t = step_transfers(p[1]);
            assert(t == crate::protocol::program_transaction(a, d, wide));
            assert(harmless(t[0]));
            assert(harmless(t[1]));
        } else if is_completed_program(p, a, d, wide) {
            if k == p.len() - 1 {
                assert(step_transfers(p[k]) == seq![Transfer::Write(seq![0x04u8])]);
                assert(harmless(step_transfers(p[k])[0]));
            } else {
                let w = p.subrange(2, p.len() - 1);
                assert(w[k - 2] == p[k]);
                lemma_wait_quiet(w, crate::protocol::wait_ms(crate::protocol::BUSY_POLL_US), k - 2);
            }
        } else {
            let w = p.skip(2);
            assert(w[k - 2] == p[k]);
            lemma_wait_quiet(w, crate::protocol::wait_ms(crate::protocol::BUSY_POLL_US), k - 2);
        }
    }
    lemma_quiet_bus(p);
}

/// Along a run of the simulated device in which every write from state `k0`
/// on is harmless, status register 1 stays not busy from `k0` on.
proof fn lemma_mock_status_steady(transfers: Seq<Transfer>, states: Seq<MockSpi>, k0: int, k: int)
    requires
        bus_follows(transfers, states),
        0 <= k0 <= k < states.len(),
        !is_busy(states[k0]@.status1),
        forall|j: int| k0 <= j < transfers.len() ==> harmless(#[trigger] transfers[j]),
    ensures
        !is_busy(states[k]@.status1),
    decreases k - k0,
{
    if k > k0 {
        lemma_mock_status_steady(transfers, states, k0, k - 1);
        assert(bus_transition(transfers[k - 1], states[k - 1], states[k]));
        assert(harmless(transfers[k - 1]));
    }
}

/// The transfers of a step among others sit after those of the steps before it.
proof fn lemma_bus_of_at(txs: Seq<Step>, i: int)
    requires
        0 <= i < txs.len(),
    ensures
        bus_of(txs) == bus_of(txs.take(i)) + step_transfers(txs[i]) + bus_of(txs.skip(i + 1)),
{
    assert(txs =~= txs.take(i + 1) + txs.skip(i + 1));
    lemma_bus_of_concat(txs.take(i + 1), txs.skip(i + 1));
    assert(txs.take(i + 1).drop_last() =~= txs.take(i));
}

/// On the simulated device, a write of the pieces `chunks` of `data` (which
/// starts at address `base`) succeeds when every piece lies in the device and
/// in `data`, status register 1 does not report busy before it, and no byte
/// `01` of `data` is followed by a busy value: the bus acknowledges every
/// transfer, and every poll finds the device ready.
pub proof fn lemma_mock_chunked_write_succeeds<CS: CsPin, Timer: Delay>(
    before: SpiFlash<MockSpi, CS, Timer>,
    after: SpiFlash<MockSpi, CS, Timer>,
    chunks: Seq<(nat, nat)>,
    base: nat,
    data: Seq<u8>,
    r: Result<(), SpiFlashError<MockError, CS::IoError>>,
)
    requires
        before.consistent(),
        after.consistent(),
        after.continues(before),
        is_chunked_outcome(
            after.since(before),
            chunks,
            base,
            data,
            before.info().page_count as int,
            before.info().block_count >= 512,
            r,
        ),
        is_bus_reported(after.bus_results(), before.bus_results().len() as int, r),
        forall|i: int|
            0 <= i < chunks.len() ==> (#[trigger] chunks[i]).0 / (PAGE_SIZE as nat)
                < before.info().page_count && base <= chunks[i].0 && chunks[i].0 - base
                + chunks[i].1 <= data.len(),
        !is_busy(before.bus_device()@.status1),
        sets_busy_nowhere(data),
    ensures
        r is Ok,
{
    let page_count = before.info().page_count as int;
    let wide = before.info().block_count >= 512;
    let txs = after.since(before);
    let origin = before.bus_origin().len() as int;
    let sa = after.bus_states();
    let sb = before.bus_states();
    let ta = after.bus().skip(origin);
    let tb = before.bus().skip(origin);
    assert(after.steps() =~= before.steps() + txs);
    assert(ta =~= bus_of(after.steps()));
    assert(tb =~= bus_of(before.steps()));
    lemma_bus_of_concat(before.steps(), txs);
    let mb = tb.len() as int;
    assert(sb.len() == mb + 1);
    assert(sa[mb] == sb[mb]);
    let parts = choose|parts: Seq<Seq<Step>>|
        #[trigger] is_chunked_run(parts, txs, chunks, base, data, page_count, wide, r);
    match r {
        Ok(_) => {},
        Err(SpiFlashError::Spi(e)) => {
            lemma_mock_acknowledges(ta, sa, sa.len() - 1);
            lemma_mock_acknowledges(tb, sb, sb.len() - 1);
            assert(sa[0] == sb[0]);
            let n = before.bus_results().len() as int;
            let j = choose|j: int|
                n <= j < after.bus_results().len() && #[trigger] after.bus_results()[j]
                    == Err::<(), MockError>(e);
            assert(after.bus_results()[j] is Ok);
        },
        Err(SpiFlashError::Protocol) => {
            let last = parts.last();
            let c = chunks[parts.len() - 1];
            let piece = data.subrange(c.0 - base, c.0 - base + c.1);
            let d = piece.take(page_fill(c.1 as int, (c.0 % (PAGE_SIZE as nat)) as int));
            lemma_piece_harmless(data, c.0 - base, c.0 - base + c.1, page_fill(c.1 as int, (c.0 % (PAGE_SIZE as nat)) as int));
            let a = (c.0 / (PAGE_SIZE as nat)) as int * PAGE_SIZE + (c.0 % (PAGE_SIZE as nat)) as int;
            assert(is_abandoned_program(last, a, d, wide));
            assert forall|i: int| 0 <= i < parts.len() implies quiet(bus_of(#[trigger] parts[i])) by {
                if i == parts.len() - 1 {
                    lemma_program_quiet(last, a, d, wide);
                } else {
                    let ci = chunks[i];
                    lemma_piece_harmless(data, ci.0 - base, ci.0 - base + ci.1, 0);
                    lemma_program_quiet(
                        parts[i],
                        ci.0 as int,
                        data.subrange(ci.0 - base, ci.0 - base + ci.1),
                        wide,
                    );
                }
            }
            lemma_quiet_flatten(parts);
            let front = parts.drop_last();
            front.lemma_flatten_push(last);
            assert(front.push(last) =~= parts);
            let i = front.flatten().len() as int + 2;
            assert(txs[i] == last[2]);
            assert(last.skip(2)[0] == last[2]);
            lemma_bus_of_at(txs, i);
            let l = bus_of(txs.take(i)).len() as int;
            let poll = step_transfers(txs[i]);
            assert(ta[mb + l] == poll[0]);
            assert(ta[mb + l + 1] == poll[1]);
            assert forall|j: int| mb <= j < ta.len() implies harmless(#[trigger] ta[j]) by {
                assert(ta[j] == bus_of(txs)[j - mb]);
            }
            lemma_mock_status_steady(ta, sa, mb, mb + l + 1);
            assert(bus_transition(ta[mb + l], sa[mb + l], sa[mb + l + 1]));
            assert(bus_transition(ta[mb + l + 1], sa[mb + l + 1], sa[mb + l + 2]));
            assert(poll_value(txs[i]) == sa[mb + l + 1]@.status1);
        },
        Err(SpiFlashError::Io(_)) => {},
    }
}

impl MockSpi {
    /// A Winbond device of 128 Mbit (identification `EF 40 18`), writes
    /// disabled, status registers clear, nothing sent yet.
    pub fn new() -> (r: Self)
        ensures
            r@ == (MockSpiView {
                last_sent: Seq::empty(),
                write_enabled: false,
                jedec_id: seq![0xEFu8, 0x40u8, 0x18u8],
                status1: 0,
                status2: 0,
                status3: 0,
            }),
            r.transfers() == Seq::<Transfer>::empty(),
            r.results() == Seq::<Result<(), MockError>>::empty(),
    {
        let r = Self {
            last_tx: Vec::new(),
            write_enabled: false,
            jedec_id: [0xEF, 0x40, 0x18],
            status1: 0,
            status2: 0,
            status3: 0,
            log: Ghost(Seq::empty()),
            results: Ghost(Seq::empty()),
        };
        assert(r.jedec_id@ =~= seq![0xEFu8, 0x40u8, 0x18u8]);
        r
    }
}

impl SpiInterface for MockSpi {
    type SpiError = MockError;

    open spec fn transfers(&self) -> Seq<Transfer> {
        self.log@
    }

    open spec fn results(&self) -> Seq<Result<(), MockError>> {
        self.results@
    }

    /// The simulated device answers as `response` says.
    open spec fn answer(&self, rx: Seq<u8>) -> Seq<u8> {
        self@.response(rx)
    }

    /// A write changes the simulated device as `after_write` says, and the
    /// bus records it as acknowledged.
    open spec fn wrote(&self, tx: Seq<u8>, after: &Self) -> bool {
        &&& after@ == self@.after_write(tx)
        &&& after.log@ == self.log@.push(Transfer::Write(tx))
        &&& after.results@ == self.results@.push(Ok(()))
    }

    /// A read leaves the simulated device as it was, and the bus records it
    /// as acknowledged.
    open spec fn was_read(&self, rx: Seq<u8>, after: &Self) -> bool {
        &&& after@ == self@
        &&& after.log@ == self.log@.push(Transfer::Read(rx, self@.response(rx)))
        &&& after.results@ == self.results@.push(Ok(()))
    }

    /// Changes the device as `after_write` says.
    fn write(&mut self, tx: &[u8]) -> (r: Result<(), Self::SpiError>)
        ensures
            r is Ok,
            final(self)@ == old(self)@.after_write(tx@),
    {
        self.last_tx.clear();
        self.last_tx.extend_from_slice(tx);
        assert(self.last_tx@ =~= tx@);
        if tx.len() > 0 {
            match tx[0] {
                0x06 => self.write_enabled = true,
                0x04 => self.write_enabled = false,
                0x01 => {
                    if tx.len() > 1 {
                        self.status1 = tx[1];
                    }
                },
                0x31 => {
                    if tx.len() > 1 {
                        self.status2 = tx[1];
                    }
                },
                0x11 => {
                    if tx.len() > 1 {
                        self.status3 = tx[1];
                    }
                },
                _ => {},
            }
        }
        proof {
            self.log@ = self.log@.push(Transfer::Write(tx@));
            self.results@ = self.results@.push(Ok(()));
        }
        Ok(())
    }

    /// Answers the last write, as `response` says.
    fn read(&mut self, rx: &mut [u8]) -> (r: Result<(), Self::SpiError>)
        ensures
            r is Ok,
            final(rx)@ == old(self)@.response(old(rx)@),
            final(self)@ == old(self)@,
    {
        let ghost given = rx@;
        if self.last_tx.is_empty() {
            proof {
                self.log@ = self.log@.push(Transfer::Read(given, rx@));
                self.results@ = self.results@.push(Ok(()));
            }
            return Ok(());
        }
        match self.last_tx[0] {
            0x9F => {
                if rx.len() >= 4 {
                    rx[0] = 0;
                    rx[1] = self.jedec_id[0];
                    rx[2] = self.jedec_id[1];
                    rx[3] = self.jedec_id[2];
                }
            },
            0x05 => {
                if rx.len() >= 2 {
                    rx[1] = self.status1;
                }
            },
            0x35 => {
                if rx.len() >= 2 {
                    rx[1] = self.status2;
                }
            },
            0x15 => {
                if rx.len() >= 2 {
                    rx[1] = self.status3;
                }
            },
            _ => {},
        }
        proof {
            self.log@ = self.log@.push(Transfer::Read(given, rx@));
            self.results@ = self.results@.push(Ok(()));
        }
        Ok(())
    }
}

} // verus!
