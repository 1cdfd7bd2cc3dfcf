use vstd::prelude::*;

use crate::error::SpiFlashError;
use crate::interface::{CsPin, Delay, Level, SpiInterface, Transfer};
use crate::protocol::{
    bus_follows, bus_of, bus_transition, framed_issue_levels, identification_request, is_identification,
    lemma_bus_follows_push, lemma_steps_push, lemma_timer_chain_push, select_pulses, selections,
    step_issue_levels, timer_chain, timer_step, Step,
};
use vstd::arithmetic::power2::{lemma2_to64, pow2};
use crate::types::{manufactor_of, size_of_code, Command, Manufactor, Size, DUMMY_BYTE};

pub use crate::protocol::{BLOCK_SIZE, PAGE_SIZE, SECTOR_SIZE};

mod erase;
mod internal;
mod write;

verus! {

/// What the driver learnt of the device when it identified it.
pub struct FlashInfo {
    pub manufactor: Manufactor,
    pub size: Size,
    pub memory_type: u8,
    pub page_count: u32,
    pub sector_count: u32,
    pub block_count: u32,
}

/// What the identification bytes `id` (as read: a filler byte, then the
/// manufacturer, memory type and capacity bytes) tell of the device.
pub open spec fn info_of_identification(id: Seq<u8>) -> FlashInfo {
    let size = size_of_code(id[3]);
    FlashInfo {
        manufactor: manufactor_of(id[1]),
        size: size,
        memory_type: id[2],
        page_count: (size.blocks() * 256) as u32,
        sector_count: (size.blocks() * 16) as u32,
        block_count: size.blocks(),
    }
}

/// The capacity byte `c` of an identification (its fourth byte as read)
/// names 2^(c - 11h) Mbit for `c` from 11h to 19h, and 512 Mbit for 20h: the
/// driver counts 2^(c - 10h) blocks of 64 KiB for it (two per Mbit), sixteen
/// sectors to a block and sixteen pages to a sector. Any other byte names no
/// capacity and no blocks. Capacity bytes one apart name capacities a factor
/// of two apart.
pub proof fn lemma_capacity_of_identification(id: Seq<u8>)
    requires
        id.len() == 4,
    ensures
        ({
            let info = info_of_identification(id);
            let c = id[3];
            &&& 0x11 <= c <= 0x19 ==> info.block_count == pow2((c - 0x10) as nat)
            &&& c == 0x20 ==> info.block_count == 1024 && info.size == Size::Mbit512
            &&& 0x11 <= c <= 0x19 || c == 0x20 ==> info.size != Size::Error
                && info.size.blocks() == info.block_count
            &&& !(0x11 <= c <= 0x19 || c == 0x20) ==> info.size == Size::Error
                && info.block_count == 0
            &&& info.sector_count == 16 * info.block_count
            &&& info.page_count == 256 * info.block_count
        }),
{
    lemma2_to64();
    Size::lemma_blocks_name_capacity();
}

/// A driver for an SPI NOR flash device on bus `SPI`, selected by `CS`.
#[allow(dead_code)]
pub struct SpiFlash<SPI: SpiInterface, CS: CsPin, Timer: Delay> {
    spi: SPI,
    cs: CS,
    timer: Timer,
    manufactor: Manufactor,
    size: Size,
    initialised: bool,
    memory_type: u8,
    lock: bool,
    reserved: u8,
    pin: u32,
    page_count: u32,
    sector_count: u32,
    block_count: u32,
    bus_origin: Ghost<Seq<Transfer>>,
    cs_origin: Ghost<Seq<Level>>,
    history: Ghost<Seq<Step>>,
    timer_states: Ghost<Seq<Timer>>,
    issue_levels: Ghost<Seq<nat>>,
    bus_states: Ghost<Seq<SPI>>,
}

impl<SPI: SpiInterface, CS: CsPin, Timer: Delay> SpiFlash<SPI, CS, Timer> {
    /// Takes the bus, chip select and timer of a device and identifies the
    /// device: its manufacturer, memory type and capacity, and from the
    /// capacity its block, sector and page counts. An unknown manufacturer or
    /// capacity reads as `Error`, and an unknown capacity as no blocks.
    pub fn new(spi: SPI, cs: CS, timer: Timer) -> (r: Result<
        Self,
        SpiFlashError<SPI::SpiError, CS::IoError>,
    >)
        ensures
            r matches Ok(dev) && {
                &&& dev.wf()
                &&& dev.bus_origin() == spi.transfers()
                &&& dev.cs_origin() == cs.levels()
                &&& dev.timer() == timer
                &&& dev.timer_states() == seq![timer, timer]
                &&& dev.bus_results().len() == spi.results().len() + 2
                &&& dev.bus_states().len() == 3
                &&& dev.bus_states()[0] == spi
                &&& spi.wrote(identification_request(), &dev.bus_states()[1])
                &&& dev.bus_states()[1].was_read(seq![0u8, 0u8, 0u8, 0u8], &dev.bus_device())
                &&& dev.steps().len() == 1
                &&& dev.steps()[0] is Transaction
                &&& is_identification(dev.steps()[0]->Transaction_0)
                &&& dev.info() == info_of_identification(
                    dev.steps()[0]->Transaction_0[1]->Read_1,
                )
                &&& exists|s: SPI|
                    #[trigger] spi.wrote(identification_request(), &s) && dev.info()
                        == info_of_identification(s.answer(seq![0u8, 0u8, 0u8, 0u8]))
            },
    {
        let ghost spi_before = spi.transfers();
        let ghost cs_before = cs.levels();
        let ghost timer_before = timer;
        let ghost spi_state = spi;
        let mut dev = Self {
            spi,
            cs,
            timer,
            manufactor: Manufactor::Error,
            size: Size::Error,
            initialised: false,
            memory_type: 0,
            lock: false,
            reserved: 0,
            pin: 0,
            page_count: 0,
            sector_count: 0,
            block_count: 0,
            bus_origin: Ghost(spi_before),
            cs_origin: Ghost(cs_before),
            history: Ghost(Seq::empty()),
            timer_states: Ghost(Seq::empty().push(timer_before)),
            issue_levels: Ghost(Seq::empty()),
            bus_states: Ghost(Seq::empty().push(spi_state)),
        };
        proof {
            assert(dev.bus() =~= dev.bus_origin() + bus_of(dev.steps()));
            assert(dev.timer_states() =~= seq![timer_before]);
            assert(timer_chain(dev.steps(), dev.timer_states()));
            assert(dev.chip_select() =~= dev.cs_origin() + select_pulses(0));
            assert(dev.bus().skip(dev.bus_origin().len() as int) =~= Seq::<Transfer>::empty());
            assert(dev.bus().take(dev.bus_origin().len() as int) =~= dev.bus_origin());
            assert(dev.bus_states() =~= seq![spi_state]);
            assert(dev.issue_levels() =~= framed_issue_levels(dev.steps()));
        }
        let ghost started = dev;
        let _ = dev.cs_drive(true);
        let tx = [Command::JEDECID.code(), DUMMY_BYTE, DUMMY_BYTE, DUMMY_BYTE];
        assert(tx@ =~= seq![Command::JEDECID.opcode(), DUMMY_BYTE, DUMMY_BYTE, DUMMY_BYTE]);
        let _ = dev.bus_write(&tx);
        let mut rx = [0u8;4];
        assert(rx@ =~= seq![0u8, 0u8, 0u8, 0u8]);
        let _ = dev.bus_read(&mut rx);
        let _ = dev.cs_drive(false);
        let ghost t = seq![Transfer::Write(tx@), Transfer::Read(seq![0u8, 0u8, 0u8, 0u8], rx@)];
        proof {
            assert(dev.bus() == spi_before + t);
            assert(dev.issue_levels() =~= started.issue_levels() + Seq::new(
                t.len(),
                |i: int| 2 * selections(started.steps()) + 1,
            ));
            lemma_record_transaction(
                dev.bus_origin@,
                dev.cs_origin@,
                dev.history@,
                dev.timer_states@,
                t,
                dev.issue_levels@,
            );
            dev.history@ = dev.history@.push(Step::Transaction(t));
            dev.timer_states@ = dev.timer_states@.push(dev.timer_states@.last());
            assert(dev.bus().skip(dev.bus_origin().len() as int) =~= t);
            assert(bus_transition(t[0], dev.bus_states()[0], dev.bus_states()[1]));
            assert(bus_transition(t[1], dev.bus_states()[1], dev.bus_states()[2]));
        }
        match rx[1] {
            0xEF => dev.manufactor = Manufactor::Winbond,
            0x9D => dev.manufactor = Manufactor::Issi,
            0x20 => dev.manufactor = Manufactor::Micron,
            0xC8 => dev.manufactor = Manufactor::GigaDevice,
            0xC2 => dev.manufactor = Manufactor::Macronix,
            0x01 => dev.manufactor = Manufactor::Spansion,
            0x37 => dev.manufactor = Manufactor::Amic,
            0xBF => dev.manufactor = Manufactor::Sst,
            0xAD => dev.manufactor = Manufactor::Hyundai,
            0x1F => dev.manufactor = Manufactor::Atmel,
            0xA1 => dev.manufactor = Manufactor::Fudan,
            0x8C => dev.manufactor = Manufactor::Esmt,
            0x89 => dev.manufactor = Manufactor::Intel,
            0x62 => dev.manufactor = Manufactor::Sanyo,
            0x04 => dev.manufactor = Manufactor::Fujitsu,
            0x1C => dev.manufactor = Manufactor::Eon,
            0x85 => dev.manufactor = Manufactor::Puya,
            _ => dev.manufactor = Manufactor::Error,
        }
        dev.memory_type = rx[2];
        match rx[3] {
            0x11 => dev.size = Size::Mbit1,
            0x12 => dev.size = Size::Mbit2,
            0x13 => dev.size = Size::Mbit4,
            0x14 => dev.size = Size::Mbit8,
            0x15 => dev.size = Size::Mbit16,
            0x16 => dev.size = Size::Mbit32,
            0x17 => dev.size = Size::Mbit64,
            0x18 => dev.size = Size::Mbit128,
            0x19 => dev.size = Size::Mbit256,
            0x20 => dev.size = Size::Mbit512,
            _ => dev.size = Size::Error,
        }
        dev.block_count = dev.size.block_count();
        dev.sector_count = dev.block_count * 16;
        dev.page_count = dev.sector_count * 16;
        assert(dev.timer_states() =~= seq![timer_before, timer_before]);
        proof {
            let s1 = dev.bus_states()[1];
            assert(dev.bus_states()[0] == spi_state);
            assert(t[0] == Transfer::Write(tx@));
            assert(tx@ == identification_request());
            assert(spi_state.wrote(identification_request(), &s1));
            assert(rx@ == s1.answer(seq![0u8, 0u8, 0u8, 0u8]));
            assert(dev.info() == info_of_identification(rx@));
            assert(dev.info() == info_of_identification(s1.answer(seq![0u8, 0u8, 0u8, 0u8])));
        }
        Ok(dev)
    }

    /// Writes `tx` on the bus, recording the chip-select levels driven so far
    /// and the state the write leaves.
    fn bus_write(&mut self, tx: &[u8]) -> (r: Result<(), SPI::SpiError>)
        requires
            old(self).traced(),
            old(self).cs_origin().len() <= old(self).chip_select().len(),
        ensures
            final(self).traced(),
            final(self).bus() == old(self).bus().push(Transfer::Write(tx@)),
            final(self).bus_results() == old(self).bus_results().push(r),
            final(self).issue_levels() == old(self).issue_levels().push(
                (old(self).chip_select().len() - old(self).cs_origin().len()) as nat,
            ),
            final(self).bus_states() == old(self).bus_states().push(final(self).bus_device()),
            final(self).chip_select() == old(self).chip_select(),
            final(self).continues(*old(self)),
            final(self).steps() == old(self).steps(),
            final(self).timer() == old(self).timer(),
            final(self).timer_states() == old(self).timer_states(),
            final(self).is_locked() == old(self).is_locked(),
    {
        let ghost before = self.spi;
        let r = self.spi.write(tx);
        proof {
            let ghost o = self.bus_origin@.len() as int;
            assert(self.bus().skip(o) =~= old(self).bus().skip(o).push(Transfer::Write(tx@)));
            assert(self.bus().take(o) =~= old(self).bus().take(o));
            lemma_bus_follows_push(
                old(self).bus().skip(o),
                self.bus_states@,
                Transfer::Write(tx@),
                self.spi,
            );
            self.issue_levels@ = self.issue_levels@.push(
                (self.cs.levels().len() - self.cs_origin@.len()) as nat,
            );
            self.bus_states@ = self.bus_states@.push(self.spi);
        }
        r
    }

    /// Reads from the bus into `rx`, recording the chip-select levels driven
    /// so far and the state the read leaves.
    fn bus_read(&mut self, rx: &mut [u8]) -> (r: Result<(), SPI::SpiError>)
        requires
            old(self).traced(),
            old(self).cs_origin().len() <= old(self).chip_select().len(),
        ensures
            final(rx)@.len() == old(rx)@.len(),
            final(self).traced(),
            final(self).bus() == old(self).bus().push(Transfer::Read(old(rx)@, final(rx)@)),
            final(self).bus_results() == old(self).bus_results().push(r),
            final(self).issue_levels() == old(self).issue_levels().push(
                (old(self).chip_select().len() - old(self).cs_origin().len()) as nat,
            ),
            final(self).bus_states() == old(self).bus_states().push(final(self).bus_device()),
            final(self).chip_select() == old(self).chip_select(),
            final(self).continues(*old(self)),
            final(self).steps() == old(self).steps(),
            final(self).timer() == old(self).timer(),
            final(self).timer_states() == old(self).timer_states(),
            final(self).is_locked() == old(self).is_locked(),
    {
        let ghost given = rx@;
        let r = self.spi.read(rx);
        proof {
            let ghost o = self.bus_origin@.len() as int;
            assert(self.bus().skip(o) =~= old(self).bus().skip(o).push(Transfer::Read(given, rx@)));
            assert(self.bus().take(o) =~= old(self).bus().take(o));
            lemma_bus_follows_push(
                old(self).bus().skip(o),
                self.bus_states@,
                Transfer::Read(given, rx@),
                self.spi,
            );
            self.issue_levels@ = self.issue_levels@.push(
                (self.cs.levels().len() - self.cs_origin@.len()) as nat,
            );
            self.bus_states@ = self.bus_states@.push(self.spi);
        }
        r
    }

    /// The manufacturer the identification named.
    pub fn manufactor(&self) -> (r: Manufactor)
        ensures
            r == self.info().manufactor,
    {
        self.manufactor
    }

    /// The capacity the identification named.
    pub fn size(&self) -> (r: Size)
        ensures
            r == self.info().size,
    {
        self.size
    }

    /// The memory type byte of the identification.
    pub fn memory_type(&self) -> (r: u8)
        ensures
            r == self.info().memory_type,
    {
        self.memory_type
    }

    /// The number of 256-byte pages of the device.
    pub fn page_count(&self) -> (r: u32)
        ensures
            r == self.info().page_count,
    {
        self.page_count
    }

    /// The number of 4 KiB sectors of the device.
    pub fn sector_count(&self) -> (r: u32)
        ensures
            r == self.info().sector_count,
    {
        self.sector_count
    }

    /// The number of 64 KiB blocks of the device.
    pub fn block_count(&self) -> (r: u32)
        ensures
            r == self.info().block_count,
    {
        self.block_count
    }

    /// Identification and geometry of the device.
    pub closed spec fn info(&self) -> FlashInfo {
        FlashInfo {
            manufactor: self.manufactor,
            size: self.size,
            memory_type: self.memory_type,
            page_count: self.page_count,
            sector_count: self.sector_count,
            block_count: self.block_count,
        }
    }

    /// Whether an operation holds the device.
    pub closed spec fn is_locked(&self) -> bool {
        self.lock
    }

    /// Every transfer requested of the bus, including before the driver took it.
    pub open spec fn bus(&self) -> Seq<Transfer> {
        self.bus_device().transfers()
    }

    /// Every level driven on chip select, including before the driver took it.
    pub closed spec fn chip_select(&self) -> Seq<Level> {
        self.cs.levels()
    }

    /// The transfers the bus had seen when the driver took it.
    pub closed spec fn bus_origin(&self) -> Seq<Transfer> {
        self.bus_origin@
    }

    /// The levels chip select had seen when the driver took it.
    pub closed spec fn cs_origin(&self) -> Seq<Level> {
        self.cs_origin@
    }

    /// For every transfer requested of the bus, what the bus returned.
    pub open spec fn bus_results(&self) -> Seq<Result<(), SPI::SpiError>> {
        self.bus_device().results()
    }

    /// The bus, with the device behind it.
    pub closed spec fn bus_device(&self) -> SPI {
        self.spi
    }

    /// For each transfer the driver requested, the number of chip-select
    /// levels the driver had driven when it requested it.
    pub closed spec fn issue_levels(&self) -> Seq<nat> {
        self.issue_levels@
    }

    /// Bus and device when the driver took them, and after each transfer it
    /// requested.
    pub closed spec fn bus_states(&self) -> Seq<SPI> {
        self.bus_states@
    }

    /// The driver's own record of its transfers holds: one issue level per
    /// transfer it requested, and bus and device went through each transfer
    /// as the bus describes.
    pub open spec fn traced(&self) -> bool {
        &&& self.bus_origin().len() <= self.bus().len()
        &&& self.bus().take(self.bus_origin().len() as int) == self.bus_origin()
        &&& self.issue_levels().len() + self.bus_origin().len() == self.bus().len()
        &&& bus_follows(self.bus().skip(self.bus_origin().len() as int), self.bus_states())
        &&& self.bus_states().last() == self.bus_device()
    }

    /// The timer.
    pub closed spec fn timer(&self) -> Timer {
        self.timer
    }

    /// The steps the driver has taken since it took the bus, oldest first:
    /// transactions (the transfers between one select and the following
    /// release) and waits.
    pub closed spec fn steps(&self) -> Seq<Step> {
        self.history@
    }

    /// The states of the timer when the driver took it and after each step.
    pub closed spec fn timer_states(&self) -> Seq<Timer> {
        self.timer_states@
    }

    /// The driver as it is, but held or released as `locked` says.
    pub closed spec fn with_lock(self, locked: bool) -> Self {
        SpiFlash { lock: locked, ..self }
    }

    /// The bus and chip select saw exactly the driver's transactions, each
    /// transfer went out while its own transaction held the device selected,
    /// the timer went through exactly its waits, and the geometry agrees with
    /// the capacity.
    pub open spec fn consistent(&self) -> bool {
        &&& self.traced()
        &&& self.bus() == self.bus_origin() + bus_of(self.steps())
        &&& self.issue_levels() == framed_issue_levels(self.steps())
        &&& self.chip_select() == self.cs_origin() + select_pulses(selections(self.steps()))
        &&& timer_chain(self.steps(), self.timer_states())
        &&& self.timer_states().last() == self.timer()
        &&& self.info().block_count == self.info().size.blocks()
        &&& self.info().sector_count == 16 * self.info().block_count
        &&& self.info().page_count == 16 * self.info().sector_count
    }

    /// Consistent, and no operation in progress: the state between calls.
    pub open spec fn wf(&self) -> bool {
        &&& self.consistent()
        &&& !self.is_locked()
    }

    /// Same device, same origins, and the steps, bus states and bus results
    /// of `before` are the first ones of `self`.
    pub open spec fn continues(self, before: Self) -> bool {
        &&& self.info() == before.info()
        &&& self.bus_origin() == before.bus_origin()
        &&& self.cs_origin() == before.cs_origin()
        &&& before.steps().len() <= self.steps().len()
        &&& forall|i: int|
            0 <= i < before.steps().len() ==> #[trigger] self.steps()[i] == before.steps()[i]
        &&& before.bus_states().len() <= self.bus_states().len()
        &&& forall|i: int|
            0 <= i < before.bus_states().len() ==> #[trigger] self.bus_states()[i]
                == before.bus_states()[i]
        &&& before.bus_results().len() <= self.bus_results().len()
        &&& forall|i: int|
            0 <= i < before.bus_results().len() ==> #[trigger] self.bus_results()[i]
                == before.bus_results()[i]
    }

    /// The steps taken since `before`.
    pub open spec fn since(self, before: Self) -> Seq<Step> {
        self.steps().skip(before.steps().len() as int)
    }
}

/// Between operations the device is never left selected: chip select has
/// been driven low and high in turn since the driver took it, and once the
/// driver has run any transaction the last level driven is high.
pub proof fn lemma_device_released<SPI: SpiInterface, CS: CsPin, Timer: Delay>(
    dev: SpiFlash<SPI, CS, Timer>,
)
    requires
        dev.consistent(),
    ensures
        dev.chip_select().len() == dev.cs_origin().len() + 2 * selections(dev.steps()),
        forall|i: int|
            dev.cs_origin().len() <= i < dev.chip_select().len() ==> #[trigger] dev.chip_select()[i]
                == if (i - dev.cs_origin().len()) % 2 == 0 {
                Level::Low
            } else {
                Level::High
            },
        selections(dev.steps()) > 0 ==> dev.chip_select().last() == Level::High,
{
}

/// Holding or releasing the driver changes nothing but whether it is held;
/// holding a free driver and then releasing it gives the driver back as it was.
pub proof fn lemma_with_lock<SPI: SpiInterface, CS: CsPin, Timer: Delay>(
    dev: SpiFlash<SPI, CS, Timer>,
    locked: bool,
)
    ensures
        dev.with_lock(locked).is_locked() == locked,
        dev.with_lock(locked).info() == dev.info(),
        dev.with_lock(locked).bus() == dev.bus(),
        dev.with_lock(locked).bus_results() == dev.bus_results(),
        dev.with_lock(locked).bus_device() == dev.bus_device(),
        dev.with_lock(locked).bus_states() == dev.bus_states(),
        dev.with_lock(locked).issue_levels() == dev.issue_levels(),
        dev.with_lock(locked).chip_select() == dev.chip_select(),
        dev.with_lock(locked).bus_origin() == dev.bus_origin(),
        dev.with_lock(locked).cs_origin() == dev.cs_origin(),
        dev.with_lock(locked).steps() == dev.steps(),
        dev.with_lock(locked).timer() == dev.timer(),
        dev.with_lock(locked).timer_states() == dev.timer_states(),
        !dev.is_locked() ==> dev.with_lock(true).with_lock(false) == dev,
        dev.with_lock(dev.is_locked()) == dev,
{
}

/// Over any sequence of operations, each of which continues from the one
/// before, the driver keeps the device it identified, its origins, and every
/// step and bus answer already recorded.
pub proof fn lemma_continues_over_sequence<SPI: SpiInterface, CS: CsPin, Timer: Delay>(
    devs: Seq<SpiFlash<SPI, CS, Timer>>,
)
    requires
        devs.len() > 0,
        forall|i: int| 0 <= i < devs.len() - 1 ==> #[trigger] devs[i + 1].continues(devs[i]),
    ensures
        devs.last().continues(devs[0]),
        devs.last().info() == devs[0].info(),
    decreases devs.len(),
{
    if devs.len() > 1 {
        let front = devs.drop_last();
        assert forall|i: int| 0 <= i < front.len() - 1 implies #[trigger] front[i + 1].continues(
            front[i],
        ) by {
            assert(devs[i + 1].continues(devs[i]));
        }
        lemma_continues_over_sequence(front);
        let k = devs.len() - 2;
        assert(devs[k + 1].continues(devs[k]));
        assert(front.last() == devs[k]);
    }
}

/// Runs since `a` split where `b` stood.
pub proof fn lemma_since_chain<SPI: SpiInterface, CS: CsPin, Timer: Delay>(
    a: SpiFlash<SPI, CS, Timer>,
    b: SpiFlash<SPI, CS, Timer>,
    c: SpiFlash<SPI, CS, Timer>,
)
    requires
        b.continues(a),
        c.continues(b),
    ensures
        c.continues(a),
        c.since(a) == b.since(a) + c.since(b),
{
    assert(c.since(a) =~= b.since(a) + c.since(b));
}

/// One more transaction: the bus saw its transfers, chip select one more
/// select/release pair, and the timer is as it was.
pub proof fn lemma_record_transaction<Timer: Delay>(
    bus_origin: Seq<Transfer>,
    cs_origin: Seq<Level>,
    history: Seq<Step>,
    ts: Seq<Timer>,
    tx: Seq<Transfer>,
    issue: Seq<nat>,
)
    requires
        timer_chain(history, ts),
        issue == framed_issue_levels(history) + Seq::new(
            tx.len(),
            |i: int| 2 * selections(history) + 1,
        ),
    ensures
        issue == framed_issue_levels(history.push(Step::Transaction(tx))),
        bus_origin + bus_of(history) + tx == bus_origin + bus_of(history.push(Step::Transaction(tx))),
        (cs_origin + select_pulses(selections(history))).push(Level::Low).push(Level::High)
            == cs_origin + select_pulses(selections(history.push(Step::Transaction(tx)))),
        timer_chain(history.push(Step::Transaction(tx)), ts.push(ts.last())),
{
    lemma_steps_push(history, Step::Transaction(tx));
    assert(bus_origin + bus_of(history) + tx =~= bus_origin + bus_of(
        history.push(Step::Transaction(tx)),
    ));
    crate::protocol::lemma_select_pulses_step(cs_origin, selections(history));
    lemma_timer_chain_push(history, ts, Step::Transaction(tx), ts.last());
    assert(step_issue_levels(Step::Transaction(tx), selections(history)) =~= Seq::new(
        tx.len(),
        |i: int| 2 * selections(history) + 1,
    ));
}

/// One more wait: the bus and chip select are as they were, and the timer
/// went through the wait.
pub proof fn lemma_record_wait<Timer: Delay>(
    history: Seq<Step>,
    ts: Seq<Timer>,
    ms: u32,
    t: Timer,
)
    requires
        timer_chain(history, ts),
        ts.last().waited(&t, ms),
    ensures
        bus_of(history.push(Step::Wait(ms))) == bus_of(history),
        framed_issue_levels(history.push(Step::Wait(ms))) == framed_issue_levels(history),
        selections(history.push(Step::Wait(ms))) == selections(history),
        timer_chain(history.push(Step::Wait(ms)), ts.push(t)),
{
    lemma_steps_push(history, Step::Wait(ms));
    assert(bus_of(history) + Seq::<Transfer>::empty() =~= bus_of(history));
    assert(framed_issue_levels(history) + Seq::<nat>::empty() =~= framed_issue_levels(history));
    lemma_timer_chain_push(history, ts, Step::Wait(ms), t);
}

} // verus!
