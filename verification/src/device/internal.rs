use vstd::prelude::*;

use super::{lemma_record_transaction, lemma_record_wait, SpiFlash};
use crate::error::SpiFlashError;
use crate::interface::{CsPin, Delay, Level, SpiInterface, Transfer};
use crate::misc::page_to_address;
use crate::protocol::{
    is_program_answered,
    selections,
    instruction, instruction_with, is_abandoned_wait, is_busy, is_completed_wait,
    is_program_outcome, is_register_read, is_status_poll, lemma_address_bytes, page_fill,
    poll_value, program_header, program_transaction, register_value, wait_ms, Step,
    BUSY_POLL_US, PAGE_SIZE, STATUS_POLL_LIMIT,
};
use crate::types::{Command, Status1, DUMMY_BYTE};

verus! {

impl<SPI: SpiInterface, CS: CsPin, Timer: Delay> SpiFlash<SPI, CS, Timer> {
    /// Takes the device for an operation. Nothing else can release it while
    /// the driver is borrowed, so a held device would be waited for forever:
    /// the caller must not hold it already.
    pub(crate) fn lock(&mut self) -> (r: Result<(), SpiFlashError<SPI::SpiError, CS::IoError>>)
        requires
            !old(self).is_locked(),
        ensures
            r is Ok,
            *final(self) == old(self).with_lock(true),
            final(self).is_locked(),
            final(self).timer() == old(self).timer(),
            final(self).bus() == old(self).bus(),
            final(self).bus_results() == old(self).bus_results(),
            final(self).issue_levels() == old(self).issue_levels(),
            final(self).bus_states() == old(self).bus_states(),
            final(self).bus_device() == old(self).bus_device(),
            final(self).chip_select() == old(self).chip_select(),
            final(self).continues(*old(self)),
            final(self).steps() == old(self).steps(),
            final(self).timer_states() == old(self).timer_states(),
    {
        while self.lock
            invariant
                *self == *old(self),
                !old(self).is_locked(),
            decreases 0nat,
        {
            self.timer.delay_us(1000);
        }
        self.lock = true;
        Ok(())
    }

    /// Releases the device.
    pub(crate) fn unlock(&mut self) -> (r: Result<(), SpiFlashError<SPI::SpiError, CS::IoError>>)
        ensures
            r is Ok,
            *final(self) == old(self).with_lock(false),
            !final(self).is_locked(),
            final(self).timer() == old(self).timer(),
            final(self).bus() == old(self).bus(),
            final(self).bus_results() == old(self).bus_results(),
            final(self).issue_levels() == old(self).issue_levels(),
            final(self).bus_states() == old(self).bus_states(),
            final(self).bus_device() == old(self).bus_device(),
            final(self).chip_select() == old(self).chip_select(),
            final(self).continues(*old(self)),
            final(self).steps() == old(self).steps(),
            final(self).timer_states() == old(self).timer_states(),
    {
        self.lock = false;
        Ok(())
    }

    /// Drives chip select: low (select) for `true`, high (release) for `false`.
    pub(crate) fn cs_drive(&mut self, state: bool) -> (r: Result<
        (),
        SpiFlashError<SPI::SpiError, CS::IoError>,
    >)
        ensures
            r is Ok,
            final(self).chip_select() == old(self).chip_select().push(
                if state {
                    Level::Low
                } else {
                    Level::High
                },
            ),
            final(self).timer() == old(self).timer(),
            final(self).bus() == old(self).bus(),
            final(self).bus_results() == old(self).bus_results(),
            final(self).issue_levels() == old(self).issue_levels(),
            final(self).bus_states() == old(self).bus_states(),
            final(self).bus_device() == old(self).bus_device(),
            final(self).continues(*old(self)),
            final(self).steps() == old(self).steps(),
            final(self).timer_states() == old(self).timer_states(),
            final(self).is_locked() == old(self).is_locked(),
    {
        match state {
            true => {
                let _ = self.cs.set_low();
            },
            false => {
                let _ = self.cs.set_high();
            },
        }
        Ok(())
    }

    /// Runs a transaction that only sends instruction `c`.
    fn send_instruction(&mut self, c: Command) -> (r: Result<
        (),
        SpiFlashError<SPI::SpiError, CS::IoError>,
    >)
        requires
            old(self).consistent(),
        ensures
            r is Ok,
            final(self).consistent(),
            final(self).continues(*old(self)),
            final(self).is_locked() == old(self).is_locked(),
            final(self).timer() == old(self).timer(),
            final(self).bus_results().len() == old(self).bus_results().len() + 1,
            final(self).steps() == old(self).steps().push(Step::Transaction(instruction(c))),
    {
        let ghost selecting = *self;
        let _ = self.cs_drive(true);
        let tx = [c.code()];
        assert(tx@ == seq![c.opcode()]);
        let _ = self.bus_write(&tx);
        let _ = self.cs_drive(false);
        proof {
            assert(self.bus() == old(self).bus() + instruction(c));
            assert(self.issue_levels() =~= selecting.issue_levels() + Seq::new(
                (instruction(c)).len(),
                |i: int| 2 * selections(selecting.steps()) + 1,
            ));
            lemma_record_transaction(
                self.bus_origin@,
                self.cs_origin@,
                self.history@,
                self.timer_states@,
                instruction(c),
                self.issue_levels@,
            );
            self.history@ = self.history@.push(Step::Transaction(instruction(c)));
            self.timer_states@ = self.timer_states@.push(self.timer_states@.last());
        }
        Ok(())
    }

    /// Sets the device's write enable latch.
    pub(crate) fn write_enable(&mut self) -> (r: Result<(), SpiFlashError<SPI::SpiError, CS::IoError>>)
        requires
            old(self).consistent(),
        ensures
            r is Ok,
            final(self).consistent(),
            final(self).continues(*old(self)),
            final(self).is_locked() == old(self).is_locked(),
            final(self).timer() == old(self).timer(),
            final(self).bus_results().len() == old(self).bus_results().len() + 1,
            final(self).steps() == old(self).steps().push(
                Step::Transaction(instruction(Command::WriteEnable)),
            ),
    {
        self.send_instruction(Command::WriteEnable)
    }

    /// Clears the device's write enable latch.
    pub(crate) fn write_disable(&mut self) -> (r: Result<
        (),
        SpiFlashError<SPI::SpiError, CS::IoError>,
    >)
        requires
            old(self).consistent(),
        ensures
            r is Ok,
            final(self).consistent(),
            final(self).continues(*old(self)),
            final(self).is_locked() == old(self).is_locked(),
            final(self).timer() == old(self).timer(),
            final(self).bus_results().len() == old(self).bus_results().len() + 1,
            final(self).steps() == old(self).steps().push(
                Step::Transaction(instruction(Command::WriteDisable)),
            ),
    {
        self.send_instruction(Command::WriteDisable)
    }

    /// Reads the status register that instruction `c` reads.
    fn read_register(&mut self, c: Command) -> (r: Result<u8, SpiFlashError<SPI::SpiError, CS::IoError>>)
        requires
            old(self).consistent(),
        ensures
            final(self).consistent(),
            final(self).continues(*old(self)),
            final(self).is_locked() == old(self).is_locked(),
            final(self).timer() == old(self).timer(),
            final(self).steps().len() == old(self).steps().len() + 1,
            final(self).steps().last() is Transaction,
            is_register_read(final(self).steps().last()->Transaction_0, c),
            r is Ok,
            r->Ok_0 == register_value(final(self).steps().last()->Transaction_0),
    {
        let ghost selecting = *self;
        let _ = self.cs_drive(true);
        let tx = [c.code(), DUMMY_BYTE];
        assert(tx@ == seq![c.opcode(), DUMMY_BYTE]);
        let _ = self.bus_write(&tx);
        let mut rx = [0u8;2];
        assert(rx@ =~= seq![0u8, 0u8]);
        let _ = self.bus_read(&mut rx);
        let _ = self.cs_drive(false);
        let ghost t = seq![Transfer::Write(tx@), Transfer::Read(seq![0u8, 0u8], rx@)];
        proof {
            assert(self.bus() == old(self).bus() + t);
            assert(self.issue_levels() =~= selecting.issue_levels() + Seq::new(
                (t).len(),
                |i: int| 2 * selections(selecting.steps()) + 1,
            ));
            lemma_record_transaction(
                self.bus_origin@,
                self.cs_origin@,
                self.history@,
                self.timer_states@,
                t,
                self.issue_levels@,
            );
            self.history@ = self.history@.push(Step::Transaction(t));
            self.timer_states@ = self.timer_states@.push(self.timer_states@.last());
        }
        Ok(rx[1])
    }

    /// Writes `data` to the status register that instruction `c` writes,
    /// with writes enabled around it.
    fn write_register(&mut self, c: Command, data: u8) -> (r: Result<
        (),
        SpiFlashError<SPI::SpiError, CS::IoError>,
    >)
        requires
            old(self).consistent(),
        ensures
            r is Ok,
            final(self).consistent(),
            final(self).continues(*old(self)),
            final(self).is_locked() == old(self).is_locked(),
            final(self).timer() == old(self).timer(),
            final(self).steps() == old(self).steps() + seq![
                Step::Transaction(instruction(Command::WriteEnable)),
                Step::Transaction(instruction_with(c, data)),
                Step::Transaction(instruction(Command::WriteDisable)),
            ],
    {
        let _ = self.write_enable();
        let ghost mid = self.bus();
        let ghost selecting = *self;
        let _ = self.cs_drive(true);
        let tx = [c.code(), data];
        assert(tx@ == seq![c.opcode(), data]);
        let _ = self.bus_write(&tx);
        let _ = self.cs_drive(false);
        proof {
            assert(self.bus() == mid + instruction_with(c, data));
            assert(self.issue_levels() =~= selecting.issue_levels() + Seq::new(
                (instruction_with(c, data)).len(),
                |i: int| 2 * selections(selecting.steps()) + 1,
            ));
            lemma_record_transaction(
                self.bus_origin@,
                self.cs_origin@,
                self.history@,
                self.timer_states@,
                instruction_with(c, data),
                self.issue_levels@,
            );
            self.history@ = self.history@.push(Step::Transaction(instruction_with(c, data)));
            self.timer_states@ = self.timer_states@.push(self.timer_states@.last());
        }
        let _ = self.write_disable();
        proof {
            assert(self.steps() =~= old(self).steps() + seq![
                Step::Transaction(instruction(Command::WriteEnable)),
                Step::Transaction(instruction_with(c, data)),
                Step::Transaction(instruction(Command::WriteDisable)),
            ]);
        }
        Ok(())
    }

    /// Reads status register 1.
    pub(crate) fn read_reg_1(&mut self) -> (r: Result<u8, SpiFlashError<SPI::SpiError, CS::IoError>>)
        requires
            old(self).consistent(),
        ensures
            final(self).consistent(),
            final(self).continues(*old(self)),
            final(self).is_locked() == old(self).is_locked(),
            final(self).timer() == old(self).timer(),
            final(self).steps().len() == old(self).steps().len() + 1,
            final(self).steps().last() is Transaction,
            is_register_read(final(self).steps().last()->Transaction_0, Command::ReadStatus1),
            r is Ok,
            r->Ok_0 == register_value(final(self).steps().last()->Transaction_0),
    {
        self.read_register(Command::ReadStatus1)
    }

    /// Reads status register 2.
    #[allow(dead_code)]
    pub(crate) fn read_reg_2(&mut self) -> (r: Result<u8, SpiFlashError<SPI::SpiError, CS::IoError>>)
        requires
            old(self).consistent(),
        ensures
            final(self).consistent(),
            final(self).continues(*old(self)),
            final(self).is_locked() == old(self).is_locked(),
            final(self).timer() == old(self).timer(),
            final(self).steps().len() == old(self).steps().len() + 1,
            final(self).steps().last() is Transaction,
            is_register_read(final(self).steps().last()->Transaction_0, Command::ReadStatus2),
            r is Ok,
            r->Ok_0 == register_value(final(self).steps().last()->Transaction_0),
    {
        self.read_register(Command::ReadStatus2)
    }

    /// Reads status register 3.
    #[allow(dead_code)]
    pub(crate) fn read_reg_3(&mut self) -> (r: Result<u8, SpiFlashError<SPI::SpiError, CS::IoError>>)
        requires
            old(self).consistent(),
        ensures
            final(self).consistent(),
            final(self).continues(*old(self)),
            final(self).is_locked() == old(self).is_locked(),
            final(self).timer() == old(self).timer(),
            final(self).steps().len() == old(self).steps().len() + 1,
            final(self).steps().last() is Transaction,
            is_register_read(final(self).steps().last()->Transaction_0, Command::ReadStatus3),
            r is Ok,
            r->Ok_0 == register_value(final(self).steps().last()->Transaction_0),
    {
        self.read_register(Command::ReadStatus3)
    }

    /// Writes status register 1.
    #[allow(dead_code)]
    pub(crate) fn write_reg_1(&mut self, data: u8) -> (r: Result<
        (),
        SpiFlashError<SPI::SpiError, CS::IoError>,
    >)
        requires
            old(self).consistent(),
        ensures
            r is Ok,
            final(self).consistent(),
            final(self).continues(*old(self)),
            final(self).is_locked() == old(self).is_locked(),
            final(self).timer() == old(self).timer(),
            final(self).steps() == old(self).steps() + seq![
                Step::Transaction(instruction(Command::WriteEnable)),
                Step::Transaction(instruction_with(Command::WriteStatus1, data)),
                Step::Transaction(instruction(Command::WriteDisable)),
            ],
    {
        self.write_register(Command::WriteStatus1, data)
    }

    /// Writes status register 2.
    #[allow(dead_code)]
    pub(crate) fn write_reg_2(&mut self, data: u8) -> (r: Result<
        (),
        SpiFlashError<SPI::SpiError, CS::IoError>,
    >)
        requires
            old(self).consistent(),
        ensures
            r is Ok,
            final(self).consistent(),
            final(self).continues(*old(self)),
            final(self).is_locked() == old(self).is_locked(),
            final(self).timer() == old(self).timer(),
            final(self).steps() == old(self).steps() + seq![
                Step::Transaction(instruction(Command::WriteEnable)),
                Step::Transaction(instruction_with(Command::WriteStatus2, data)),
                Step::Transaction(instruction(Command::WriteDisable)),
            ],
    {
        self.write_register(Command::WriteStatus2, data)
    }

    /// Writes status register 3.
    #[allow(dead_code)]
    pub(crate) fn write_reg_3(&mut self, data: u8) -> (r: Result<
        (),
        SpiFlashError<SPI::SpiError, CS::IoError>,
    >)
        requires
            old(self).consistent(),
        ensures
            r is Ok,
            final(self).consistent(),
            final(self).continues(*old(self)),
            final(self).is_locked() == old(self).is_locked(),
            final(self).timer() == old(self).timer(),
            final(self).steps() == old(self).steps() + seq![
                Step::Transaction(instruction(Command::WriteEnable)),
                Step::Transaction(instruction_with(Command::WriteStatus3, data)),
                Step::Transaction(instruction(Command::WriteDisable)),
            ],
    {
        self.write_register(Command::WriteStatus3, data)
    }

    /// Reads status register 1 until the device no longer reports busy,
    /// waiting `timeout` microseconds after each busy answer; gives up with
    /// `Protocol` after `STATUS_POLL_LIMIT` busy answers.
    pub(crate) fn wait_for_writing(&mut self, timeout: u32) -> (r: Result<
        (),
        SpiFlashError<SPI::SpiError, CS::IoError>,
    >)
        requires
            old(self).consistent(),
            timeout <= u32::MAX - 999,
        ensures
            final(self).consistent(),
            final(self).continues(*old(self)),
            final(self).is_locked() == old(self).is_locked(),
            match r {
                Ok(_) => is_completed_wait(final(self).since(*old(self)), wait_ms(timeout)),
                Err(SpiFlashError::Protocol) => is_abandoned_wait(
                    final(self).since(*old(self)),
                    wait_ms(timeout),
                ),
                Err(_) => false,
            },
    {
        let ghost ms = wait_ms(timeout);
        let mut polls: u64 = 0;
        loop
            invariant_except_break
                polls < STATUS_POLL_LIMIT,
                self.since(*old(self)).len() == 2 * polls,
                forall|i: int|
                    0 <= i < 2 * polls && i % 2 == 0 ==> is_status_poll(
                        #[trigger] self.since(*old(self))[i],
                    ) && is_busy(poll_value(self.since(*old(self))[i])),
                forall|i: int|
                    0 <= i < 2 * polls && i % 2 == 1 ==> #[trigger] self.since(*old(self))[i]
                        == Step::Wait(ms),
            invariant
                self.consistent(),
                self.continues(*old(self)),
                self.is_locked() == old(self).is_locked(),
                timeout <= u32::MAX - 999,
                ms == wait_ms(timeout),
            ensures
                self.consistent(),
                self.continues(*old(self)),
                self.is_locked() == old(self).is_locked(),
                is_completed_wait(self.since(*old(self)), ms),
            decreases STATUS_POLL_LIMIT - polls,
        {
            let ghost before = *self;
            let rx = self.read_reg_1()?;
            proof {
                assert(self.since(*old(self)) =~= before.since(*old(self)).push(
                    self.steps().last(),
                ));
            }
            if rx & Status1::Busy.mask() == 0 {
                break;
            }
            polls += 1;
            if polls == STATUS_POLL_LIMIT {
                return Err(SpiFlashError::Protocol);
            }
            let ghost polled = *self;
            self.timer.delay_us(timeout);
            proof {
                lemma_record_wait(self.history@, self.timer_states@, ms, self.timer);
                self.history@ = self.history@.push(Step::Wait(ms));
                self.timer_states@ = self.timer_states@.push(self.timer);
                assert(self.since(*old(self)) =~= polled.since(*old(self)).push(Step::Wait(ms)));
            }
        }
        Ok(())
    }

    /// Programs the bytes of `data[..size]` that fit in page `page_number`
    /// from `offset` on; `Protocol` when the page or the offset is out of
    /// range, with the driver left as it was. A bus error on the header or
    /// the data ends the program with that error; otherwise both were
    /// acknowledged.
    pub(crate) fn write(&mut self, page_number: u32, data: &[u8], size: u32, offset: u32) -> (r:
        Result<(), SpiFlashError<SPI::SpiError, CS::IoError>>)
        requires
            old(self).consistent(),
            page_number < old(self).info().page_count && offset < PAGE_SIZE ==> page_fill(
                size as int,
                offset as int,
            ) <= data@.len(),
        ensures
            final(self).consistent(),
            final(self).continues(*old(self)),
            final(self).is_locked() == old(self).is_locked(),
            page_number >= old(self).info().page_count || offset >= PAGE_SIZE ==> *final(self)
                == *old(self),
            is_program_outcome(
                final(self).since(*old(self)),
                page_number as int,
                offset as int,
                size as int,
                data@,
                old(self).info().page_count as int,
                old(self).info().block_count >= 512,
                r,
            ),
            is_program_answered(
                final(self).bus_results(),
                old(self).bus_results().len() as int,
                final(self).since(*old(self)),
                page_number < old(self).info().page_count && offset < PAGE_SIZE,
                r,
            ),
    {
        if page_number >= self.page_count {
            return Err(SpiFlashError::Protocol);
        }
        if offset >= PAGE_SIZE {
            return Err(SpiFlashError::Protocol);
        }
        let maximum = PAGE_SIZE - offset;
        let size = if size > maximum {
            maximum
        } else {
            size
        } as usize;
        let address = page_to_address(page_number) + offset;
        let ghost a = address as int;
        let ghost wide = self.block_count >= 512;
        let ghost header = program_header(a, wide);
        let ghost n = old(self).bus_results().len() as int;
        proof {
            lemma_address_bytes(address);
        }
        let _ = self.write_enable();
        let ghost enabled = *self;
        let ghost selecting = *self;
        let _ = self.cs_drive(true);
        let header_result = if self.block_count >= 512 {
            let tx = [
                Command::PageProg4Add.code(),
                ((address & 0xFF000000) >> 24) as u8,
                ((address & 0x00FF0000) >> 16) as u8,
                ((address & 0x0000FF00) >> 8) as u8,
                (address & 0x000000FF) as u8,
            ];
            assert(tx@ =~= header);
            self.bus_write(&tx)
        } else {
            let tx = [
                Command::PageProg3Add.code(),
                ((address & 0x00FF0000) >> 16) as u8,
                ((address & 0x0000FF00) >> 8) as u8,
                (address & 0x000000FF) as u8,
            ];
            assert(tx@ =~= header);
            self.bus_write(&tx)
        };
        if let Err(e) = header_result {
            let _ = self.cs_drive(false);
            let ghost t = seq![Transfer::Write(header)];
            proof {
                assert(self.bus() == enabled.bus() + t);
                assert(self.issue_levels() =~= selecting.issue_levels() + Seq::new(
                    (t).len(),
                    |i: int| 2 * selections(selecting.steps()) + 1,
                ));
                lemma_record_transaction(
                    self.bus_origin@,
                    self.cs_origin@,
                    self.history@,
                    self.timer_states@,
                    t,
                    self.issue_levels@,
                );
                self.history@ = self.history@.push(Step::Transaction(t));
                self.timer_states@ = self.timer_states@.push(self.timer_states@.last());
                assert(self.since(*old(self)) =~= seq![
                    Step::Transaction(instruction(Command::WriteEnable)),
                    Step::Transaction(t),
                ]);
            }
            return Err(SpiFlashError::Spi(e));
        }
        let payload = &data[0..size];
        let ghost t = program_transaction(a, payload@, wide);
        let data_result = self.bus_write(payload);
        let _ = self.cs_drive(false);
        proof {
            assert(self.bus() == enabled.bus() + t);
            assert(self.issue_levels() =~= selecting.issue_levels() + Seq::new(
                (t).len(),
                |i: int| 2 * selections(selecting.steps()) + 1,
            ));
            lemma_record_transaction(
                self.bus_origin@,
                self.cs_origin@,
                self.history@,
                self.timer_states@,
                t,
                self.issue_levels@,
            );
            self.history@ = self.history@.push(Step::Transaction(t));
            self.timer_states@ = self.timer_states@.push(self.timer_states@.last());
            assert(self.since(*old(self)) =~= seq![
                Step::Transaction(instruction(Command::WriteEnable)),
                Step::Transaction(t),
            ]);
        }
        if let Err(e) = data_result {
            return Err(SpiFlashError::Spi(e));
        }
        let ghost programmed = *self;
        match self.wait_for_writing(BUSY_POLL_US) {
            Ok(_) => {},
            Err(e) => {
                proof {
                    assert(self.since(*old(self)) =~= programmed.since(*old(self)) + self.since(
                        programmed,
                    ));
                }
                return Err(e);
            },
        }
        let ghost waited = *self;
        let _ = self.write_disable();
        proof {
            assert(self.since(*old(self)) =~= programmed.since(*old(self)) + waited.since(
                programmed,
            ) + seq![Step::Transaction(instruction(Command::WriteDisable))]);
        }
        Ok(())
    }
}

} // verus!
