use vstd::prelude::*;

use super::{lemma_record_transaction, SpiFlash};
use crate::error::SpiFlashError;
use crate::interface::{CsPin, Delay, SpiInterface, Transfer};
use crate::protocol::{
    address_bytes3, address_bytes4, selections, erase_transaction, instruction, is_erase,
    lemma_address_bytes, Step, BLOCK_SIZE, BUSY_POLL_US, SECTOR_SIZE,
};
use crate::types::Command;

verus! {

impl<SPI: SpiInterface, CS: CsPin, Timer: Delay> SpiFlash<SPI, CS, Timer> {
    /// Runs an erase whose starting transaction sends `tx`: write enable,
    /// `tx`, a wait for the device, write disable. The outcome of the wait
    /// is not reported.
    fn erase(&mut self, tx: &[u8]) -> (r: Result<(), SpiFlashError<SPI::SpiError, CS::IoError>>)
        requires
            old(self).wf(),
        ensures
            r is Ok,
            final(self).wf(),
            final(self).continues(*old(self)),
            is_erase(final(self).since(*old(self)), seq![Transfer::Write(tx@)]),
    {
        let _ = self.lock();
        let _ = self.write_enable();
        let ghost enabled = *self;
        let _ = self.cs_drive(true);
        let _ = self.bus_write(tx);
        let _ = self.cs_drive(false);
        let ghost t = seq![Transfer::Write(tx@)];
        proof {
            assert(self.bus() == enabled.bus() + t);
            assert(self.issue_levels() =~= enabled.issue_levels() + Seq::new(
                t.len(),
                |i: int| 2 * selections(enabled.steps()) + 1,
            ));
            lemma_record_transaction(
                self.bus_origin@,
                self.cs_origin@,
                self.history@,
                self.timer_states@,
                t,
                self.issue_levels@,
            );
            self.history@ = self.history@.push(Step::Transaction(t));
            self.timer_states@ = self.timer_states@.push(self.timer_states@.last());
            assert(self.since(*old(self)) =~= seq![
                Step::Transaction(instruction(Command::WriteEnable)),
                Step::Transaction(t),
            ]);
        }
        let ghost started = *self;
        let _ = self.wait_for_writing(BUSY_POLL_US);
        let ghost waited = *self;
        let _ = self.write_disable();
        let _ = self.unlock();
        proof {
            assert(self.since(*old(self)) =~= started.since(*old(self)) + waited.since(started)
                + seq![Step::Transaction(instruction(Command::WriteDisable))]);
            assert(self.since(*old(self)).subrange(2, self.since(*old(self)).len() - 1)
                =~= waited.since(started));
        }
        Ok(())
    }

    /// Erases the whole device.
    pub fn erase_chip(&mut self) -> (r: Result<(), SpiFlashError<SPI::SpiError, CS::IoError>>)
        requires
            old(self).wf(),
        ensures
            r is Ok,
            final(self).wf(),
            final(self).continues(*old(self)),
            is_erase(final(self).since(*old(self)), instruction(Command::ChipErase1)),
    {
        let tx = [Command::ChipErase1.code()];
        assert(tx@ =~= seq![Command::ChipErase1.opcode()]);
        self.erase(&tx)
    }

    /// Erases sector `sector_number`: the sector erase instruction with
    /// three address bytes, or on devices of 512 blocks or more the one that
    /// takes four.
    pub fn erase_sector(&mut self, sector_number: u32) -> (r: Result<
        (),
        SpiFlashError<SPI::SpiError, CS::IoError>,
    >)
        requires
            old(self).wf(),
            sector_number * SECTOR_SIZE <= u32::MAX,
        ensures
            r is Ok,
            final(self).wf(),
            final(self).continues(*old(self)),
            is_erase(
                final(self).since(*old(self)),
                erase_transaction(
                    Command::SectorErase3Add,
                    Command::SectorErase4Add,
                    sector_number * SECTOR_SIZE,
                    old(self).info().block_count >= 512,
                ),
            ),
    {
        proof {
            lemma_address_bytes((sector_number * SECTOR_SIZE) as u32);
        }
        if self.block_count >= 512 {
            let tx = [
                Command::SectorErase4Add.code(),
                ((sector_number * SECTOR_SIZE) >> 24) as u8,
                ((sector_number * SECTOR_SIZE) >> 16) as u8,
                ((sector_number * SECTOR_SIZE) >> 8) as u8,
                (sector_number * SECTOR_SIZE) as u8,
            ];
            assert(tx@ =~= seq![Command::SectorErase4Add.opcode()] + address_bytes4(
                sector_number * SECTOR_SIZE,
            ));
            self.erase(&tx)
        } else {
            let tx = [
                Command::SectorErase3Add.code(),
                ((sector_number * SECTOR_SIZE) >> 16) as u8,
                ((sector_number * SECTOR_SIZE) >> 8) as u8,
                (sector_number * SECTOR_SIZE) as u8,
            ];
            assert(tx@ =~= seq![Command::SectorErase3Add.opcode()] + address_bytes3(
                sector_number * SECTOR_SIZE,
            ));
            self.erase(&tx)
        }
    }

    /// Erases block `block_number`: the block erase instruction with three
    /// address bytes, or on devices of 512 blocks or more the one that takes
    /// four.
    pub fn erase_block(&mut self, block_number: u32) -> (r: Result<
        (),
        SpiFlashError<SPI::SpiError, CS::IoError>,
    >)
        requires
            old(self).wf(),
            block_number * BLOCK_SIZE <= u32::MAX,
        ensures
            r is Ok,
            final(self).wf(),
            final(self).continues(*old(self)),
            is_erase(
                final(self).since(*old(self)),
                erase_transaction(
                    Command::BlockErase3Add,
                    Command::BlockErase4Add,
                    block_number * BLOCK_SIZE,
                    old(self).info().block_count >= 512,
                ),
            ),
    {
        proof {
            lemma_address_bytes((block_number * BLOCK_SIZE) as u32);
        }
        if self.block_count >= 512 {
            let tx = [
                Command::BlockErase4Add.code(),
                ((block_number * BLOCK_SIZE) >> 24) as u8,
                ((block_number * BLOCK_SIZE) >> 16) as u8,
                ((block_number * BLOCK_SIZE) >> 8) as u8,
                (block_number * BLOCK_SIZE) as u8,
            ];
            assert(tx@ =~= seq![Command::BlockErase4Add.opcode()] + address_bytes4(
                block_number * BLOCK_SIZE,
            ));
            self.erase(&tx)
        } else {
            let tx = [
                Command::BlockErase3Add.code(),
                ((block_number * BLOCK_SIZE) >> 16) as u8,
                ((block_number * BLOCK_SIZE) >> 8) as u8,
                (block_number * BLOCK_SIZE) as u8,
            ];
            assert(tx@ =~= seq![Command::BlockErase3Add.opcode()] + address_bytes3(
                block_number * BLOCK_SIZE,
            ));
            self.erase(&tx)
        }
    }
}

} // verus!
