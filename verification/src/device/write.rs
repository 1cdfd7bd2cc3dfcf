use vstd::prelude::*;

use super::{lemma_since_chain, SpiFlash};
use crate::error::SpiFlashError;
use crate::interface::{CsPin, Delay, SpiInterface};
use crate::misc::address_to_page;
use crate::protocol::{
    is_bus_reported, is_program_answered,
    address_chunks, covers_reached, first_chunk_len, is_chunked_outcome, is_chunked_run, is_completed_chunk,
    is_program_outcome, lemma_page_chunks_unfold, page_chunks, page_fill, region_fill, BLOCK_SIZE,
    PAGE_SIZE, SECTOR_SIZE, Step,
};

verus! {

impl<SPI: SpiInterface, CS: CsPin, Timer: Delay> SpiFlash<SPI, CS, Timer> {
    /// Programs the bytes of `data[..size]` that fit in page `page_number`
    /// from `offset` on; `Protocol` when the page or the offset is out of
    /// range, with the driver left as it was. A bus error on the header or
    /// the data ends the program with that error; otherwise both were
    /// acknowledged.
    pub fn write_page(&mut self, page_number: u32, data: &[u8], size: u32, offset: u32) -> (r:
        Result<(), SpiFlashError<SPI::SpiError, CS::IoError>>)
        requires
            old(self).wf(),
            page_number < old(self).info().page_count && offset < PAGE_SIZE ==> page_fill(
                size as int,
                offset as int,
            ) <= data@.len(),
        ensures
            final(self).wf(),
            final(self).continues(*old(self)),
            is_program_outcome(
                final(self).since(*old(self)),
                page_number as int,
                offset as int,
                size as int,
                data@,
                old(self).info().page_count as int,
                old(self).info().block_count >= 512,
                r,
            ),
            page_number >= old(self).info().page_count || offset >= PAGE_SIZE ==> *final(self)
                == *old(self),
            is_program_answered(
                final(self).bus_results(),
                old(self).bus_results().len() as int,
                final(self).since(*old(self)),
                page_number < old(self).info().page_count && offset < PAGE_SIZE,
                r,
            ),
    {
        self.lock()?;
        let r = self.write(page_number, data, size, offset);
        let _ = self.unlock();
        r
    }

    /// Programs `data[..size]` from byte address `address` on, one page
    /// piece at a time; stops at the first piece that fails.
    pub fn write_address(&mut self, address: u32, data: &[u8], size: u32) -> (r: Result<
        (),
        SpiFlashError<SPI::SpiError, CS::IoError>,
    >)
        requires
            old(self).wf(),
            covers_reached(
                address_chunks(address as nat, size as nat),
                address as nat,
                data@.len() as int,
                old(self).info().page_count as int,
            ),
        ensures
            final(self).wf(),
            final(self).continues(*old(self)),
            is_chunked_outcome(
                final(self).since(*old(self)),
                address_chunks(address as nat, size as nat),
                address as nat,
                data@,
                old(self).info().page_count as int,
                old(self).info().block_count >= 512,
                r,
            ),
            is_bus_reported(final(self).bus_results(), old(self).bus_results().len() as int, r),
    {
        self.lock()?;
        let ghost chunks = address_chunks(address as nat, size as nat);
        let ghost page_count = old(self).info().page_count as int;
        let ghost wide = old(self).info().block_count >= 512;
        let ghost start = *self;
        let mut add = address;
        let mut remaining = size;
        let mut index: u32 = 0;
        let ghost mut done: Seq<(nat, nat)> = Seq::empty();
        let ghost mut rest: Seq<(nat, nat)> = chunks;
        let ghost mut parts: Seq<Seq<Step>> = Seq::empty();
        proof {
            assert(start.since(*old(self)) =~= Seq::<Step>::empty());
        }
        loop
            invariant_except_break
                done.len() > 0 ==> remaining > 0,
                rest == if done.len() == 0 {
                    address_chunks(add as nat, remaining as nat)
                } else {
                    page_chunks(add as nat, remaining as nat)
                },
            invariant
                self.consistent(),
                self.is_locked(),
                self.continues(*old(self)),
                old(self).wf(),
                page_count == old(self).info().page_count,
                wide == (old(self).info().block_count >= 512),
                chunks == address_chunks(address as nat, size as nat),
                index <= size,
                add == address + index,
                remaining == size - index,
                covers_reached(chunks, address as nat, data@.len() as int, page_count),
                page_count <= 0x40000,
                done.len() > 0 ==> add <= page_count * PAGE_SIZE,
                chunks == done + rest,
                parts.len() == done.len(),
                self.since(*old(self)) == parts.flatten(),
                forall|i: int|
                    0 <= i < parts.len() ==> is_completed_chunk(
                        #[trigger] parts[i],
                        done[i],
                        address as nat,
                        data@,
                        page_count,
                        wide,
                    ),
            ensures
                self.consistent(),
                self.is_locked(),
                self.continues(*old(self)),
                rest.len() == 0,
                chunks == done,
                parts.len() == done.len(),
                self.since(*old(self)) == parts.flatten(),
                forall|i: int|
                    0 <= i < parts.len() ==> is_completed_chunk(
                        #[trigger] parts[i],
                        done[i],
                        address as nat,
                        data@,
                        page_count,
                        wide,
                    ),
            decreases remaining, rest.len(),
        {
            let page = address_to_page(add);
            let offset = add % PAGE_SIZE;
            let maximum = PAGE_SIZE - offset;
            let length = if remaining <= maximum {
                remaining
            } else {
                maximum
            };
            proof {
                if remaining > 0 {
                    lemma_page_chunks_unfold(add as nat, remaining as nat);
                }
                assert(length == first_chunk_len(add as nat, remaining as nat));
                assert(rest.len() > 0 && rest[0] == (add as nat, length as nat));
                assert(chunks[done.len() as int] == rest[0]);
                assert(index + length <= data@.len()) by {
                    assert forall|j: int| 0 <= j < done.len() implies (#[trigger] chunks[j]).0 / (
                    PAGE_SIZE as nat) < page_count by {
                        assert(chunks[j] == done[j]);
                        assert(is_completed_chunk(parts[j], done[j], address as nat, data@, page_count, wide));
                    }
                    reveal(covers_reached);
                }
            }
            let piece = &data[index as usize..(index + length) as usize];
            let ghost before = *self;
            let result = self.write(page, piece, length, offset);
            let ghost seg = self.since(before);
            proof {
                lemma_since_chain(*old(self), before, *self);
                parts.lemma_flatten_push(seg);
                assert(piece@ == data@.subrange(
                    (add - address) as int,
                    (add - address + length) as int,
                ));
                assert(piece@.take(page_fill(length as int, offset as int)) =~= piece@);
                assert(page * PAGE_SIZE + offset == add);
            }
            if let Err(e) = result {
                let ghost failed = *self;
                let _ = self.unlock();
                proof {
                    if e is Spi {
                        let x = e->Spi_0;
                        let n = before.bus_results().len() as int;
                        if seg[1]->Transaction_0.len() == 1 {
                            assert(failed.bus_results()[n + 1] == Err::<(), SPI::SpiError>(x));
                        } else {
                            assert(failed.bus_results()[n + 2] == Err::<(), SPI::SpiError>(x));
                        }
                    }
                    let p2 = parts.push(seg);
                    assert(done + rest =~= done.push(rest[0]) + rest.drop_first());
                    assert(chunks[p2.len() - 1] == (add as nat, length as nat));
                    assert(is_chunked_run(
                        p2,
                        self.since(*old(self)),
                        chunks,
                        address as nat,
                        data@,
                        page_count,
                        wide,
                        Err::<(), _>(e),
                    ));
                }
                return Err(e);
            }
            proof {
                assert(is_completed_chunk(
                    seg,
                    (add as nat, length as nat),
                    address as nat,
                    data@,
                    page_count,
                    wide,
                ));
                assert(done + rest =~= done.push(rest[0]) + rest.drop_first());
                assert(page < page_count);
                assert(add + length <= page_count * PAGE_SIZE) by (nonlinear_arith)
                    requires
                        page < page_count,
                        add == page * PAGE_SIZE + offset,
                        length <= PAGE_SIZE - offset,
                ;
                parts = parts.push(seg);
                done = done.push(rest[0]);
                rest = rest.drop_first();
            }
            add += length;
            index += length;
            remaining -= length;
            if remaining == 0 {
                break;
            }
        }
        let _ = self.unlock();
        proof {
            assert(is_chunked_run(
                parts,
                self.since(*old(self)),
                chunks,
                address as nat,
                data@,
                page_count,
                wide,
                Ok::<(), SpiFlashError<SPI::SpiError, CS::IoError>>(()),
            ));
        }
        Ok(())
    }

    /// Programs `data[..size]` page by page from offset `page_offset` of page
    /// `page_number` on, while pages below `page_limit` remain; stops at the
    /// first page that fails.
    fn program_pages(
        &mut self,
        first_page: u32,
        first_offset: u32,
        page_limit: u32,
        data: &[u8],
        size: u32,
    ) -> (r: Result<(), SpiFlashError<SPI::SpiError, CS::IoError>>)
        requires
            old(self).consistent(),
            first_offset < PAGE_SIZE,
            first_page * PAGE_SIZE + first_offset + size <= page_limit * PAGE_SIZE,
            covers_reached(
                page_chunks((first_page * PAGE_SIZE + first_offset) as nat, size as nat),
                (first_page * PAGE_SIZE + first_offset) as nat,
                data@.len() as int,
                old(self).info().page_count as int,
            ),
        ensures
            final(self).consistent(),
            final(self).continues(*old(self)),
            final(self).is_locked() == old(self).is_locked(),
            is_chunked_outcome(
                final(self).since(*old(self)),
                page_chunks((first_page * PAGE_SIZE + first_offset) as nat, size as nat),
                (first_page * PAGE_SIZE + first_offset) as nat,
                data@,
                old(self).info().page_count as int,
                old(self).info().block_count >= 512,
                r,
            ),
            is_bus_reported(final(self).bus_results(), old(self).bus_results().len() as int, r),
    {
        let ghost base = (first_page * PAGE_SIZE + first_offset) as nat;
        let ghost chunks = page_chunks(base, size as nat);
        let ghost page_count = old(self).info().page_count as int;
        let ghost wide = old(self).info().block_count >= 512;
        let ghost start = *self;
        let mut bytes_written: u32 = 0;
        let mut remaining_bytes = size;
        let mut page_number = first_page;
        let mut page_offset = first_offset;
        let ghost mut done: Seq<(nat, nat)> = Seq::empty();
        let ghost mut rest: Seq<(nat, nat)> = chunks;
        let ghost mut parts: Seq<Seq<Step>> = Seq::empty();
        proof {
            assert(start.since(*old(self)) =~= Seq::<Step>::empty());
        }
        while remaining_bytes > 0 && page_number < page_limit
            invariant
                self.consistent(),
                self.is_locked() == old(self).is_locked(),
                self.continues(*old(self)),
                page_count == old(self).info().page_count,
                wide == (old(self).info().block_count >= 512),
                chunks == page_chunks(base, size as nat),
                base == (first_page * PAGE_SIZE + first_offset) as nat,
                page_offset < PAGE_SIZE,
                bytes_written <= size,
                remaining_bytes == size - bytes_written,
                covers_reached(chunks, base, data@.len() as int, page_count),
                base + size <= page_limit * PAGE_SIZE,
                remaining_bytes > 0 ==> page_number * PAGE_SIZE + page_offset == base + bytes_written,
                rest == page_chunks((base + bytes_written) as nat, remaining_bytes as nat),
                chunks == done + rest,
                parts.len() == done.len(),
                self.since(*old(self)) == parts.flatten(),
                forall|i: int|
                    0 <= i < parts.len() ==> is_completed_chunk(
                        #[trigger] parts[i],
                        done[i],
                        base,
                        data@,
                        page_count,
                        wide,
                    ),
            decreases remaining_bytes,
        {
            let bytes_to_write = remaining_bytes.min(PAGE_SIZE - page_offset);
            let ghost cur: nat = (base + bytes_written) as nat;
            proof {
                lemma_page_chunks_unfold(cur, remaining_bytes as nat);
                assert(cur % (PAGE_SIZE as nat) == page_offset as nat);
                assert(bytes_to_write == first_chunk_len(cur, remaining_bytes as nat));
                assert(rest[0] == (cur, bytes_to_write as nat));
                assert(done + rest =~= done.push(rest[0]) + rest.drop_first());
                assert(chunks[done.len() as int] == rest[0]);
                assert(bytes_written + bytes_to_write <= data@.len()) by {
                    assert forall|j: int| 0 <= j < done.len() implies (#[trigger] chunks[j]).0 / (
                    PAGE_SIZE as nat) < page_count by {
                        assert(chunks[j] == done[j]);
                        assert(is_completed_chunk(parts[j], done[j], base, data@, page_count, wide));
                    }
                    reveal(covers_reached);
                }
            }
            let piece = &data[bytes_written as usize..(bytes_written + bytes_to_write) as usize];
            let ghost before = *self;
            let result = self.write(page_number, piece, bytes_to_write, page_offset);
            let ghost seg = self.since(before);
            proof {
                lemma_since_chain(*old(self), before, *self);
                parts.lemma_flatten_push(seg);
                assert(piece@ == data@.subrange(
                    (cur - base) as int,
                    (cur - base + bytes_to_write) as int,
                ));
                assert(piece@.take(page_fill(bytes_to_write as int, page_offset as int)) =~= piece@);
                assert(cur / (PAGE_SIZE as nat) == page_number as nat);
                assert(done + rest =~= done.push(rest[0]) + rest.drop_first());
            }
            if let Err(e) = result {
                proof {
                    if e is Spi {
                        let x = e->Spi_0;
                        let n = before.bus_results().len() as int;
                        if seg[1]->Transaction_0.len() == 1 {
                            assert(self.bus_results()[n + 1] == Err::<(), SPI::SpiError>(x));
                        } else {
                            assert(self.bus_results()[n + 2] == Err::<(), SPI::SpiError>(x));
                        }
                    }
                    let p2 = parts.push(seg);
                    assert(chunks[p2.len() - 1] == (cur, bytes_to_write as nat));
                    assert(is_chunked_run(
                        p2,
                        self.since(*old(self)),
                        chunks,
                        base,
                        data@,
                        page_count,
                        wide,
                        Err::<(), _>(e),
                    ));
                    assert(is_chunked_outcome(
                        self.since(*old(self)),
                        chunks,
                        base,
                        data@,
                        page_count,
                        wide,
                        Err::<(), SpiFlashError<SPI::SpiError, CS::IoError>>(e),
                    ));
                }
                return Err(e);
            }
            proof {
                assert(is_completed_chunk(
                    seg,
                    (cur, bytes_to_write as nat),
                    base,
                    data@,
                    page_count,
                    wide,
                ));
                parts = parts.push(seg);
                done = done.push(rest[0]);
                rest = rest.drop_first();
            }
            bytes_written += bytes_to_write;
            remaining_bytes -= bytes_to_write;
            page_number += 1;
            page_offset = 0;
        }
        proof {
            assert(is_chunked_run(
                parts,
                self.since(*old(self)),
                chunks,
                base,
                data@,
                page_count,
                wide,
                Ok::<(), SpiFlashError<SPI::SpiError, CS::IoError>>(()),
            ));
        }
        Ok(())
    }

    /// Programs the bytes of `data[..size]` that fit in sector
    /// `sector_number` from `offset` on, one page piece at a time; stops at
    /// the first piece that fails. `Protocol` when the offset is outside the
    /// sector.
    pub fn write_sector(&mut self, sector_number: u32, data: &[u8], size: u32, offset: u32) -> (r:
        Result<(), SpiFlashError<SPI::SpiError, CS::IoError>>)
        requires
            old(self).wf(),
            offset < SECTOR_SIZE ==> (sector_number + 1) * 16 <= u32::MAX,
            offset < SECTOR_SIZE ==> covers_reached(
                page_chunks(
                    (sector_number * SECTOR_SIZE + offset) as nat,
                    region_fill(size as int, offset as int, SECTOR_SIZE as int) as nat,
                ),
                (sector_number * SECTOR_SIZE + offset) as nat,
                data@.len() as int,
                old(self).info().page_count as int,
            ),
        ensures
            final(self).wf(),
            final(self).continues(*old(self)),
            if offset >= SECTOR_SIZE {
                &&& r matches Err(SpiFlashError::Protocol)
                &&& *final(self) == *old(self)
            } else {
                is_chunked_outcome(
                    final(self).since(*old(self)),
                    page_chunks(
                        (sector_number * SECTOR_SIZE + offset) as nat,
                        region_fill(size as int, offset as int, SECTOR_SIZE as int) as nat,
                    ),
                    (sector_number * SECTOR_SIZE + offset) as nat,
                    data@,
                    old(self).info().page_count as int,
                    old(self).info().block_count >= 512,
                    r,
                )
            },
            is_bus_reported(final(self).bus_results(), old(self).bus_results().len() as int, r),
    {
        self.lock()?;
        if offset >= SECTOR_SIZE {
            self.unlock()?;
            return Err(SpiFlashError::Protocol);
        }
        assert(sector_number * (SECTOR_SIZE / PAGE_SIZE) + offset / PAGE_SIZE < (sector_number + 1) * (SECTOR_SIZE
            / PAGE_SIZE) <= u32::MAX) by (nonlinear_arith)
            requires
                (sector_number + 1) * 16 <= u32::MAX,
                offset < SECTOR_SIZE,
        ;
        let size = size.min(SECTOR_SIZE - offset);
        let page_number = sector_number * (SECTOR_SIZE / PAGE_SIZE) + offset / PAGE_SIZE;
        let page_offset = offset % PAGE_SIZE;
        let page_limit = (sector_number + 1) * (SECTOR_SIZE / PAGE_SIZE);
        assert(page_number * PAGE_SIZE + page_offset == sector_number * SECTOR_SIZE + offset
            && page_limit * PAGE_SIZE == (sector_number + 1) * SECTOR_SIZE) by (nonlinear_arith)
            requires
                page_number == sector_number * 16 + offset / 256,
                page_offset == offset % 256,
                page_limit == (sector_number + 1) * 16,
                PAGE_SIZE == 256,
                SECTOR_SIZE == 256 * 16,
        ;
        let r = self.program_pages(page_number, page_offset, page_limit, data, size);
        let _ = self.unlock();
        r
    }

    /// Programs the bytes of `data[..size]` that fit in block `block_number`
    /// from `offset` on, one page piece at a time; stops at the first piece
    /// that fails. `Protocol` when the offset is outside the block.
    pub fn write_block(&mut self, block_number: u32, data: &[u8], size: u32, offset: u32) -> (r:
        Result<(), SpiFlashError<SPI::SpiError, CS::IoError>>)
        requires
            old(self).wf(),
            offset < BLOCK_SIZE ==> (block_number + 1) * 256 <= u32::MAX,
            offset < BLOCK_SIZE ==> covers_reached(
                page_chunks(
                    (block_number * BLOCK_SIZE + offset) as nat,
                    region_fill(size as int, offset as int, BLOCK_SIZE as int) as nat,
                ),
                (block_number * BLOCK_SIZE + offset) as nat,
                data@.len() as int,
                old(self).info().page_count as int,
            ),
        ensures
            final(self).wf(),
            final(self).continues(*old(self)),
            if offset >= BLOCK_SIZE {
                &&& r matches Err(SpiFlashError::Protocol)
                &&& *final(self) == *old(self)
            } else {
                is_chunked_outcome(
                    final(self).since(*old(self)),
                    page_chunks(
                        (block_number * BLOCK_SIZE + offset) as nat,
                        region_fill(size as int, offset as int, BLOCK_SIZE as int) as nat,
                    ),
                    (block_number * BLOCK_SIZE + offset) as nat,
                    data@,
                    old(self).info().page_count as int,
                    old(self).info().block_count >= 512,
                    r,
                )
            },
            is_bus_reported(final(self).bus_results(), old(self).bus_results().len() as int, r),
    {
        self.lock()?;
        if offset >= BLOCK_SIZE {
            self.unlock()?;
            return Err(SpiFlashError::Protocol);
        }
        assert(block_number * (BLOCK_SIZE / PAGE_SIZE) + offset / PAGE_SIZE < (block_number + 1) * (BLOCK_SIZE
            / PAGE_SIZE) <= u32::MAX) by (nonlinear_arith)
            requires
                (block_number + 1) * 256 <= u32::MAX,
                offset < BLOCK_SIZE,
        ;
        let size = size.min(BLOCK_SIZE - offset);
        let page_number = block_number * (BLOCK_SIZE / PAGE_SIZE) + offset / PAGE_SIZE;
        let page_offset = offset % PAGE_SIZE;
        let page_limit = (block_number + 1) * (BLOCK_SIZE / PAGE_SIZE);
        assert(page_number * PAGE_SIZE + page_offset == block_number * BLOCK_SIZE + offset
            && page_limit * PAGE_SIZE == (block_number + 1) * BLOCK_SIZE) by (nonlinear_arith)
            requires
                page_number == block_number * 256 + offset / 256,
                page_offset == offset % 256,
                page_limit == (block_number + 1) * 256,
                PAGE_SIZE == 256,
                BLOCK_SIZE == 256 * 256,
        ;
        let r = self.program_pages(page_number, page_offset, page_limit, data, size);
        let _ = self.unlock();
        r
    }
}

} // verus!
