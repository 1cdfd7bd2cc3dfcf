use vstd::prelude::*;

use crate::protocol::{BLOCK_SIZE, PAGE_SIZE, SECTOR_SIZE};

verus! {

/// First byte address of page `p`.
pub open spec fn page_start(p: int) -> int {
    p * PAGE_SIZE
}

/// First byte address of sector `s`.
pub open spec fn sector_start(s: int) -> int {
    s * SECTOR_SIZE
}

/// First byte address of block `b`.
pub open spec fn block_start(b: int) -> int {
    b * BLOCK_SIZE
}

/// The page that holds byte address `a`.
pub open spec fn page_of(a: int) -> int {
    a / PAGE_SIZE as int
}

/// The sector that holds byte address `a`.
pub open spec fn sector_of(a: int) -> int {
    a / SECTOR_SIZE as int
}

/// The block that holds byte address `a`.
pub open spec fn block_of(a: int) -> int {
    a / BLOCK_SIZE as int
}

/// From a page, sector or block to its first address and back gives it again.
pub proof fn lemma_start_round_trip(n: int)
    requires
        0 <= n,
    ensures
        page_of(page_start(n)) == n,
        sector_of(sector_start(n)) == n,
        block_of(block_start(n)) == n,
{
    assert(page_of(page_start(n)) == n) by (nonlinear_arith);
    assert(sector_of(sector_start(n)) == n) by (nonlinear_arith);
    assert(block_of(block_start(n)) == n) by (nonlinear_arith);
}

/// An address lies in the page, sector and block that hold it.
pub proof fn lemma_address_within(a: int)
    requires
        0 <= a,
    ensures
        page_start(page_of(a)) <= a < page_start(page_of(a)) + PAGE_SIZE,
        sector_start(sector_of(a)) <= a < sector_start(sector_of(a)) + SECTOR_SIZE,
        block_start(block_of(a)) <= a < block_start(block_of(a)) + BLOCK_SIZE,
{
    assert(page_start(page_of(a)) <= a < page_start(page_of(a)) + PAGE_SIZE) by (nonlinear_arith);
    assert(sector_start(sector_of(a)) <= a < sector_start(sector_of(a)) + SECTOR_SIZE)
        by (nonlinear_arith);
    assert(block_start(block_of(a)) <= a < block_start(block_of(a)) + BLOCK_SIZE)
        by (nonlinear_arith);
}

/// The units nest: the sector or block of an address is that of its page,
/// the block of an address is that of its sector, and the first page of a
/// sector or block lies in it.
pub proof fn lemma_units_nest(a: int, n: int)
    requires
        0 <= a,
        0 <= n,
    ensures
        sector_of(page_start(page_of(a))) == sector_of(a),
        block_of(page_start(page_of(a))) == block_of(a),
        block_of(sector_start(sector_of(a))) == block_of(a),
        sector_of(page_start(page_of(sector_start(n)))) == n,
        block_of(page_start(page_of(block_start(n)))) == n,
{
    assert(sector_of(page_start(page_of(a))) == sector_of(a)) by (nonlinear_arith);
    assert(block_of(page_start(page_of(a))) == block_of(a)) by (nonlinear_arith);
    assert(block_of(sector_start(sector_of(a))) == block_of(a)) by (nonlinear_arith);
    assert(sector_of(page_start(page_of(sector_start(n)))) == n) by (nonlinear_arith);
    assert(block_of(page_start(page_of(block_start(n)))) == n) by (nonlinear_arith);
}

/// The sector that holds page `page_number`.
pub fn page_to_sector(page_number: u32) -> (r: u32)
    requires
        page_number * PAGE_SIZE <= u32::MAX,
    ensures
        r == sector_of(page_start(page_number as int)),
{
    (page_number * PAGE_SIZE) / SECTOR_SIZE
}

/// The block that holds page `page_number`.
pub fn page_to_block(page_number: u32) -> (r: u32)
    requires
        page_number * PAGE_SIZE <= u32::MAX,
    ensures
        r == block_of(page_start(page_number as int)),
{
    (page_number * PAGE_SIZE) / BLOCK_SIZE
}

/// The block that holds sector `sector_number`.
pub fn sector_to_block(sector_number: u32) -> (r: u32)
    requires
        sector_number * SECTOR_SIZE <= u32::MAX,
    ensures
        r == block_of(sector_start(sector_number as int)),
{
    (sector_number * SECTOR_SIZE) / BLOCK_SIZE
}

/// The first page of sector `sector_number`.
pub fn sector_to_page(sector_number: u32) -> (r: u32)
    requires
        sector_number * SECTOR_SIZE <= u32::MAX,
    ensures
        r == page_of(sector_start(sector_number as int)),
{
    (sector_number * SECTOR_SIZE) / PAGE_SIZE
}

/// The first page of block `block_number`.
pub fn block_to_page(block_number: u32) -> (r: u32)
    requires
        block_number * BLOCK_SIZE <= u32::MAX,
    ensures
        r == page_of(block_start(block_number as int)),
{
    (block_number * BLOCK_SIZE) / PAGE_SIZE
}

/// The first byte address of page `page_number`.
pub fn page_to_address(page_number: u32) -> (r: u32)
    requires
        page_number * PAGE_SIZE <= u32::MAX,
    ensures
        r == page_start(page_number as int),
{
    page_number * PAGE_SIZE
}

/// The first byte address of sector `sector_number`.
pub fn sector_to_address(sector_number: u32) -> (r: u32)
    requires
        sector_number * SECTOR_SIZE <= u32::MAX,
    ensures
        r == sector_start(sector_number as int),
{
    sector_number * SECTOR_SIZE
}

/// The first byte address of block `block_number`.
pub fn block_to_address(block_number: u32) -> (r: u32)
    requires
        block_number * BLOCK_SIZE <= u32::MAX,
    ensures
        r == block_start(block_number as int),
{
    block_number * BLOCK_SIZE
}

/// The page that holds byte address `address`.
pub fn address_to_page(address: u32) -> (r: u32)
    ensures
        r == page_of(address as int),
{
    address / PAGE_SIZE
}

/// The sector that holds byte address `address`.
pub fn address_to_sector(address: u32) -> (r: u32)
    ensures
        r == sector_of(address as int),
{
    address / SECTOR_SIZE
}

/// The block that holds byte address `address`.
pub fn address_to_block(address: u32) -> (r: u32)
    ensures
        r == block_of(address as int),
{
    address / BLOCK_SIZE
}

} // verus!
