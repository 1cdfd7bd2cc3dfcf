use vstd::prelude::*;

verus! {

/// Filler byte clocked out while the device answers.
pub const DUMMY_BYTE: u8 = 0xA5;

/// Instruction opcodes of the SPI NOR flash command set.
#[allow(non_camel_case_types)]
#[derive(Clone, Copy, Debug, PartialEq, Eq)]
pub enum Command {
    JEDECID,
    WriteEnable,
    WriteDisable,
    ReadStatus1,
    ReadStatus2,
    ReadStatus3,
    WriteStatus1,
    WriteStatus2,
    WriteStatus3,
    PageProg3Add,
    PageProg4Add,
    SectorErase3Add,
    SectorErase4Add,
    BlockErase3Add,
    BlockErase4Add,
    ChipErase1,
}

impl Command {
    /// The opcode byte of the instruction.
    pub open spec fn opcode(self) -> u8 {
        match self {
            Command::JEDECID => 0x9F,
            Command::WriteEnable => 0x06,
            Command::WriteDisable => 0x04,
            Command::ReadStatus1 => 0x05,
            Command::ReadStatus2 => 0x35,
            Command::ReadStatus3 => 0x15,
            Command::WriteStatus1 => 0x01,
            Command::WriteStatus2 => 0x31,
            Command::WriteStatus3 => 0x11,
            Command::PageProg3Add => 0x02,
            Command::PageProg4Add => 0x12,
            Command::SectorErase3Add => 0x20,
            Command::SectorErase4Add => 0x21,
            Command::BlockErase3Add => 0xD8,
            Command::BlockErase4Add => 0xDC,
            Command::ChipErase1 => 0x60,
        }
    }

    pub fn code(self) -> (r: u8)
        ensures
            r == self.opcode(),
    {
        match self {
            Command::JEDECID => 0x9F,
            Command::WriteEnable => 0x06,
            Command::WriteDisable => 0x04,
            Command::ReadStatus1 => 0x05,
            Command::ReadStatus2 => 0x35,
            Command::ReadStatus3 => 0x15,
            Command::WriteStatus1 => 0x01,
            Command::WriteStatus2 => 0x31,
            Command::WriteStatus3 => 0x11,
            Command::PageProg3Add => 0x02,
            Command::PageProg4Add => 0x12,
            Command::SectorErase3Add => 0x20,
            Command::SectorErase4Add => 0x21,
            Command::BlockErase3Add => 0xD8,
            Command::BlockErase4Add => 0xDC,
            Command::ChipErase1 => 0x60,
        }
    }
}

/// Bits of status register 1.
#[derive(Clone, Copy, Debug, PartialEq, Eq)]
pub enum Status1 {
    /// An erase or program operation is in progress.
    Busy,
}

impl Status1 {
    pub open spec fn bit(self) -> u8 {
        match self {
            Status1::Busy => 0x01,
        }
    }

    pub fn mask(self) -> (r: u8)
        ensures
            r == self.bit(),
    {
        match self {
            Status1::Busy => 0x01,
        }
    }
}

/// Manufacturers told apart by the first byte of the JEDEC identification.
#[derive(Clone, Copy, Debug, PartialEq, Eq)]
pub enum Manufactor {
    Error,
    Winbond,
    Issi,
    Micron,
    GigaDevice,
    Macronix,
    Spansion,
    Amic,
    Sst,
    Hyundai,
    Atmel,
    Fudan,
    Esmt,
    Intel,
    Sanyo,
    Fujitsu,
    Eon,
    Puya,
}

/// The manufacturer that a JEDEC manufacturer byte names.
pub open spec fn manufactor_of(id: u8) -> Manufactor {
    if id == 0xEF {
        Manufactor::Winbond
    } else if id == 0x9D {
        Manufactor::Issi
    } else if id == 0x20 {
        Manufactor::Micron
    } else if id == 0xC8 {
        Manufactor::GigaDevice
    } else if id == 0xC2 {
        Manufactor::Macronix
    } else if id == 0x01 {
        Manufactor::Spansion
    } else if id == 0x37 {
        Manufactor::Amic
    } else if id == 0xBF {
        Manufactor::Sst
    } else if id == 0xAD {
        Manufactor::Hyundai
    } else if id == 0x1F {
        Manufactor::Atmel
    } else if id == 0xA1 {
        Manufactor::Fudan
    } else if id == 0x8C {
        Manufactor::Esmt
    } else if id == 0x89 {
        Manufactor::Intel
    } else if id == 0x62 {
        Manufactor::Sanyo
    } else if id == 0x04 {
        Manufactor::Fujitsu
    } else if id == 0x1C {
        Manufactor::Eon
    } else if id == 0x85 {
        Manufactor::Puya
    } else {
        Manufactor::Error
    }
}

/// Capacities told apart by the third byte of the JEDEC identification.
#[derive(Clone, Copy, Debug, PartialEq, Eq)]
pub enum Size {
    Error,
    Mbit1,
    Mbit2,
    Mbit4,
    Mbit8,
    Mbit16,
    Mbit32,
    Mbit64,
    Mbit128,
    Mbit256,
    Mbit512,
}

/// The capacity that a JEDEC capacity byte names.
pub open spec fn size_of_code(code: u8) -> Size {
    if code == 0x11 {
        Size::Mbit1
    } else if code == 0x12 {
        Size::Mbit2
    } else if code == 0x13 {
        Size::Mbit4
    } else if code == 0x14 {
        Size::Mbit8
    } else if code == 0x15 {
        Size::Mbit16
    } else if code == 0x16 {
        Size::Mbit32
    } else if code == 0x17 {
        Size::Mbit64
    } else if code == 0x18 {
        Size::Mbit128
    } else if code == 0x19 {
        Size::Mbit256
    } else if code == 0x20 {
        Size::Mbit512
    } else {
        Size::Error
    }
}

impl Size {
    /// What the capacities are named for: a device of n Mbit holds 2n blocks
    /// of 64 KiB (128 KiB per Mbit); an unknown capacity holds none.
    pub proof fn lemma_blocks_name_capacity()
        ensures
            Size::Error.blocks() == 0,
            Size::Mbit1.blocks() == 2 * 1,
            Size::Mbit2.blocks() == 2 * 2,
            Size::Mbit4.blocks() == 2 * 4,
            Size::Mbit8.blocks() == 2 * 8,
            Size::Mbit16.blocks() == 2 * 16,
            Size::Mbit32.blocks() == 2 * 32,
            Size::Mbit64.blocks() == 2 * 64,
            Size::Mbit128.blocks() == 2 * 128,
            Size::Mbit256.blocks() == 2 * 256,
            Size::Mbit512.blocks() == 2 * 512,
            forall|a: Size, b: Size| a != b ==> a.blocks() != b.blocks(),
    {
    }

    /// Number of 64 KiB blocks of a device of this capacity (none for an unknown one).
    pub open spec fn blocks(self) -> u32 {
        match self {
            Size::Error => 0,
            Size::Mbit1 => 2,
            Size::Mbit2 => 4,
            Size::Mbit4 => 8,
            Size::Mbit8 => 16,
            Size::Mbit16 => 32,
            Size::Mbit32 => 64,
            Size::Mbit64 => 128,
            Size::Mbit128 => 256,
            Size::Mbit256 => 512,
            Size::Mbit512 => 1024,
        }
    }

    pub fn block_count(self) -> (r: u32)
        ensures
            r == self.blocks(),
            r <= 1024,
    {
        match self {
            Size::Error => 0,
            Size::Mbit1 => 2,
            Size::Mbit2 => 4,
            Size::Mbit4 => 8,
            Size::Mbit8 => 16,
            Size::Mbit16 => 32,
            Size::Mbit32 => 64,
            Size::Mbit64 => 128,
            Size::Mbit128 => 256,
            Size::Mbit256 => 512,
            Size::Mbit512 => 1024,
        }
    }
}

} // verus!
