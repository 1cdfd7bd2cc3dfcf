//! A driver for Winbond W25Q and similar SPI NOR flash devices.
pub mod device;
pub mod error;
pub mod interface;
pub mod misc;
pub mod mock;
pub mod protocol;
pub mod types;

pub use device::SpiFlash;
pub use misc::{
    address_to_block, address_to_page, address_to_sector, block_to_address, block_to_page,
    page_to_address, page_to_block, page_to_sector, sector_to_address, sector_to_block,
    sector_to_page,
};
pub use types::{Command, Manufactor, Size, Status1, DUMMY_BYTE};
