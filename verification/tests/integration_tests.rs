use spi_flash::device::SpiFlash;
use spi_flash::error::SpiFlashError;
use spi_flash::interface::{CsPin, Delay, SpiInterface};
use spi_flash::mock::{MockCs, MockDelay, MockError, MockSpi};
use spi_flash::types::{Command, Manufactor, Size, Status1, DUMMY_BYTE};
use spi_flash::{
    address_to_block, address_to_page, address_to_sector, block_to_address, block_to_page,
    page_to_address, page_to_block, page_to_sector, sector_to_address, sector_to_block,
    sector_to_page,
};

type MockFlash = SpiFlash<MockSpi, MockCs, MockDelay>;

fn flash_with_id(id: [u8; 3]) -> MockFlash {
    let mut spi = MockSpi::new();
    spi.jedec_id = id;
    match SpiFlash::new(spi, MockCs::new(), MockDelay) {
        Ok(dev) => dev,
        Err(_) => panic!("identification does not fail"),
    }
}

fn mock_flash() -> MockFlash {
    flash_with_id([0xEF, 0x40, 0x18])
}

fn is_protocol(r: &Result<(), SpiFlashError<MockError, ()>>) -> bool {
    matches!(r, Err(SpiFlashError::Protocol))
}

#[test]
fn test_always_passes() {
    assert!(true);
}

#[test]
fn new_identifies_the_mock_device() {
    let dev = mock_flash();
    assert_eq!(dev.manufactor(), Manufactor::Winbond);
    assert_eq!(dev.size(), Size::Mbit128);
    assert_eq!(dev.memory_type(), 0x40);
    assert_eq!(dev.block_count(), 256);
    assert_eq!(dev.sector_count(), 4096);
    assert_eq!(dev.page_count(), 65536);
}

#[test]
fn new_decodes_other_manufacturers_and_capacities() {
    let dev = flash_with_id([0xC2, 0x20, 0x19]);
    assert_eq!(dev.manufactor(), Manufactor::Macronix);
    assert_eq!(dev.size(), Size::Mbit256);
    assert_eq!(dev.memory_type(), 0x20);
    assert_eq!(dev.block_count(), 512);
    assert_eq!(dev.sector_count(), 8192);
    assert_eq!(dev.page_count(), 131072);

    let dev = flash_with_id([0x20, 0xBA, 0x11]);
    assert_eq!(dev.manufactor(), Manufactor::Micron);
    assert_eq!(dev.size(), Size::Mbit1);
    assert_eq!(dev.block_count(), 2);
    assert_eq!(dev.sector_count(), 32);
    assert_eq!(dev.page_count(), 512);

    let dev = flash_with_id([0x85, 0x60, 0x20]);
    assert_eq!(dev.manufactor(), Manufactor::Puya);
    assert_eq!(dev.size(), Size::Mbit512);
    assert_eq!(dev.block_count(), 1024);
}

#[test]
fn new_reports_unknown_identification_as_error() {
    let dev = flash_with_id([0x00, 0x00, 0x00]);
    assert_eq!(dev.manufactor(), Manufactor::Error);
    assert_eq!(dev.size(), Size::Error);
    assert_eq!(dev.memory_type(), 0x00);
    assert_eq!(dev.block_count(), 0);
    assert_eq!(dev.sector_count(), 0);
    assert_eq!(dev.page_count(), 0);
}

#[test]
fn write_page_succeeds_in_range() {
    let mut dev = mock_flash();
    let data = [0xABu8, 2, 3, 4];
    assert!(dev.write_page(0, &data, 4, 0).is_ok());
    assert!(dev.write_page(65535, &data, 4, 252).is_ok());
    // more bytes than fit are cut at the end of the page
    let big = [7u8; 300];
    assert!(dev.write_page(3, &big, 300, 10).is_ok());
    // the device is free again after each write
    assert!(dev.write_page(4, &data, 0, 0).is_ok());
}

#[test]
fn write_page_rejects_page_out_of_range() {
    let mut dev = mock_flash();
    let data = [0xABu8, 2, 3, 4];
    assert!(is_protocol(&dev.write_page(65536, &data, 4, 0)));
    assert!(is_protocol(&dev.write_page(u32::MAX, &data, 4, 0)));
    // the device stays usable after a rejected request
    assert!(dev.write_page(1, &data, 4, 0).is_ok());
}

#[test]
fn write_page_rejects_offset_out_of_range() {
    let mut dev = mock_flash();
    let data = [0xABu8, 2, 3, 4];
    assert!(is_protocol(&dev.write_page(0, &data, 4, 256)));
    assert!(is_protocol(&dev.write_page(0, &data, 4, 1000)));
}

#[test]
fn unknown_device_rejects_every_page() {
    let mut dev = flash_with_id([0x00, 0x00, 0x00]);
    let data = [0xABu8, 2, 3, 4];
    assert!(is_protocol(&dev.write_page(0, &data, 4, 0)));
    assert!(is_protocol(&dev.write_address(0, &data, 4)));
    assert!(is_protocol(&dev.write_sector(0, &data, 4, 0)));
    assert!(is_protocol(&dev.write_block(0, &data, 4, 0)));
}

#[test]
fn write_address_spans_pages() {
    let mut dev = mock_flash();
    let data = [0x55u8; 1000];
    assert!(dev.write_address(200, &data, 1000).is_ok());
    assert!(dev.write_address(0, &data, 0).is_ok());
    assert!(dev.write_address(256 * 65535, &data, 256).is_ok());
}

#[test]
fn write_address_fails_past_the_last_page() {
    let mut dev = mock_flash();
    let data = [0x55u8; 512];
    // the first page is in range, the second is not
    assert!(is_protocol(&dev.write_address(256 * 65535 + 128, &data, 512)));
    assert!(is_protocol(&dev.write_address(256 * 65536, &data, 1)));
    assert!(dev.write_address(0, &data, 512).is_ok());
}

#[test]
fn write_sector_writes_within_the_sector() {
    let mut dev = mock_flash();
    let data = [0xAAu8; 5000];
    assert!(dev.write_sector(3, &data, 5000, 0).is_ok());
    assert!(dev.write_sector(3, &data, 100, 4000).is_ok());
    assert!(dev.write_sector(4095, &data, 4096, 0).is_ok());
    assert!(dev.write_sector(0, &data, 0, 0).is_ok());
}

#[test]
fn write_sector_rejects_offset_out_of_range() {
    let mut dev = mock_flash();
    let data = [0xAAu8; 16];
    assert!(is_protocol(&dev.write_sector(0, &data, 16, 4096)));
    assert!(is_protocol(&dev.write_sector(4096, &data, 16, 0)));
    assert!(dev.write_sector(1, &data, 16, 0).is_ok());
}

#[test]
fn write_block_writes_within_the_block() {
    let mut dev = mock_flash();
    let data = [0x11u8; 70000];
    assert!(dev.write_block(0, &data, 70000, 0).is_ok());
    assert!(dev.write_block(255, &data, 300, 65500).is_ok());
}

#[test]
fn write_block_rejects_offset_out_of_range() {
    let mut dev = mock_flash();
    let data = [0x11u8; 16];
    assert!(is_protocol(&dev.write_block(0, &data, 16, 65536)));
    assert!(is_protocol(&dev.write_block(256, &data, 16, 0)));
}

#[test]
fn erases_succeed() {
    let mut dev = mock_flash();
    assert!(dev.erase_chip().is_ok());
    assert!(dev.erase_sector(0).is_ok());
    assert!(dev.erase_sector(4095).is_ok());
    assert!(dev.erase_block(0).is_ok());
    assert!(dev.erase_block(255).is_ok());
    let data = [0xABu8; 8];
    assert!(dev.write_page(0, &data, 8, 0).is_ok());
}

#[test]
fn unit_conversions() {
    assert_eq!(page_to_sector(0), 0);
    assert_eq!(page_to_sector(15), 0);
    assert_eq!(page_to_sector(16), 1);
    assert_eq!(page_to_sector(35), 2);
    assert_eq!(page_to_block(255), 0);
    assert_eq!(page_to_block(256), 1);
    assert_eq!(page_to_block(1000), 3);
    assert_eq!(sector_to_block(15), 0);
    assert_eq!(sector_to_block(16), 1);
    assert_eq!(sector_to_block(33), 2);
    assert_eq!(sector_to_page(3), 48);
    assert_eq!(block_to_page(2), 512);
    assert_eq!(page_to_address(3), 768);
    assert_eq!(sector_to_address(2), 8192);
    assert_eq!(block_to_address(3), 196608);
    assert_eq!(address_to_page(767), 2);
    assert_eq!(address_to_page(768), 3);
    assert_eq!(address_to_sector(8191), 1);
    assert_eq!(address_to_sector(8192), 2);
    assert_eq!(address_to_block(65535), 0);
    assert_eq!(address_to_block(196608), 3);
    assert_eq!(address_to_page(u32::MAX), 0x00FF_FFFF);
    assert_eq!(page_to_address(0x00FF_FFFF), 0xFFFF_FF00);
}

#[test]
fn unit_conversions_round_trip() {
    for n in [0u32, 1, 7, 255, 4096, 65535] {
        assert_eq!(address_to_page(page_to_address(n)), n);
        assert_eq!(address_to_sector(sector_to_address(n)), n);
        assert_eq!(page_to_sector(sector_to_page(n)), n);
    }
    for n in [0u32, 1, 7, 255, 4095] {
        assert_eq!(address_to_block(block_to_address(n)), n);
        assert_eq!(page_to_block(block_to_page(n)), n);
    }
    for a in [0u32, 1, 255, 256, 4097, 70000, 0x00FF_FFFF] {
        let p = address_to_page(a);
        assert!(page_to_address(p) <= a && a < page_to_address(p) + 256);
        assert_eq!(page_to_sector(p), address_to_sector(a));
        assert_eq!(page_to_block(p), address_to_block(a));
        assert_eq!(sector_to_block(address_to_sector(a)), address_to_block(a));
    }
}

#[test]
fn command_codes() {
    assert_eq!(Command::JEDECID.code(), 0x9F);
    assert_eq!(Command::WriteEnable.code(), 0x06);
    assert_eq!(Command::WriteDisable.code(), 0x04);
    assert_eq!(Command::ReadStatus1.code(), 0x05);
    assert_eq!(Command::PageProg3Add.code(), 0x02);
    assert_eq!(Command::PageProg4Add.code(), 0x12);
    assert_eq!(Command::SectorErase4Add.code(), 0x21);
    assert_eq!(Command::BlockErase4Add.code(), 0xDC);
    assert_eq!(Command::ChipErase1.code(), 0x60);
    assert_eq!(Status1::Busy.mask(), 0x01);
    assert_eq!(DUMMY_BYTE, 0xA5);
    assert_eq!(Size::Mbit128.block_count(), 256);
    assert_eq!(Size::Error.block_count(), 0);
}

#[test]
fn mock_spi_answers_identification() {
    let mut spi = MockSpi::new();
    assert!(spi.write(&[0x9F, 0xA5, 0xA5, 0xA5]).is_ok());
    let mut rx = [9u8; 4];
    assert!(spi.read(&mut rx).is_ok());
    assert_eq!(rx, [0x00, 0xEF, 0x40, 0x18]);
    // a buffer too short is left alone
    let mut short = [9u8; 3];
    assert!(spi.read(&mut short).is_ok());
    assert_eq!(short, [9, 9, 9]);
}

#[test]
fn mock_spi_reads_back_status_registers() {
    let mut spi = MockSpi::new();
    assert!(spi.write(&[0x01, 0x5A]).is_ok());
    assert!(spi.write(&[0x31, 0x3C]).is_ok());
    assert!(spi.write(&[0x11, 0x0F]).is_ok());
    assert_eq!((spi.status1, spi.status2, spi.status3), (0x5A, 0x3C, 0x0F));
    let mut rx = [0u8; 2];
    assert!(spi.write(&[0x05, 0xA5]).is_ok());
    assert!(spi.read(&mut rx).is_ok());
    assert_eq!(rx[1], 0x5A);
    assert!(spi.write(&[0x35, 0xA5]).is_ok());
    assert!(spi.read(&mut rx).is_ok());
    assert_eq!(rx[1], 0x3C);
    assert!(spi.write(&[0x15, 0xA5]).is_ok());
    assert!(spi.read(&mut rx).is_ok());
    assert_eq!(rx[1], 0x0F);
}

#[test]
fn mock_spi_follows_write_enable() {
    let mut spi = MockSpi::new();
    assert!(!spi.write_enabled);
    assert!(spi.write(&[0x06]).is_ok());
    assert!(spi.write_enabled);
    assert!(spi.write(&[0x04]).is_ok());
    assert!(!spi.write_enabled);
    // an empty write changes nothing
    assert!(spi.write(&[]).is_ok());
    assert!(!spi.write_enabled);
    // a read before any write leaves the buffer alone
    let mut fresh = MockSpi::new();
    let mut rx = [3u8; 4];
    assert!(fresh.read(&mut rx).is_ok());
    assert_eq!(rx, [3, 3, 3, 3]);
}

#[test]
fn mock_cs_and_delay() {
    let mut cs = MockCs::new();
    assert!(!cs.state_low);
    assert!(cs.set_low().is_ok());
    assert!(cs.state_low);
    assert!(cs.set_high().is_ok());
    assert!(!cs.state_low);
    let mut delay = MockDelay;
    delay.delay_ms(5);
    delay.delay_us(1500);
}

#[test]
fn erases_on_a_large_device() {
    let mut dev = flash_with_id([0xEF, 0x40, 0x19]);
    assert_eq!(dev.block_count(), 512);
    assert!(dev.erase_sector(8191).is_ok());
    assert!(dev.erase_block(511).is_ok());
    assert!(dev.erase_chip().is_ok());
    let data = [0xABu8; 8];
    assert!(dev.write_page(131071, &data, 8, 0).is_ok());
}

#[test]
fn write_address_near_the_top_of_the_address_space() {
    let mut dev = mock_flash();
    let data = [0x55u8; 512];
    assert!(is_protocol(&dev.write_address(0xFFFF_FF00, &data, 512)));
    // only the first piece has to be in the buffer when it is already past the device
    let short = [0x55u8; 256];
    assert!(is_protocol(&dev.write_address(256 * 65536, &short, 512)));
    assert!(dev.write_address(0, &data, 512).is_ok());
}

#[test]
fn region_writes_reject_offsets_before_any_arithmetic() {
    let mut dev = mock_flash();
    let empty: [u8; 0] = [];
    assert!(is_protocol(&dev.write_sector(u32::MAX, &empty, 16, 4096)));
    assert!(is_protocol(&dev.write_block(u32::MAX, &empty, 16, 65536)));
    // nothing to write: no piece, no traffic, success
    assert!(dev.write_sector(4096, &empty, 0, 0).is_ok());
    // the first piece lies past the device: only it has to be in the buffer
    let short = [0x55u8; 256];
    assert!(is_protocol(&dev.write_sector(4096, &short, 300, 0)));
    assert!(is_protocol(&dev.write_block(256, &short, 300, 0)));
}

#[test]
fn mock_writes_succeed_when_no_data_sets_busy() {
    let mut dev = mock_flash();
    // `01 02` reaches status register 1 of the mock, but 02 is not busy
    assert!(dev.write_page(0, &[1, 2, 3], 3, 254).is_ok());
    let data: Vec<u8> = (0u8..32).collect();
    assert!(dev.write_address(0x1F0, &data, 32).is_ok());
    assert!(dev.write_sector(0, &[7u8; 300], 300, 4000).is_ok());
    assert!(dev.write_block(1, &[9u8; 512], 512, 65280).is_ok());
}
