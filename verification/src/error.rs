use vstd::prelude::*;

verus! {

/// What a flash operation can fail with.
#[derive(Debug)]
pub enum SpiFlashError<SpiErr, IoErr> {
    /// The SPI bus reported an error.
    Spi(SpiErr),
    /// The chip-select pin reported an error.
    Io(IoErr),
    /// The request does not fit the device, or the device did not finish.
    Protocol,
}

} // verus!
