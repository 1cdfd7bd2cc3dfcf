use vstd::prelude::*;

verus! {

/// One transfer requested of the SPI bus, as the contracts see it.
pub enum Transfer {
    /// Bytes clocked out to the device.
    Write(Seq<u8>),
    /// Bytes clocked in from the device: the buffer as handed over, then as
    /// it came back.
    Read(Seq<u8>, Seq<u8>),
    /// A full-duplex exchange: bytes sent, the receive buffer as handed
    /// over, then as it came back.
    Exchange(Seq<u8>, Seq<u8>, Seq<u8>),
}

/// A level driven on the chip-select pin.
pub enum Level {
    /// Pin driven low: the device is selected.
    Low,
    /// Pin driven high: the device is released.
    High,
}

/// The SPI bus the flash device hangs on, with the device behind it.
///
/// `transfers` is the record of every transfer requested so far, and
/// `results` what the bus returned for each; an implementation promises that
/// each call appends exactly the transfer it was asked for, whether or not
/// the bus reported an error, and the result it returned. It also describes
/// the device: `answer` is what a read brings in from the device as it is,
/// `wrote` and `was_read` how a write or a read leaves bus and device.
pub trait SpiInterface {
    type SpiError: core::fmt::Debug;

    /// Every transfer requested of this bus so far, oldest first.
    spec fn transfers(&self) -> Seq<Transfer>;

    /// For every transfer requested of this bus so far, what it returned.
    spec fn results(&self) -> Seq<Result<(), Self::SpiError>>;

    /// What a read into a buffer holding `rx` brings in, from the device as it now is.
    spec fn answer(&self, rx: Seq<u8>) -> Seq<u8>;

    /// Whether `after` is what a write of `tx` leaves of bus and device `self`.
    spec fn wrote(&self, tx: Seq<u8>, after: &Self) -> bool;

    /// Whether `after` is what a read into a buffer holding `rx` leaves of bus
    /// and device `self`.
    spec fn was_read(&self, rx: Seq<u8>, after: &Self) -> bool;

    fn write(&mut self, tx: &[u8]) -> (r: Result<(), Self::SpiError>)
        ensures
            final(self).transfers() == old(self).transfers().push(Transfer::Write(tx@)),
            final(self).results() == old(self).results().push(r),
            old(self).wrote(tx@, final(self)),
    ;

    fn read(&mut self, rx: &mut [u8]) -> (r: Result<(), Self::SpiError>)
        ensures
            final(rx)@.len() == old(rx)@.len(),
            final(rx)@ == old(self).answer(old(rx)@),
            final(self).transfers() == old(self).transfers().push(
                Transfer::Read(old(rx)@, final(rx)@),
            ),
            final(self).results() == old(self).results().push(r),
            old(self).was_read(old(rx)@, final(self)),
    ;
}

/// A bus that can also send and receive at once.
pub trait SpiTransfer: SpiInterface {
    fn transfer(&mut self, tx: &[u8], rx: &mut [u8]) -> (r: Result<(), Self::SpiError>)
        ensures
            final(rx)@.len() == old(rx)@.len(),
            final(self).transfers() == old(self).transfers().push(
                Transfer::Exchange(tx@, old(rx)@, final(rx)@),
            ),
            final(self).results() == old(self).results().push(r),
    ;
}

/// The chip-select line of the device.
pub trait CsPin {
    type IoError;

    /// Every level driven on this pin so far, oldest first.
    spec fn levels(&self) -> Seq<Level>;

    fn set_low(&mut self) -> (r: Result<(), Self::IoError>)
        ensures
            final(self).levels() == old(self).levels().push(Level::Low),
    ;

    fn set_high(&mut self) -> (r: Result<(), Self::IoError>)
        ensures
            final(self).levels() == old(self).levels().push(Level::High),
    ;
}

/// A source of busy-wait delays.
///
/// `waited` is how an implementation describes a wait: it holds of the
/// states before and after a wait of `ms` milliseconds.
pub trait Delay {
    /// Whether `after` is what a wait of `ms` milliseconds leaves of `self`.
    spec fn waited(&self, after: &Self, ms: u32) -> bool;

    fn delay_ms(&mut self, ms: u32)
        ensures
            old(self).waited(final(self), ms),
    ;

    /// Waits `us` microseconds, rounded up to whole milliseconds.
    fn delay_us(&mut self, us: u32)
        requires
            us <= u32::MAX - 999,
        ensures
            old(self).waited(final(self), ((us + 999) / 1000) as u32),
    {
        let ms = (us + 999) / 1000;
        self.delay_ms(ms);
    }
}

} // verus!
