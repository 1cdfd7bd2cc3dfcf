# spi_flash

A driver for Winbond W25Q and similar SPI NOR flash devices, verified with Verus.

The driver talks to the device through three traits that the user implements
(`interface`): the SPI bus, the chip-select pin and a delay source. The bus and
the pin keep, as specification state, the record of every transfer and every
level they were asked for (and the bus what each transfer returned); the
bus also describes the device behind it (what a read brings in, what a
write or read leaves), and the timer what a wait does to it. The driver
records, for each transfer it requests, how many chip-select levels it had
driven and the bus state the transfer leaves. Its contracts say exactly which
steps each operation takes: transactions whose transfers all go out between
their own select and release, and the waits between status polls.

| Module | Contents |
|--------|----------|
| `device` | `SpiFlash`: identification, page programming (by page, address, sector, block), erasing |
| `protocol` | The transactions of the command set as specifications, the split of a write into page pieces, and their laws |
| `interface` | The bus, chip-select and delay traits |
| `types` | Commands, status bits, manufacturers, capacities |
| `misc` | Conversions between pages, sectors, blocks and addresses, and their laws |
| `error` | `SpiFlashError` |
| `mock` | A simulated device for tests, and what the driver's contracts give on it: page programs and page-by-page writes succeed when no data sets the device busy |
