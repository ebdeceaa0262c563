//! Register programming of the 16550a UART, as a list of byte writes to its
//! memory-mapped registers.

use vstd::prelude::*;
use crate::layout::UART_LOC0;

verus! {

/// Transmit holding register.
pub const THR: u64 = 0;
/// Interrupt enable register.
pub const IER: u64 = 1;
/// FIFO control register.
pub const FCR: u64 = 2;
/// Line control register.
pub const LCR: u64 = 3;
/// Line status register.
pub const LSR: u64 = 5;

pub const LCR_BAUD_LATCH: u8 = 0x80;
pub const LCR_EIGHT_BITS: u8 = 3;
pub const FCR_FIFO_ENABLE: u8 = 1;
pub const FCR_FIFO_CLEAR: u8 = 6;
pub const IER_RX_ENABLE: u8 = 1;
pub const IER_TX_ENABLE: u8 = 2;
pub const LSR_TX_IDLE: u8 = 0x20;

/// Address of UART register `reg`.
pub fn reg_map(reg: u64) -> (r: u64)
    requires
        reg < 8,
    ensures
        r == UART_LOC0 + reg,
{
    UART_LOC0 + reg
}

/// The register writes of `uart_init`, as (address, value) pairs.
pub open spec fn init_writes() -> Seq<(u64, u8)> {
    seq![
        ((UART_LOC0 + IER) as u64, 0u8),
        ((UART_LOC0 + LCR) as u64, LCR_BAUD_LATCH),
        (UART_LOC0, 3u8),
        ((UART_LOC0 + 1) as u64, 0u8),
        ((UART_LOC0 + LCR) as u64, LCR_EIGHT_BITS),
        ((UART_LOC0 + FCR) as u64, 7u8),
        ((UART_LOC0 + IER) as u64, 3u8),
    ]
}

/// The writes, in order, that set the UART up: its interrupts off, 38400
/// baud through the divisor latch, 8-bit words, FIFOs reset and on, then
/// receive and transmit interrupts on.
pub fn uart_init() -> (r: Vec<(u64, u8)>)
    ensures
        r@ == init_writes(),
{
    let mut w: Vec<(u64, u8)> = Vec::new();
    w.push((reg_map(IER), 0));
    w.push((reg_map(LCR), LCR_BAUD_LATCH));
    w.push((reg_map(0), 0x03));
    w.push((reg_map(1), 0x00));
    w.push((reg_map(LCR), LCR_EIGHT_BITS));
    w.push((reg_map(FCR), FCR_FIFO_ENABLE | FCR_FIFO_CLEAR));
    w.push((reg_map(IER), IER_RX_ENABLE | IER_TX_ENABLE));
    assert(FCR_FIFO_ENABLE | FCR_FIFO_CLEAR == 7u8 && IER_RX_ENABLE | IER_TX_ENABLE == 3u8)
        by (bit_vector);
    assert(w@ =~= init_writes());
    w
}

/// The transmitter can take a byte, from the line status register's value.
pub fn tx_ready(lsr: u8) -> (r: bool)
    ensures
        r == (lsr & LSR_TX_IDLE != 0),
{
    lsr & LSR_TX_IDLE != 0
}

} // verus!
