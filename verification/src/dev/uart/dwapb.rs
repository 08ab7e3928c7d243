//! The line status of the Synopsys DesignWare APB serial port.
use vstd::prelude::*;
use crate::bit::{Bit, bit_u32};

verus! {

/// Bit of the line status register: a received byte is waiting.
pub const DATA_READY: usize = 0;

/// Bit of the line status register: the transmit holding register is empty.
pub const THR_EMPTY: usize = 5;

/// Whether the line status `lsr` says a byte can be written.
pub fn thr_empty(lsr: u32) -> (r: bool)
    ensures
        r == bit_u32(lsr, THR_EMPTY),
{
    lsr.bit(THR_EMPTY)
}

/// Whether the line status `lsr` says no byte is waiting.
pub fn rx_empty(lsr: u32) -> (r: bool)
    ensures
        r == !bit_u32(lsr, DATA_READY),
{
    !lsr.bit(DATA_READY)
}

} // verus!
