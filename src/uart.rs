//! The serial port's register layout, as the driver sees it.
use vstd::prelude::*;

verus! {

/// Offset of the line control register.
pub const LINE_CONTROL: usize = 3;

/// Offset of the FIFO control register.
pub const FIFO_CONTROL: usize = 2;

/// Offset of the interrupt enable register.
pub const INTERRUPT_ENABLE: usize = 1;

/// Offset of the line status register.
pub const LINE_STATUS: usize = 5;

/// Divisor that sets the baud rate.
pub const BAUD_DIVISOR: u16 = 869;

/// A 16550-style serial port at a memory-mapped base address.
pub struct Uart {
    pub base_address: usize,
}

impl Uart {
    pub fn new(base_address: usize) -> (r: Uart)
        ensures
            r.base_address == base_address,
    {
        Uart { base_address }
    }

    /// The register writes, as (offset, value) pairs in order, that set
    /// 8-bit words, enable the FIFO and receive interrupts, and load the baud
    /// divisor through the divisor latch.
    pub fn init_sequence(&self) -> (r: Vec<(usize, u8)>)
        ensures
            r@ == seq![
                (LINE_CONTROL, 3u8),
                (FIFO_CONTROL, 1u8),
                (INTERRUPT_ENABLE, 1u8),
                (LINE_CONTROL, 0x83u8),
                (0usize, (BAUD_DIVISOR % 256) as u8),
                (1usize, (BAUD_DIVISOR / 256) as u8),
                (LINE_CONTROL, 3u8),
            ],
    {
        let line_control: u8 = 3;
        let least = (BAUD_DIVISOR & 0xff) as u8;
        let most = (BAUD_DIVISOR >> 8) as u8;
        assert(BAUD_DIVISOR & 0xff == BAUD_DIVISOR % 256) by (bit_vector);
        assert(BAUD_DIVISOR >> 8 == BAUD_DIVISOR / 256) by (bit_vector);
        let mut r: Vec<(usize, u8)> = Vec::new();
        r.push((LINE_CONTROL, line_control));
        r.push((FIFO_CONTROL, 1));
        r.push((INTERRUPT_ENABLE, 1));
        r.push((LINE_CONTROL, line_control | 0x80));
        assert(3u8 | 0x80 == 0x83u8) by (bit_vector);
        r.push((0, least));
        r.push((1, most));
        r.push((LINE_CONTROL, line_control));
        r
    }

    /// Whether a line status value says a received byte is waiting.
    pub fn data_ready(line_status: u8) -> (r: bool)
        ensures
            r == (line_status & 1 == 1),
    {
        line_status & 1 == 1
    }
}

} // verus!
