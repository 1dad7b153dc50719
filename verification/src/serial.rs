use vstd::prelude::*;
use crate::constants::COM1;

verus! {

/// The port writes that set up the first serial line: interrupts off, divisor 3 (38400 baud),
/// eight bits without parity and one stop bit, FIFOs on with a 14-byte threshold, IRQ, RTS and
/// DSR on.
pub open spec fn serial_setup_writes() -> Seq<(u16, u8)> {
    seq![
        ((COM1 + 1) as u16, 0x00u8),
        ((COM1 + 3) as u16, 0x80u8),
        ((COM1 + 0) as u16, 0x03u8),
        ((COM1 + 1) as u16, 0x00u8),
        ((COM1 + 3) as u16, 0x03u8),
        ((COM1 + 2) as u16, 0xc7u8),
        ((COM1 + 4) as u16, 0x0bu8),
    ]
}

/// The port writes, in order, that set up the first serial line.
pub fn setup_serial() -> (r: Vec<(u16, u8)>)
    ensures
        r@ == serial_setup_writes(),
{
    let r = vec![
        (COM1 + 1, 0x00u8),
        (COM1 + 3, 0x80u8),
        (COM1 + 0, 0x03u8),
        (COM1 + 1, 0x00u8),
        (COM1 + 3, 0x03u8),
        (COM1 + 2, 0xc7u8),
        (COM1 + 4, 0x0bu8),
    ];
    proof {
        assert(r@ =~= serial_setup_writes());
    }
    r
}

/// The line-status bit that says a byte has arrived.
pub fn byte_ready(status: u8) -> (r: bool)
    ensures
        r == (status & 0x1 != 0),
{
    status & 0x1 != 0
}

/// The line-status bit that says the transmitter can take a byte.
pub fn can_send(status: u8) -> (r: bool)
    ensures
        r == (status & 0x20 != 0),
{
    status & 0x20 != 0
}

/// How many bytes the UTF-8 sequence that starts with `b` has; 0 when no sequence starts
/// with it.
pub open spec fn utf8_width_spec(b: u8) -> usize {
    if b < 0x80 {
        1
    } else if b < 0xc2 {
        0
    } else if b < 0xe0 {
        2
    } else if b < 0xf0 {
        3
    } else if b < 0xf5 {
        4
    } else {
        0
    }
}

/// How many bytes the UTF-8 sequence that starts with `b` has; 0 when no sequence starts
/// with it.
pub fn utf8_char_width(b: u8) -> (r: usize)
    ensures
        r == utf8_width_spec(b),
{
    if b < 0x80 {
        1
    } else if b < 0xc2 {
        0
    } else if b < 0xe0 {
        2
    } else if b < 0xf0 {
        3
    } else if b < 0xf5 {
        4
    } else {
        0
    }
}

/// A writer to the serial line that works without the heap, for reports when memory is gone.
pub struct ReserveLogger;

impl ReserveLogger {
    pub fn new() -> (r: ReserveLogger) {
        ReserveLogger
    }
}

/// A writer to the serial line.
pub struct Writer;

impl Writer {
    pub fn new() -> (r: Writer) {
        Writer
    }
}

} // verus!
