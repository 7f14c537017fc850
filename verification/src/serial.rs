//! A 16550 UART for debug output, at 115200 baud, 8N1.

use vstd::prelude::*;

use crate::port::{out, outb, PortWrite};

verus! {

/// Base port of the first serial port.
pub const COM1: u16 = 0x3F8;

/// Transmit holding register.
pub const THR: u16 = 0;

/// Interrupt enable register.
pub const IER: u16 = 1;

/// FIFO control register.
pub const FCR: u16 = 2;

/// Line control register.
pub const LCR: u16 = 3;

/// Modem control register.
pub const MCR: u16 = 4;

/// Line status register.
pub const LSR: u16 = 5;

/// Divisor latch, low and high byte, while bit 7 of the line control register is set.
pub const DLL: u16 = 0;

pub const DLH: u16 = 1;

/// A serial port.
#[derive(Debug, Clone, Copy, PartialEq, Eq, Structural)]
pub struct SerialPort {
    base: u16,
}

impl SerialPort {
    pub closed spec fn base(&self) -> u16 {
        self.base
    }

    /// The port at the given base address.
    pub fn new(base: u16) -> (p: SerialPort)
        ensures
            p.base() == base,
    {
        SerialPort { base }
    }

    /// The writes that set the port up: no interrupts, divisor 1, 8 data bits without
    /// parity, FIFOs on and cleared.
    pub fn init(&self) -> (w: [PortWrite; 7])
        requires
            self.base() + LSR <= u16::MAX,
        ensures
            w@ == seq![
                out((self.base() + IER) as u16, 0x00),
                out((self.base() + LCR) as u16, 0x80),
                out((self.base() + DLL) as u16, 0x01),
                out((self.base() + DLH) as u16, 0x00),
                out((self.base() + LCR) as u16, 0x03),
                out((self.base() + FCR) as u16, 0xC7),
                out((self.base() + MCR) as u16, 0x0B),
            ],
    {
        let w = [
            outb(self.base + IER, 0x00),
            outb(self.base + LCR, 0x80),
            outb(self.base + DLL, 0x01),
            outb(self.base + DLH, 0x00),
            outb(self.base + LCR, 0x03),
            outb(self.base + FCR, 0xC7),
            outb(self.base + MCR, 0x0B),
        ];
        assert(w@ =~= seq![
            out((self.base() + IER) as u16, 0x00),
            out((self.base() + LCR) as u16, 0x80),
            out((self.base() + DLL) as u16, 0x01),
            out((self.base() + DLH) as u16, 0x00),
            out((self.base() + LCR) as u16, 0x03),
            out((self.base() + FCR) as u16, 0xC7),
            out((self.base() + MCR) as u16, 0x0B),
        ]);
        w
    }

    /// The port to read the line status from.
    pub fn status_port(&self) -> (p: u16)
        requires
            self.base() + LSR <= u16::MAX,
        ensures
            p == self.base() + LSR,
            p == self.base() + 5,
    {
        self.base + LSR
    }

    /// Send a byte, given the line status. There is nothing to write while the transmit
    /// register is not empty: read the status again.
    pub fn write_byte(&self, status: u8, byte: u8) -> (r: Option<PortWrite>)
        ensures
            r == (if status & 0x20 == 0 {
                None::<PortWrite>
            } else {
                Some(out((self.base() + THR) as u16, byte))
            }),
            r matches Some(w) ==> w == (PortWrite { port: self.base(), value: byte }),
    {
        if status & 0x20 == 0 {
            None
        } else {
            Some(outb(self.base + THR, byte))
        }
    }
}

/// The bytes with a carriage return before each line feed.
pub open spec fn with_returns(b: Seq<u8>) -> Seq<u8>
    decreases b.len(),
{
    if b.len() == 0 {
        b
    } else if b.last() == 10 {
        with_returns(b.drop_last()).push(13).push(10)
    } else {
        with_returns(b.drop_last()).push(b.last())
    }
}

/// The bytes that are sent for a text.
pub fn write_str(s: &[u8]) -> (v: Vec<u8>)
    ensures
        v@ == with_returns(s@),
{
    let mut v: Vec<u8> = Vec::new();
    let mut k: usize = 0;
    while k < s.len()
        invariant
            k <= s@.len(),
            v@ == with_returns(s@.take(k as int)),
        decreases s@.len() - k,
    {
        let byte: u8 = s[k];
        if byte == 10 {
            v.push(13);
        }
        v.push(byte);
        k += 1;
        assert(s@.take(k as int).drop_last() =~= s@.take(k - 1));
    }
    assert(s@.take(k as int) =~= s@);
    v
}

/// Every line feed is sent right after a carriage return.
pub proof fn law_line_feed_after_return(b: Seq<u8>, i: int)
    requires
        0 <= i < with_returns(b).len(),
        with_returns(b)[i] == 10,
    ensures
        i > 0,
        with_returns(b)[i - 1] == 13,
    decreases b.len(),
{
    let rest = with_returns(b.drop_last());
    if i < rest.len() {
        assert(rest[i] == with_returns(b)[i]);
        law_line_feed_after_return(b.drop_last(), i);
        assert(rest[i - 1] == with_returns(b)[i - 1]);
    }
}

/// What is sent for two texts, one behind the other, is what is sent for each. A byte is
/// sent as it is, but a line feed as a carriage return and a line feed.
pub proof fn law_text_by_bytes(a: Seq<u8>, b: Seq<u8>, byte: u8)
    ensures
        with_returns(a + b) == with_returns(a) + with_returns(b),
        with_returns(seq![byte]) == (if byte == 10 {
            seq![13u8, 10u8]
        } else {
            seq![byte]
        }),
        with_returns(Seq::empty()) == Seq::<u8>::empty(),
    decreases b.len(),
{
    let one = seq![byte];
    reveal_with_fuel(with_returns, 2);
    assert(one.drop_last() =~= Seq::<u8>::empty());
    assert(one.last() == byte);
    assert(with_returns(one) =~= (if byte == 10 {
        seq![13u8, 10u8]
    } else {
        seq![byte]
    }));
    if b.len() == 0 {
        assert(a + b =~= a);
        assert(with_returns(a) + with_returns(b) =~= with_returns(a));
    } else {
        law_text_by_bytes(a, b.drop_last(), byte);
        assert((a + b).drop_last() =~= a + b.drop_last());
        assert((a + b).last() == b.last());
        assert(with_returns(a + b) =~= with_returns(a) + with_returns(b));
    }
}

/// A serial port is set up for 115200 bits a second, 8 data bits, no parity and one stop bit:
/// no interrupts; with access to the divisor, which is 1; FIFOs on and cleared, with 14 bytes
/// for an interrupt; and the modem lines on.
pub proof fn law_port_set_up(base: u16, w: Seq<PortWrite>)
    requires
        base <= 0xFFF0,
        w == seq![
            out((base + IER) as u16, 0x00),
            out((base + LCR) as u16, 0x80),
            out((base + DLL) as u16, 0x01),
            out((base + DLH) as u16, 0x00),
            out((base + LCR) as u16, 0x03),
            out((base + FCR) as u16, 0xC7),
            out((base + MCR) as u16, 0x0B),
        ],
    ensures
        w[0] == (PortWrite { port: (base + 1) as u16, value: 0 }),
        w[1] == (PortWrite { port: (base + 3) as u16, value: 0x80 }),
        w[2] == (PortWrite { port: base, value: 1 }),
        w[3] == (PortWrite { port: (base + 1) as u16, value: 0 }),
        w[4] == (PortWrite { port: (base + 3) as u16, value: 3 }),
        w[5] == (PortWrite { port: (base + 2) as u16, value: 0xC7 }),
        w[6] == (PortWrite { port: (base + 4) as u16, value: 0x0B }),
{
}

} // verus!
