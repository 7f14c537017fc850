//! Writes to processor ports, as data. Whoever talks to the device performs them in order.

use vstd::prelude::*;

verus! {

/// A byte for an I/O port.
#[derive(Debug, Clone, Copy, PartialEq, Eq, Structural)]
pub struct PortWrite {
    pub port: u16,
    pub value: u8,
}

/// The write of `value` to `port`.
pub open spec fn out(port: u16, value: u8) -> PortWrite {
    PortWrite { port, value }
}

/// The write of `value` to `port`.
pub fn outb(port: u16, value: u8) -> (w: PortWrite)
    ensures
        w == out(port, value),
{
    PortWrite { port, value }
}

} // verus!
