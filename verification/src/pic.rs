//! The 8259A interrupt controllers.
//!
//! Interrupt lines 0 to 15 are moved to vectors 32 to 47, away from the processor's own
//! exceptions.

use vstd::prelude::*;

use crate::port::{out, outb, PortWrite};

verus! {

pub const PIC1_CMD: u16 = 0x20;

pub const PIC1_DATA: u16 = 0x21;

pub const PIC2_CMD: u16 = 0xA0;

pub const PIC2_DATA: u16 = 0xA1;

/// Begin initialization, with a fourth command word.
pub const ICW1_INIT: u8 = 0x11;

/// 8086 mode.
pub const ICW4_8086: u8 = 0x01;

/// End of interrupt.
pub const EOI: u8 = 0x20;

/// First vector of the first controller, for lines 0 to 7.
pub const PIC1_OFFSET: u8 = 32;

/// First vector of the second controller, for lines 8 to 15.
pub const PIC2_OFFSET: u8 = 40;

/// An unused port: a write to it gives the controllers time.
pub const WAIT_PORT: u16 = 0x80;

/// The vector of an interrupt line.
pub open spec fn vector_of(irq: int) -> int {
    if irq < 8 {
        PIC1_OFFSET + irq
    } else {
        PIC2_OFFSET + irq - 8
    }
}

/// The writes that initialize both controllers: begin, vectors, wiring (the second controller
/// is on line 2 of the first), and 8086 mode, with a wait after each, and all lines masked
/// at the end.
pub open spec fn init_writes() -> Seq<PortWrite> {
    seq![
        out(PIC1_CMD, ICW1_INIT),
        out(WAIT_PORT, 0),
        out(PIC2_CMD, ICW1_INIT),
        out(WAIT_PORT, 0),
        out(PIC1_DATA, PIC1_OFFSET),
        out(WAIT_PORT, 0),
        out(PIC2_DATA, PIC2_OFFSET),
        out(WAIT_PORT, 0),
        out(PIC1_DATA, 0x04),
        out(WAIT_PORT, 0),
        out(PIC2_DATA, 0x02),
        out(WAIT_PORT, 0),
        out(PIC1_DATA, ICW4_8086),
        out(WAIT_PORT, 0),
        out(PIC2_DATA, ICW4_8086),
        out(WAIT_PORT, 0),
        out(PIC1_DATA, 0xFF),
        out(PIC2_DATA, 0xFF),
    ]
}

/// Initialize both controllers.
pub fn init() -> (w: [PortWrite; 18])
    ensures
        w@ == init_writes(),
{
    let pause = outb(WAIT_PORT, 0);
    let w = [
        outb(PIC1_CMD, ICW1_INIT),
        pause,
        outb(PIC2_CMD, ICW1_INIT),
        pause,
        outb(PIC1_DATA, PIC1_OFFSET),
        pause,
        outb(PIC2_DATA, PIC2_OFFSET),
        pause,
        outb(PIC1_DATA, 0x04),
        pause,
        outb(PIC2_DATA, 0x02),
        pause,
        outb(PIC1_DATA, ICW4_8086),
        pause,
        outb(PIC2_DATA, ICW4_8086),
        pause,
        outb(PIC1_DATA, 0xFF),
        outb(PIC2_DATA, 0xFF),
    ];
    assert(w@ =~= init_writes());
    w
}

/// The port that holds the mask of an interrupt line.
pub open spec fn mask_port_of(irq: u8) -> u16 {
    if irq < 8 {
        PIC1_DATA
    } else {
        PIC2_DATA
    }
}

/// The port that holds the mask of an interrupt line.
pub fn mask_port(irq: u8) -> (p: u16)
    requires
        irq < 16,
    ensures
        p == mask_port_of(irq),
{
    if irq < 8 {
        PIC1_DATA
    } else {
        PIC2_DATA
    }
}

/// Enable an interrupt line, given the mask that its port holds.
pub fn unmask(irq: u8, mask: u8) -> (w: PortWrite)
    requires
        irq < 16,
    ensures
        w == out(mask_port_of(irq), mask & !(1u8 << (irq % 8))),
{
    let bit: u8 = irq % 8;
    outb(mask_port(irq), mask & !(1u8 << bit))
}

/// The writes that end an interrupt: to both controllers where it came from the second.
pub open spec fn eoi_writes(irq: u8) -> Seq<PortWrite> {
    if irq >= 8 {
        seq![out(PIC2_CMD, EOI), out(PIC1_CMD, EOI)]
    } else {
        seq![out(PIC1_CMD, EOI)]
    }
}

/// End the interrupt of a line.
pub fn send_eoi(irq: u8) -> (w: Vec<PortWrite>)
    ensures
        w@ == eoi_writes(irq),
{
    let mut w: Vec<PortWrite> = Vec::new();
    if irq >= 8 {
        w.push(outb(PIC2_CMD, EOI));
    }
    w.push(outb(PIC1_CMD, EOI));
    assert(w@ =~= eoi_writes(irq));
    w
}

/// Enabling a line leaves the other lines of its controller as they were.
pub proof fn law_unmask_one(irq: u8, other: u8, mask: u8)
    requires
        irq < 16,
        other < 8,
    ensures
        (mask & !(1u8 << (irq % 8))) & (1u8 << other) == (if other == irq % 8 {
            0
        } else {
            mask & (1u8 << other)
        }),
{
    let bit: u8 = irq % 8;
    assert((mask & !(1u8 << bit)) & (1u8 << other) == (if other == bit {
        0
    } else {
        mask & (1u8 << other)
    })) by (bit_vector)
        requires
            bit < 8,
            other < 8,
    ;
}

/// No interrupt line has the vector of an exception, and no two lines share one.
pub proof fn law_vectors_apart(a: int, b: int)
    requires
        0 <= a < 16,
        0 <= b < 16,
    ensures
        32 <= vector_of(a) < 48,
        a != b ==> vector_of(a) != vector_of(b),
{
}

/// Initialization by its writes: each controller gets, on its command port, the start, and
/// then on its data port its first vector, its wiring and the mode, and at the end a mask
/// for all lines. The ports are 0x20 and 0x21, and 0xA0 and 0xA1; the vectors start at 32 and
/// at 40.
pub proof fn law_initialization()
    ensures
        ({
            let w = init_writes();
            &&& w.len() == 18
            &&& w[0] == (PortWrite { port: 0x20, value: 0x11 })
            &&& w[2] == (PortWrite { port: 0xA0, value: 0x11 })
            &&& w[4] == (PortWrite { port: 0x21, value: 32 })
            &&& w[6] == (PortWrite { port: 0xA1, value: 40 })
            &&& w[8] == (PortWrite { port: 0x21, value: 4 })
            &&& w[10] == (PortWrite { port: 0xA1, value: 2 })
            &&& w[12] == (PortWrite { port: 0x21, value: 1 })
            &&& w[14] == (PortWrite { port: 0xA1, value: 1 })
            &&& w[16] == (PortWrite { port: 0x21, value: 0xFF })
            &&& w[17] == (PortWrite { port: 0xA1, value: 0xFF })
            &&& forall|i: int|
                0 <= i < 18 && (#[trigger] w[i]).port != 0x20 && w[i].port != 0x21 && w[i].port
                    != 0xA0 && w[i].port != 0xA1 ==> w[i].port == 0x80
            &&& w[1].port == 0x80 && w[3].port == 0x80 && w[5].port == 0x80 && w[7].port == 0x80
            &&& w[9].port == 0x80 && w[11].port == 0x80 && w[13].port == 0x80 && w[15].port == 0x80
        }),
{
}

/// The end of an interrupt is written to the first controller, and before that to the second
/// where the line is one of its own, 8 to 15.
pub proof fn law_end_of_interrupt(irq: u8)
    ensures
        irq < 8 ==> eoi_writes(irq) == seq![PortWrite { port: 0x20, value: 0x20 }],
        irq >= 8 ==> eoi_writes(irq) == seq![
            PortWrite { port: 0xA0, value: 0x20 },
            PortWrite { port: 0x20, value: 0x20 },
        ],
        mask_port_of(irq) == (if irq < 8 {
            0x21u16
        } else {
            0xA1
        }),
{
}

} // verus!
