//! The 8254 interval timer: channel 0 as a rate generator with a period of about a
//! millisecond.

use vstd::prelude::*;

use crate::port::{out, outb, PortWrite};

verus! {

pub const PIT_CHANNEL_0: u16 = 0x40;

pub const PIT_COMMAND: u16 = 0x43;

/// Channel 0, low byte before high byte, rate generator, binary.
pub const PIT_CMD_CH0_MODE2: u8 = 0x34;

/// The timer counts down at this many steps a second.
pub const PIT_FREQUENCY: u32 = 1_193_182;

/// Number of steps between two interrupts.
pub const PIT_DIVISOR: u16 = 1193;

/// The writes that start the timer: the command, then the divisor, low byte first.
pub fn init() -> (w: [PortWrite; 3])
    ensures
        w@[0] == out(PIT_COMMAND, PIT_CMD_CH0_MODE2),
        w@[1].port == PIT_CHANNEL_0,
        w@[2].port == PIT_CHANNEL_0,
        w@[1].value + 0x100 * w@[2].value == PIT_DIVISOR,
{
    [
        outb(PIT_COMMAND, PIT_CMD_CH0_MODE2),
        outb(PIT_CHANNEL_0, (PIT_DIVISOR % 0x100) as u8),
        outb(PIT_CHANNEL_0, (PIT_DIVISOR / 0x100) as u8),
    ]
}

/// Count an interrupt of the timer.
pub fn increment_ticks(ticks: &mut u64)
    ensures
        *final(ticks) == (*old(ticks) + 1) % 0x1_0000_0000_0000_0000,
{
    *ticks = ticks.wrapping_add(1);
}

/// The timer interrupts a thousand times a second, to within one.
pub proof fn law_rate()
    ensures
        1000 <= PIT_FREQUENCY as int / PIT_DIVISOR as int <= 1001,
{
}

/// The timer counts down 1193 of its 1193182 steps a second between two interrupts, on
/// channel 0 at port 0x40, which port 0x43 sets up as a rate generator.
pub proof fn law_timer_set_up(w: Seq<PortWrite>)
    requires
        w.len() == 3,
        w[0] == out(PIT_COMMAND, PIT_CMD_CH0_MODE2),
        w[1].port == PIT_CHANNEL_0,
        w[2].port == PIT_CHANNEL_0,
        w[1].value + 0x100 * w[2].value == PIT_DIVISOR,
    ensures
        w[0] == (PortWrite { port: 0x43, value: 0x34 }),
        w[1] == (PortWrite { port: 0x40, value: 0xA9 }),
        w[2] == (PortWrite { port: 0x40, value: 4 }),
        1000 <= 1_193_182int / (w[1].value + 0x100 * w[2].value) <= 1001,
{
}

} // verus!
