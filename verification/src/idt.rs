//! The interrupt descriptor table, and what interrupts do.

use vstd::prelude::*;

use crate::gdt::KERNEL_CS;
use crate::pit::increment_ticks;
use crate::scheduler::{timer_preempt, yielded};
use crate::shard::{handle_sys_exit, ShardDescriptor, ShardState, ShardTable};

verus! {

/// The vector of the timer.
pub const TIMER_VECTOR: usize = 32;

/// An entry of the interrupt table, by its fields.
#[derive(Debug, Clone, Copy, PartialEq, Eq, Structural)]
pub struct IdtEntry {
    pub offset_low: u16,
    pub selector: u16,
    pub ist: u8,
    pub type_attr: u8,
    pub offset_mid: u16,
    pub offset_high: u32,
}

impl IdtEntry {
    /// The address of the handler.
    pub open spec fn handler(self) -> int {
        self.offset_low + 0x1_0000 * self.offset_mid + 0x1_0000_0000 * self.offset_high
    }

    /// A gate for the kernel that keeps interrupts off: present, privilege level 0.
    pub open spec fn is_gate(self, handler: u64) -> bool {
        &&& self.handler() == handler
        &&& self.selector == KERNEL_CS
        &&& self.ist == 0
        &&& self.type_attr == 0x8E
    }

    /// No gate.
    pub fn missing() -> (e: IdtEntry)
        ensures
            e.type_attr == 0,
            e.selector == 0,
            e.ist == 0,
            e.handler() == 0,
    {
        IdtEntry {
            offset_low: 0,
            selector: 0,
            ist: 0,
            type_attr: 0,
            offset_mid: 0,
            offset_high: 0,
        }
    }

    /// An interrupt gate for the handler.
    pub fn new(handler: u64) -> (e: IdtEntry)
        ensures
            e.is_gate(handler),
    {
        IdtEntry {
            offset_low: (handler % 0x1_0000) as u16,
            selector: KERNEL_CS,
            ist: 0,
            type_attr: 0x8E,
            offset_mid: (handler / 0x1_0000 % 0x1_0000) as u16,
            offset_high: (handler / 0x1_0000_0000) as u32,
        }
    }

    /// What the entry looks like in memory: two words.
    pub fn encode(&self) -> (w: (u64, u64))
        ensures
            w.0 == self.offset_low + 0x1_0000 * self.selector + 0x1_0000_0000 * self.ist
                + 0x100_0000_0000 * self.type_attr + 0x1_0000_0000_0000 * self.offset_mid,
            w.1 == self.offset_high,
    {
        (
            self.offset_low as u64 + 0x1_0000 * (self.selector as u64) + 0x1_0000_0000 * (
            self.ist as u64) + 0x100_0000_0000 * (self.type_attr as u64) + 0x1_0000_0000_0000 * (
            self.offset_mid as u64),
            self.offset_high as u64,
        )
    }
}

/// The addresses of the handlers.
#[derive(Debug, Clone, Copy, PartialEq, Eq, Structural)]
pub struct Handlers {
    pub divide_error: u64,
    pub double_fault: u64,
    pub protection_fault: u64,
    pub page_fault: u64,
    pub timer: u64,
    /// The handler for all other vectors.
    pub default: u64,
}

/// The handler of a vector.
pub open spec fn handler_for(h: Handlers, vector: int) -> u64 {
    if vector == 0 {
        h.divide_error
    } else if vector == 8 {
        h.double_fault
    } else if vector == 13 {
        h.protection_fault
    } else if vector == 14 {
        h.page_fault
    } else if vector == TIMER_VECTOR {
        h.timer
    } else {
        h.default
    }
}

/// The table with a gate for every vector.
pub fn init(h: &Handlers) -> (t: [IdtEntry; 256])
    ensures
        forall|i: int| 0 <= i < 256 ==> (#[trigger] t@[i]).is_gate(handler_for(*h, i)),
{
    let mut t: [IdtEntry; 256] = [IdtEntry::missing();256];
    let mut i: usize = 0;
    while i < 256
        invariant
            i <= 256,
            forall|k: int| 0 <= k < i ==> (#[trigger] t@[k]).is_gate(handler_for(*h, k)),
        decreases 256 - i,
    {
        let handler: u64 = if i == 0 {
            h.divide_error
        } else if i == 8 {
            h.double_fault
        } else if i == 13 {
            h.protection_fault
        } else if i == 14 {
            h.page_fault
        } else if i == TIMER_VECTOR {
            h.timer
        } else {
            h.default
        };
        t[i] = IdtEntry::new(handler);
        i += 1;
    }
    t
}

/// The name of an exception.
pub open spec fn fault_text(vector: u64) -> Seq<char> {
    if vector == 0 {
        "Divide Error"@
    } else if vector == 8 {
        "Double Fault"@
    } else if vector == 13 {
        "General Protection Fault"@
    } else if vector == 14 {
        "Page Fault"@
    } else {
        "Unknown Interrupt"@
    }
}

/// The name of an exception.
pub fn fault_name(vector: u64) -> (r: &'static str)
    ensures
        r@ == fault_text(vector),
{
    if vector == 0 {
        "Divide Error"
    } else if vector == 8 {
        "Double Fault"
    } else if vector == 13 {
        "General Protection Fault"
    } else if vector == 14 {
        "Page Fault"
    } else {
        "Unknown Interrupt"
    }
}

/// Whether the code segment selector is one of user mode.
pub open spec fn from_user(cs: u64) -> bool {
    cs % 4 != 0
}

/// What follows an exception.
#[derive(Debug, Clone, Copy, PartialEq, Eq, Structural)]
pub enum FaultAction {
    /// The shard has been ended; another runs.
    ShardKilled,
    /// The kernel reports the fault and halts.
    Halt,
}

/// Whether the fault is the shard's own: a protection fault or a page fault in user mode.
pub open spec fn shard_fault(vector: u64, cs: u64) -> bool {
    (vector == 13 || vector == 14) && from_user(cs)
}

/// What follows the exception `vector` in code of the segment `cs`.
pub open spec fn fault_action(vector: u64, cs: u64) -> FaultAction {
    if shard_fault(vector, cs) {
        FaultAction::ShardKilled
    } else {
        FaultAction::Halt
    }
}

/// The shards after the exception, with `current` running when it came.
pub open spec fn after_fault(
    t: Seq<ShardDescriptor>,
    current: Option<usize>,
    vector: u64,
    cs: u64,
) -> Seq<ShardDescriptor> {
    let id = current->0 as int;
    if shard_fault(vector, cs) {
        t.update(
            id,
            ShardDescriptor { state: ShardState::Exited, exit_code: u64::MAX, ..t[id] },
        )
    } else {
        t
    }
}

/// Handle an exception. A shard that causes a protection fault or a page fault in user mode
/// ends with the exit code `u64::MAX`. Every other exception, and every one in the kernel,
/// is fatal.
pub fn handle_fault(table: &mut ShardTable, vector: u64, cs: u64) -> (r: FaultAction)
    requires
        old(table).wf(),
        shard_fault(vector, cs) ==> old(table).current is Some,
    ensures
        final(table).wf(),
        r == fault_action(vector, cs),
        final(table)@ == after_fault(old(table)@, old(table).current, vector, cs),
        final(table).current == (if shard_fault(vector, cs) {
            None
        } else {
            old(table).current
        }),
{
    if (vector == 13 || vector == 14) && cs % 4 != 0 {
        handle_sys_exit(table, u64::MAX);
        FaultAction::ShardKilled
    } else {
        FaultAction::Halt
    }
}

/// Handle an interrupt of the timer. In user mode the running shard gives up the processor;
/// the kernel is not interrupted. Returns whether another shard is to run.
pub fn handle_timer(table: &mut ShardTable, ticks: &mut u64, cs: u64) -> (switch: bool)
    requires
        old(table).wf(),
    ensures
        final(table).wf(),
        final(table).current == old(table).current,
        *final(ticks) == (*old(ticks) + 1) % 0x1_0000_0000_0000_0000,
        switch == from_user(cs),
        final(table)@ == (if from_user(cs) {
            yielded(old(table)@, old(table).current)
        } else {
            old(table)@
        }),
{
    if cs % 4 == 0 {
        increment_ticks(ticks);
        return false;
    }
    timer_preempt(table, ticks);
    true
}

/// A protection fault or a page fault in user mode does not halt the kernel: the shard that
/// was running ends with the exit code `u64::MAX`, and every other shard is as it was.
pub proof fn law_fault_kills_one(
    t: Seq<ShardDescriptor>,
    current: Option<usize>,
    vector: u64,
    cs: u64,
    other: int,
)
    requires
        vector == 13 || vector == 14,
        from_user(cs),
        current is Some,
        current->0 < t.len(),
        0 <= other < t.len(),
    ensures
        fault_action(vector, cs) is ShardKilled,
        ({
            let t2 = after_fault(t, current, vector, cs);
            let id = current->0 as int;
            &&& t2[id].state == ShardState::Exited
            &&& t2[id].exit_code == u64::MAX
            &&& other != id ==> t2[other] == t[other]
        }),
{
}

/// Every other exception halts the kernel and leaves the shards as they are.
pub proof fn law_other_faults_halt(
    t: Seq<ShardDescriptor>,
    current: Option<usize>,
    vector: u64,
    cs: u64,
)
    requires
        vector != 13 && vector != 14 || !from_user(cs),
    ensures
        fault_action(vector, cs) is Halt,
        after_fault(t, current, vector, cs) == t,
{
}

/// The handlers by their vectors: divide error is 0, double fault 8, protection fault 13, page
/// fault 14 and the timer 32. Every other vector has the handler for all others.
pub proof fn law_vectors(h: Handlers, vector: int)
    ensures
        handler_for(h, 0) == h.divide_error,
        handler_for(h, 8) == h.double_fault,
        handler_for(h, 13) == h.protection_fault,
        handler_for(h, 14) == h.page_fault,
        handler_for(h, 32) == h.timer,
        vector != 0 && vector != 8 && vector != 13 && vector != 14 && vector != 32
            ==> handler_for(h, vector) == h.default,
{
}

/// A gate leads to its handler in the kernel's code segment, number 1 of the segment table, at
/// privilege level 0, with interrupts off. In memory the handler lies in bits 0 to 15 and 48 to
/// 63 of the first word and in the second.
pub proof fn law_gate_in_memory(e: IdtEntry, handler: u64, w0: u64, w1: u64)
    requires
        e.is_gate(handler),
        w0 == e.offset_low + 0x1_0000 * e.selector + 0x1_0000_0000 * e.ist + 0x100_0000_0000
            * e.type_attr + 0x1_0000_0000_0000 * e.offset_mid,
        w1 == e.offset_high,
    ensures
        w0 as int % 0x1_0000 + 0x1_0000 * (w0 as int / 0x1_0000_0000_0000) + 0x1_0000_0000 * w1
            == handler,
        w0 as int / 0x1_0000 % 0x1_0000 == 8,
        w0 as int / 0x1_0000_0000 % 0x1_0000 == 0x8E00,
{
    let w = w0 as int;
    assert(w / 0x1_0000_0000_0000 == e.offset_mid);
    assert(w / 0x1_0000 == 8 + 0x1_0000 * (0x8E00 + 0x1_0000 * e.offset_mid));
    assert(w / 0x1_0000_0000 == 0x8E00 + 0x1_0000 * e.offset_mid);
}

/// User mode is told by the two lowest bits of the code segment selector.
pub proof fn law_user_mode(cs: u64)
    ensures
        from_user(cs) <==> cs % 4 > 0,
{
}

} // verus!
