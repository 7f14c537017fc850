//! Preemptive round-robin scheduler with priority levels.
//!
//! Each shard has its own kernel stack. The timer takes the processor from the running
//! shard; the run loop picks the next ready shard of the highest priority, in turn within
//! one priority.

use vstd::prelude::*;

use crate::frame::{FrameAllocator, FrameView};
use crate::gpu::{abandoned, clear_partitions, disowned, left_behind, partitions_within, Gpu};
use crate::mem::Memory;
use crate::shard::{destroy, isolated, CapEntry, Priority, ShardDescriptor, ShardState, ShardTable};
use crate::shard::{MAX_CAPS_PER_SHARD, MAX_SHARDS};
use crate::space::{claimed, lemma_released_both, lemma_released_none, released};

verus! {

/// Words in a kernel stack of 4 KiB.
pub const STACK_WORDS: usize = 512;

/// Which shard ran last.
#[derive(Debug, Clone, Copy, PartialEq, Eq, Structural)]
pub struct Scheduler {
    last_scheduled: usize,
}

impl Scheduler {
    pub closed spec fn last(&self) -> int {
        self.last_scheduled as int
    }

    pub open spec fn wf(&self) -> bool {
        0 <= self.last() < MAX_SHARDS
    }

    pub fn new() -> (s: Scheduler)
        ensures
            s.wf(),
            s.last() == 0,
    {
        Scheduler { last_scheduled: 0 }
    }
}

/// Priorities from the highest, zero, to the lowest.
pub open spec fn rank(p: Priority) -> int {
    match p {
        Priority::Critical => 0,
        Priority::High => 1,
        Priority::Normal => 2,
        Priority::Low => 3,
    }
}

/// How long shard `i` has to wait in the round after shard `last`, from 1 for the next one
/// to the number of shards for `last` itself.
pub open spec fn turn(last: int, i: int) -> int {
    if i > last {
        i - last
    } else {
        i + MAX_SHARDS - last
    }
}

/// Whether the shard waits for the processor.
pub open spec fn ready(s: ShardDescriptor) -> bool {
    s.state == ShardState::Ready
}

/// Whether shard `i` is the one to run after `last`: no ready shard has a higher priority,
/// and none of the same priority is next before it.
pub open spec fn is_next(t: Seq<ShardDescriptor>, last: int, i: int) -> bool {
    &&& 0 <= i < MAX_SHARDS
    &&& ready(t[i])
    &&& forall|j: int|
        0 <= j < MAX_SHARDS && ready(#[trigger] t[j]) ==> rank(t[i].priority) < rank(t[j].priority)
            || (rank(t[i].priority) == rank(t[j].priority) && turn(last, i) <= turn(last, j))
}

/// Whether no shard waits for the processor.
pub open spec fn none_ready(t: Seq<ShardDescriptor>) -> bool {
    forall|j: int| 0 <= j < MAX_SHARDS ==> !ready(#[trigger] t[j])
}

/// Whether every shard is unused, exited or destroyed.
pub open spec fn is_done(t: Seq<ShardDescriptor>) -> bool {
    forall|j: int|
        0 <= j < MAX_SHARDS ==> ((#[trigger] t[j]).state == ShardState::Free || t[j].state
            == ShardState::Exited || t[j].state == ShardState::Destroyed)
}

/// Pick the next shard to run: the highest priority first, in turn within one priority.
fn pick_next_ready(sched: &mut Scheduler, table: &ShardTable) -> (r: Option<usize>)
    requires
        old(sched).wf(),
        table.wf(),
    ensures
        final(sched).wf(),
        match r {
            Some(i) => is_next(table@, old(sched).last(), i as int) && final(sched).last() == i,
            None => none_ready(table@) && *final(sched) == *old(sched),
        },
{
    let last: usize = sched.last_scheduled;
    let priorities = [Priority::Critical, Priority::High, Priority::Normal, Priority::Low];
    let mut p: usize = 0;
    while p < 4
        invariant
            p <= 4,
            sched.wf(),
            *sched == *old(sched),
            last == sched.last(),
            table.wf(),
            priorities@.len() == 4,
            forall|k: int| 0 <= k < 4 ==> rank(#[trigger] priorities@[k]) == k,
            forall|j: int|
                0 <= j < MAX_SHARDS && ready(#[trigger] table@[j]) ==> rank(table@[j].priority)
                    >= p,
        decreases 4 - p,
    {
        let prio = priorities[p];
        let mut offset: usize = 1;
        while offset <= MAX_SHARDS
            invariant
                1 <= offset <= MAX_SHARDS + 1,
                p < 4,
                sched.wf(),
                *sched == *old(sched),
                last == sched.last(),
                table.wf(),
                rank(prio) == p,
                forall|j: int|
                    0 <= j < MAX_SHARDS && ready(#[trigger] table@[j]) ==> rank(table@[j].priority)
                        >= p,
                forall|j: int|
                    0 <= j < MAX_SHARDS && ready(#[trigger] table@[j]) && rank(table@[j].priority)
                        == p ==> turn(last as int, j) >= offset,
            decreases MAX_SHARDS + 1 - offset,
        {
            let i: usize = (last + offset) % MAX_SHARDS;
            assert(turn(last as int, i as int) == offset);
            if table.shards[i].state == ShardState::Ready && table.shards[i].priority == prio {
                sched.last_scheduled = i;
                return Some(i);
            }
            assert forall|j: int|
                0 <= j < MAX_SHARDS && ready(#[trigger] table@[j]) && rank(table@[j].priority)
                    == p implies turn(last as int, j) >= offset + 1 by {
                if turn(last as int, j) == offset {
                    assert(j == i);
                }
            }
            offset += 1;
        }
        p += 1;
    }
    None
}

/// Check if all shards are exited, destroyed or unused.
fn all_done(table: &ShardTable) -> (r: bool)
    requires
        table.wf(),
    ensures
        r == is_done(table@),
{
    let mut i: usize = 0;
    while i < MAX_SHARDS
        invariant
            i <= MAX_SHARDS,
            table.wf(),
            forall|j: int|
                0 <= j < i ==> ((#[trigger] table@[j]).state == ShardState::Free || table@[j].state
                    == ShardState::Exited || table@[j].state == ShardState::Destroyed),
        decreases MAX_SHARDS - i,
    {
        match table.shards[i].state {
            ShardState::Free | ShardState::Exited | ShardState::Destroyed => {},
            _ => {
                return false;
            },
        }
        i += 1;
    }
    true
}

/// What the run loop does next.
#[derive(Debug, Clone, Copy, PartialEq, Eq, Structural)]
pub enum Step {
    /// Switch to the shard: load its page tables, make its kernel stack the one for
    /// interrupts and system calls, and continue at its saved stack pointer.
    Switch { id: usize, pml4_phys: u64, kernel_stack_top: u64, saved_kernel_rsp: u64 },
    /// Every shard is done.
    Finished,
    /// No shard can run, and not all are done.
    Deadlock,
}

/// One turn of the run loop: pick the next shard and make it the running one, or tell that
/// there is none.
pub fn run_step(sched: &mut Scheduler, table: &mut ShardTable) -> (r: Step)
    requires
        old(sched).wf(),
        old(table).wf(),
    ensures
        final(sched).wf(),
        final(table).wf(),
        match r {
            Step::Switch { id, pml4_phys, kernel_stack_top, saved_kernel_rsp } => {
                let s = old(table)@[id as int];
                &&& is_next(old(table)@, old(sched).last(), id as int)
                &&& final(sched).last() == id
                &&& final(table).current == Some(id)
                &&& final(table)@ == old(table)@.update(
                    id as int,
                    (ShardDescriptor { state: ShardState::Running, ..s }),
                )
                &&& pml4_phys == s.pml4_phys
                &&& kernel_stack_top == s.kernel_stack_top
                &&& saved_kernel_rsp == s.saved_kernel_rsp
            },
            Step::Finished => none_ready(old(table)@) && is_done(old(table)@) && *final(sched)
                == *old(sched) && *final(table) == *old(table),
            Step::Deadlock => none_ready(old(table)@) && !is_done(old(table)@) && *final(sched)
                == *old(sched) && *final(table) == *old(table),
        },
{
    match pick_next_ready(sched, table) {
        Some(id) => {
            table.shards[id].state = ShardState::Running;
            table.current = Some(id);
            assert(table@ =~= old(table)@.update(
                id as int,
                (ShardDescriptor { state: ShardState::Running, ..old(table)@[id as int] }),
            ));
            Step::Switch {
                id,
                pml4_phys: table.shards[id].pml4_phys,
                kernel_stack_top: table.shards[id].kernel_stack_top,
                saved_kernel_rsp: table.shards[id].saved_kernel_rsp,
            }
        },
        None => {
            if all_done(table) {
                Step::Finished
            } else {
                Step::Deadlock
            }
        },
    }
}

/// The table after the running shard gives up the processor: ready for its next turn.
pub open spec fn yielded(t: Seq<ShardDescriptor>, current: Option<usize>) -> Seq<ShardDescriptor> {
    match current {
        Some(id) => if t[id as int].state == ShardState::Running {
            t.update(id as int, ShardDescriptor { state: ShardState::Ready, ..t[id as int] })
        } else {
            t
        },
        None => t,
    }
}

/// Take the processor from the current shard, if it is running. The switch away from it
/// follows; `ticks` counts the timer's interrupts.
pub fn timer_preempt(table: &mut ShardTable, ticks: &mut u64)
    requires
        old(table).wf(),
    ensures
        final(table).wf(),
        final(table).current == old(table).current,
        final(table)@ == yielded(old(table)@, old(table).current),
        *final(ticks) == (*old(ticks) + 1) % 0x1_0000_0000_0000_0000,
{
    *ticks = ticks.wrapping_add(1);
    handle_sys_yield(table);
}

/// Give up the current time slice: the current shard, if it is running, becomes ready. The
/// switch away from it follows.
pub fn handle_sys_yield(table: &mut ShardTable)
    requires
        old(table).wf(),
    ensures
        final(table).wf(),
        final(table).current == old(table).current,
        final(table)@ == yielded(old(table)@, old(table).current),
{
    if let Some(id) = table.current {
        if table.shards[id].state == ShardState::Running {
            table.shards[id].state = ShardState::Ready;
        }
    }
    assert(table@ =~= yielded(old(table)@, old(table).current));
}

/// Lay out a shard's kernel stack so that the first switch to it restores six cleared
/// registers and returns to `entry`. `stack` is the memory that ends at the shard's
/// `kernel_stack_top`.
pub fn setup_initial_kernel_stack(
    table: &mut ShardTable,
    id: usize,
    stack: &mut [u64; STACK_WORDS],
    entry: u64,
)
    requires
        old(table).wf(),
        id < MAX_SHARDS,
        old(table)@[id as int].kernel_stack_top >= 56,
    ensures
        final(table).wf(),
        final(table).current == old(table).current,
        final(table)@ == old(table)@.update(
            id as int,
            (ShardDescriptor {
                saved_kernel_rsp: (old(table)@[id as int].kernel_stack_top - 56) as u64,
                ..old(table)@[id as int]
            }),
        ),
        forall|i: int|
            0 <= i < STACK_WORDS ==> #[trigger] final(stack)@[i] == (if i == 511 {
                entry
            } else if i >= 505 {
                0
            } else {
                old(stack)@[i]
            }),
{
    stack[511] = entry;
    stack[510] = 0;
    stack[509] = 0;
    stack[508] = 0;
    stack[507] = 0;
    stack[506] = 0;
    stack[505] = 0;
    table.shards[id].saved_kernel_rsp = table.shards[id].kernel_stack_top - 56;
    assert(table@ =~= old(table)@.update(id as int, table@[id as int]));
}

/// All frames of the shards below number `n` that have exited.
pub open spec fn exited_frames(t: Seq<ShardDescriptor>, m: Seq<u64>, n: int) -> Set<u64> {
    Set::new(
        |f: u64|
            exists|i: int|
                0 <= i < n && (#[trigger] t[i]).state == ShardState::Exited && claimed(
                    m,
                    t[i].frames(),
                ).contains(f),
    )
}

/// A shard after the run loop has ended: destroyed if it had exited, else as it was.
pub open spec fn swept(s: ShardDescriptor, s2: ShardDescriptor) -> bool {
    if s.state == ShardState::Exited {
        &&& s2 == (ShardDescriptor {
            state: ShardState::Destroyed,
            pml4_phys: 0,
            frame_count: 0,
            caps: s2.caps,
            ..s
        })
        &&& forall|i: int|
            0 <= i < MAX_CAPS_PER_SHARD ==> #[trigger] s2.caps@[i] == CapEntry::spec_empty()
    } else {
        s2 == s
    }
}

/// Destroy all shards that have exited: their partitions of video memory are cleared and
/// taken back, and then all of their memory.
pub fn destroy_exited(
    table: &mut ShardTable,
    gpu: &mut Gpu,
    vram: &mut [u8],
    fa: &mut FrameAllocator,
    mem: &mut Memory,
)
    requires
        old(table).wf(),
        old(gpu).wf(),
        partitions_within(old(gpu)@, old(vram)@.len() as int),
        old(fa).wf(),
        old(fa)@.within(old(mem)@.len()),
        isolated(old(table)@, old(mem)@, old(fa)@),
    ensures
        final(table).wf(),
        final(fa).wf(),
        final(fa)@.within(final(mem)@.len()),
        isolated(final(table)@, final(mem)@, final(fa)@),
        final(table).current == old(table).current,
        forall|i: int| 0 <= i < MAX_SHARDS ==> swept(#[trigger] old(table)@[i], final(table)@[i]),
        released(
            old(mem)@,
            final(mem)@,
            old(fa)@,
            final(fa)@,
            exited_frames(old(table)@, old(mem)@, MAX_SHARDS as int),
        ),
        final(gpu).wf(),
        final(gpu)@.len() == old(gpu)@.len(),
        forall|i: int|
            0 <= i < old(gpu)@.len() ==> #[trigger] final(gpu)@[i] == (if left_behind(
                old(gpu)@[i],
                old(table)@,
            ) {
                disowned(old(gpu)@[i])
            } else {
                old(gpu)@[i]
            }),
        final(vram)@.len() == old(vram)@.len(),
        forall|a: int|
            0 <= a < old(vram)@.len() ==> #[trigger] final(vram)@[a] == (if abandoned(
                old(gpu)@,
                old(table)@,
                old(gpu)@.len() as int,
                a,
            ) {
                0
            } else {
                old(vram)@[a]
            }),
{
    clear_partitions(gpu, table, vram);
    let ghost t0 = table@;
    let ghost m0 = mem@;
    let ghost v0 = fa@;
    let mut id: usize = 0;
    proof {
        assert(exited_frames(t0, m0, 0) =~= Set::<u64>::empty());
        lemma_released_none(m0, v0, exited_frames(t0, m0, 0));
    }
    while id < MAX_SHARDS
        invariant
            id <= MAX_SHARDS,
            table.wf(),
            fa.wf(),
            t0.len() == MAX_SHARDS,
            isolated(t0, m0, v0),
            fa@.within(mem@.len()),
            isolated(table@, mem@, fa@),
            table.current == old(table).current,
            forall|i: int| 0 <= i < id ==> swept(#[trigger] t0[i], table@[i]),
            forall|i: int| id <= i < MAX_SHARDS ==> #[trigger] table@[i] == t0[i],
            forall|i: int|
                id <= i < MAX_SHARDS && (#[trigger] t0[i]).live() ==> claimed(mem@, t0[i].frames())
                    == claimed(m0, t0[i].frames()),
            released(m0, mem@, v0, fa@, exited_frames(t0, m0, id as int)),
        decreases MAX_SHARDS - id,
    {
        let ghost m = mem@;
        let ghost v = fa@;
        let ghost t = table@;
        let ghost done = exited_frames(t0, m0, id as int);
        assert(table@[id as int] == t0[id as int]);
        if table.shards[id].state == ShardState::Exited {
            let ghost gone = claimed(m0, t0[id as int].frames());
            proof {
                assert(t0[id as int].live());
            }
            destroy(table, fa, mem, id);
            proof {
                lemma_exited_step(t0, m0, v0, id as int);
                lemma_released_both(m0, m, mem@, v0, v, fa@, done, gone);
                assert forall|i: int| 0 <= i < id + 1 implies swept(#[trigger] t0[i], table@[i]) by {
                    if i < id {
                        assert(table@[i] == t[i]);
                    }
                }
                assert forall|i: int|
                    id + 1 <= i < MAX_SHARDS && (#[trigger] t0[i]).live() implies claimed(
                    mem@,
                    t0[i].frames(),
                ) == claimed(m0, t0[i].frames()) by {
                    assert(t[i] == t0[i]);
                    assert(t[i].live());
                }
            }
        } else {
            proof {
                assert(exited_frames(t0, m0, id + 1) =~= done) by {
                    assert forall|f: u64|
                        exited_frames(t0, m0, id + 1).contains(f) == done.contains(f) by {
                        if exited_frames(t0, m0, id + 1).contains(f) {
                            let i = choose|i: int|
                                0 <= i < id + 1 && (#[trigger] t0[i]).state == ShardState::Exited
                                    && claimed(m0, t0[i].frames()).contains(f);
                            assert(i < id);
                        }
                    }
                }
            }
        }
        id += 1;
    }
}

proof fn lemma_exited_step(t: Seq<ShardDescriptor>, m: Seq<u64>, v: FrameView, id: int)
    requires
        isolated(t, m, v),
        0 <= id < t.len(),
        t[id].state == ShardState::Exited,
    ensures
        exited_frames(t, m, id + 1) == exited_frames(t, m, id).union(claimed(m, t[id].frames())),
        exited_frames(t, m, id).disjoint(claimed(m, t[id].frames())),
{
    reveal(isolated);
    let a = exited_frames(t, m, id);
    let b = exited_frames(t, m, id + 1);
    let c = claimed(m, t[id].frames());
    assert forall|f: u64| b.contains(f) == a.union(c).contains(f) by {
        if b.contains(f) {
            let i = choose|i: int|
                0 <= i < id + 1 && (#[trigger] t[i]).state == ShardState::Exited && claimed(
                    m,
                    t[i].frames(),
                ).contains(f);
            if i < id {
                assert(a.contains(f));
            }
        }
        if a.contains(f) {
            let i = choose|i: int|
                0 <= i < id && (#[trigger] t[i]).state == ShardState::Exited && claimed(
                    m,
                    t[i].frames(),
                ).contains(f);
            assert(0 <= i < id + 1 && t[i].state == ShardState::Exited);
        }
        if c.contains(f) {
            assert(0 <= id < id + 1 && t[id].state == ShardState::Exited);
        }
    }
    assert(b =~= a.union(c));
    assert forall|f: u64| !(a.contains(f) && c.contains(f)) by {
        if a.contains(f) && c.contains(f) {
            let i = choose|i: int|
                0 <= i < id && (#[trigger] t[i]).state == ShardState::Exited && claimed(
                    m,
                    t[i].frames(),
                ).contains(f);
            assert(t[i].live() && t[id].live());
            assert(claimed(m, t[i].frames()).disjoint(claimed(m, t[id].frames())));
        }
    }
}

// ---------------------------------------------------------------------------
// Laws
// ---------------------------------------------------------------------------

/// Whenever a shard is ready, there is one to run next.
pub proof fn law_choice_exists(t: Seq<ShardDescriptor>, last: int)
    requires
        0 <= last < MAX_SHARDS,
        !none_ready(t),
    ensures
        exists|i: int| is_next(t, last, i),
{
    let j = choose|j: int| 0 <= j < MAX_SHARDS && ready(#[trigger] t[j]);
    lemma_next_exists(t, last, j);
}

proof fn lemma_next_exists(t: Seq<ShardDescriptor>, last: int, i: int)
    requires
        0 <= last < MAX_SHARDS,
        0 <= i < MAX_SHARDS,
        ready(t[i]),
    ensures
        exists|k: int| is_next(t, last, k),
    decreases 10 * rank(t[i].priority) + turn(last, i),
{
    if !is_next(t, last, i) {
        let j = choose|j: int|
            0 <= j < MAX_SHARDS && ready(#[trigger] t[j]) && !(rank(t[i].priority) < rank(
                t[j].priority,
            ) || (rank(t[i].priority) == rank(t[j].priority) && turn(last, i) <= turn(last, j)));
        lemma_next_exists(t, last, j);
    }
}

/// The choice of the next shard is unique.
pub proof fn law_choice_is_unique(t: Seq<ShardDescriptor>, last: int, i: int, j: int)
    requires
        0 <= last < MAX_SHARDS,
        is_next(t, last, i),
        is_next(t, last, j),
    ensures
        i == j,
{
}

/// Priorities are strict: while a shard runs in its turn, no shard of a higher priority
/// is ready.
pub proof fn law_no_priority_inversion(t: Seq<ShardDescriptor>, last: int, i: int, j: int)
    requires
        is_next(t, last, i),
        0 <= j < MAX_SHARDS,
        rank(t[j].priority) < rank(t[i].priority),
    ensures
        !ready(t[j]),
{
}

/// No starvation within a priority: each time another shard of the same priority is picked,
/// a waiting shard comes closer to its turn. So it is picked after at most as many turns as
/// there are shards.
pub proof fn law_round_robin(t: Seq<ShardDescriptor>, last: int, i: int, j: int)
    requires
        0 <= last < MAX_SHARDS,
        is_next(t, last, i),
        0 <= j < MAX_SHARDS,
        j != i,
        ready(t[j]),
        t[j].priority == t[i].priority,
    ensures
        1 <= turn(i, j) < turn(last, j) <= MAX_SHARDS,
{
    assert(turn(last, i) <= turn(last, j));
}

/// Only a running shard becomes ready by yielding; one that blocked or exited stays so.
pub proof fn law_yield_keeps_blocked(t: Seq<ShardDescriptor>, id: usize, i: int)
    requires
        t.len() == MAX_SHARDS,
        id < MAX_SHARDS,
        0 <= i < MAX_SHARDS,
        t[i].state != ShardState::Running,
    ensures
        yielded(t, Some(id))[i] == t[i],
{
}

/// The first switch to a shard pops six registers, all zero, and returns to its entry.
pub proof fn law_first_switch(stack: Seq<u64>, top: int, rsp: int, entry: u64)
    requires
        stack.len() == STACK_WORDS,
        rsp == top - 56,
        stack[511] == entry,
        forall|i: int| 505 <= i < 511 ==> #[trigger] stack[i] == 0,
    ensures
        ({
            let base = top - 8 * STACK_WORDS;
            &&& forall|k: int| 0 <= k < 6 ==> stack[(rsp - base) / 8 + #[trigger] (k + 0)] == 0
            &&& stack[(rsp - base) / 8 + 6] == entry
        }),
{
}

/// The levels in their order: a ready shard that is critical is picked before any other, one
/// of high priority before any of normal or low priority, and one of normal priority before
/// any of low priority. What is picked is ready.
pub proof fn law_levels_in_order(t: Seq<ShardDescriptor>, last: int, i: int, j: int)
    requires
        is_next(t, last, i),
        0 <= j < MAX_SHARDS,
        t[j].state == ShardState::Ready,
    ensures
        t[i].state == ShardState::Ready,
        t[j].priority == Priority::Critical ==> t[i].priority == Priority::Critical,
        t[j].priority == Priority::High ==> t[i].priority == Priority::Critical || t[i].priority
            == Priority::High,
        t[j].priority == Priority::Normal ==> t[i].priority == Priority::Critical || t[i].priority
            == Priority::High || t[i].priority == Priority::Normal,
{
    assert(ready(t[j]));
}

/// Turns go around by number: between the shard that ran last and the one that is picked, no
/// shard of the same priority is ready. The one that ran last comes last itself.
pub proof fn law_turns_go_around(t: Seq<ShardDescriptor>, last: int, i: int, j: int)
    requires
        0 <= last < MAX_SHARDS,
        is_next(t, last, i),
        0 <= j < MAX_SHARDS,
        t[j].state == ShardState::Ready,
        t[j].priority == t[i].priority,
    ensures
        i > last ==> !(last < j < i),
        i <= last ==> !(last < j) && !(j < i),
{
    assert(ready(t[j]));
}

/// A shard is picked exactly where one is ready. The run ends as done exactly where each
/// shard is unused, has exited or is destroyed.
pub proof fn law_run_ends(t: Seq<ShardDescriptor>, last: int)
    requires
        t.len() == MAX_SHARDS,
        0 <= last < MAX_SHARDS,
    ensures
        (exists|i: int| is_next(t, last, i)) <==> exists|j: int|
            0 <= j < t.len() && (#[trigger] t[j]).state == ShardState::Ready,
        none_ready(t) <==> forall|j: int|
            0 <= j < t.len() ==> (#[trigger] t[j]).state != ShardState::Ready,
        is_done(t) <==> forall|j: int|
            0 <= j < t.len() ==> (#[trigger] t[j]).state != ShardState::Ready && t[j].state
                != ShardState::Running && t[j].state != ShardState::Blocked,
{
    if exists|i: int| is_next(t, last, i) {
        let i = choose|i: int| is_next(t, last, i);
        assert(t[i].state == ShardState::Ready);
    }
    if exists|j: int| 0 <= j < t.len() && (#[trigger] t[j]).state == ShardState::Ready {
        let j = choose|j: int| 0 <= j < t.len() && (#[trigger] t[j]).state == ShardState::Ready;
        assert(ready(t[j]));
        law_choice_exists(t, last);
    }
    if none_ready(t) {
        assert forall|j: int| 0 <= j < t.len() implies (#[trigger] t[j]).state
            != ShardState::Ready by {
            assert(!ready(t[j]));
        }
    }
}

/// A running shard that gives up the processor is ready afterwards, with all else of it and
/// every other shard as before.
pub proof fn law_yield_makes_ready(t: Seq<ShardDescriptor>, id: usize, i: int)
    requires
        t.len() == MAX_SHARDS,
        id < MAX_SHARDS,
        0 <= i < MAX_SHARDS,
        t[id as int].state == ShardState::Running,
    ensures
        yielded(t, Some(id))[id as int] == (ShardDescriptor {
            state: ShardState::Ready,
            ..t[id as int]
        }),
        i != id ==> yielded(t, Some(id))[i] == t[i],
        yielded(t, None) == t,
{
}

} // verus!
