//! Shard lifecycle: creating, exiting and destroying isolated user-mode address spaces.
//!
//! A shard is an isolated execution context with its own page tables, code pages and
//! stack. The supervisor copies the upper half of its root table into each shard, so
//! that system calls and interrupts find the kernel.

use vstd::prelude::*;

use crate::frame::{alloc_frame_zeroed, has_frames, FrameAllocator, FrameView};
use crate::links::ways_open;
use crate::mem::{bytes_at, frame_ok, in_frame, is_zero_frame, page_of, zeroed, Memory};
use crate::space::{add_page, claimed, cleared, in_frames, lemma_claimed, lemma_cleared_other};
use crate::space::{lemma_free_frame_apart, lemma_grown_none, lemma_grown_twice, lemma_same_bytes};
use crate::space::{lemma_space_kept, lemma_space_new, page_mapped, release_space, released};
use crate::space::{lemma_space_tables, same_frame, space_grown, space_wf};
use crate::vmm::{executable, half_lo, in_free_frame, in_half, indices, law_entry_round_trip, leaf};
use crate::vmm::{lemma_addr_fits, lemma_entry_bits, lemma_frames_apart, lemma_indices_ok};
use crate::vmm::{lemma_present_flag, missing_tables, on_way, path_ok, pte_addr, pte_value};
use crate::vmm::{same_leaves, slot, table_at, writable, Leaf, PTE_ADDR_MASK, PTE_NO_EXECUTE};
use crate::vmm::{PARENT_FLAGS, PTE_PRESENT, PTE_USER, PTE_WRITABLE};
use crate::window::page;

verus! {

/// Number of shards.
pub const MAX_SHARDS: usize = 8;

/// Number of slots in a shard's capability table.
pub const MAX_CAPS_PER_SHARD: usize = 16;

/// Number of frames that can be allocated for a single shard, page tables not counted.
pub const MAX_SHARD_FRAMES: usize = 32;

/// Virtual address at which the shard's code is mapped.
pub const SHARD_CODE_VADDR: u64 = 0x1000;

/// Virtual address at which the shard's stack page is mapped.
pub const SHARD_STACK_VADDR: u64 = 0x7F_F000;

/// Initial stack pointer of a shard: the end of its stack page.
pub const SHARD_INITIAL_RSP: u64 = 0x80_0000;

/// Flags of code pages: for user mode, readable and executable.
pub const CODE_FLAGS: u64 = 4;

/// Flags of stack pages: for user mode, writable, not executable.
pub const STACK_FLAGS: u64 = 0x8000_0000_0000_0006;

#[derive(Debug, Clone, Copy, PartialEq, Eq, Structural)]
pub enum ShardState {
    /// The slot has never been used.
    Free,
    /// Waiting for its turn.
    Ready,
    /// On the processor.
    Running,
    /// Waiting for a message.
    Blocked,
    /// Has called exit, or was stopped by a fault.
    Exited,
    /// All of its memory is zeroed and given back.
    Destroyed,
}

/// Scheduling priority, from highest to lowest.
#[derive(Debug, Clone, Copy, PartialEq, Eq, Structural)]
pub enum Priority {
    Critical,
    High,
    Normal,
    Low,
}

/// One slot of a shard's capability table.
#[derive(Debug, Clone, Copy, PartialEq, Eq, Structural)]
pub struct CapEntry {
    pub valid: bool,
    pub cap_type: u8,
    pub resource_id: u32,
    pub rights: u16,
}

impl CapEntry {
    /// The slot without a capability.
    pub open spec fn spec_empty() -> CapEntry {
        CapEntry { valid: false, cap_type: 0, resource_id: 0, rights: 0 }
    }

    pub fn empty() -> (c: CapEntry)
        ensures
            c == CapEntry::spec_empty(),
    {
        CapEntry { valid: false, cap_type: 0, resource_id: 0, rights: 0 }
    }
}

/// What the supervisor keeps of a shard.
#[derive(Debug, Clone, Copy)]
pub struct ShardDescriptor {
    pub state: ShardState,
    pub priority: Priority,
    /// Physical address of the root page table.
    pub pml4_phys: u64,
    /// The frames allocated for the shard; the first is the root page table.
    pub allocated_frames: [u64; MAX_SHARD_FRAMES],
    pub frame_count: usize,
    pub exit_code: u64,
    /// The channel that the shard waits on while it is blocked.
    pub blocked_on_channel: Option<usize>,
    /// Where the shard's kernel stack ends.
    pub kernel_stack_top: u64,
    /// Saved stack pointer of the shard's kernel context.
    pub saved_kernel_rsp: u64,
    pub caps: [CapEntry; MAX_CAPS_PER_SHARD],
    /// The categories of system calls that the shard has kept.
    pub gpu_pledge: u64,
    /// The range of its video memory that the shard has opened to copies; a size of zero
    /// stands for all of it.
    pub vram_unveil_offset: u64,
    pub vram_unveil_size: u64,
}

impl ShardDescriptor {
    /// Whether the shard has memory.
    pub open spec fn live(self) -> bool {
        self.state != ShardState::Free && self.state != ShardState::Destroyed
    }

    /// The frames allocated for the shard.
    pub open spec fn frames(self) -> Seq<u64> {
        self.allocated_frames@.take(self.frame_count as int)
    }

    /// The slot of a shard that has not been created.
    pub fn empty() -> (s: ShardDescriptor)
        ensures
            s.vacant(),
    {
        let s = ShardDescriptor {
            state: ShardState::Free,
            priority: Priority::Normal,
            pml4_phys: 0,
            allocated_frames: [0u64;MAX_SHARD_FRAMES],
            frame_count: 0,
            exit_code: 0,
            blocked_on_channel: None,
            kernel_stack_top: 0,
            saved_kernel_rsp: 0,
            caps: [CapEntry::empty();MAX_CAPS_PER_SHARD],
            gpu_pledge: u64::MAX,
            vram_unveil_offset: 0,
            vram_unveil_size: 0,
        };
        s
    }

    /// A free slot: no memory, no stack, nothing else set.
    pub open spec fn vacant(self) -> bool {
        &&& self.state == ShardState::Free
        &&& self.priority == Priority::Normal
        &&& self.pml4_phys == 0
        &&& forall|i: int| 0 <= i < MAX_SHARD_FRAMES ==> #[trigger] self.allocated_frames@[i] == 0
        &&& self.frame_count == 0
        &&& self.kernel_stack_top == 0
        &&& self.fresh()
    }

    /// No capability, no restriction, not waiting, no exit code.
    pub open spec fn fresh(self) -> bool {
        &&& forall|i: int|
            0 <= i < MAX_CAPS_PER_SHARD ==> #[trigger] self.caps@[i] == CapEntry::spec_empty()
        &&& self.gpu_pledge == u64::MAX
        &&& self.vram_unveil_offset == 0
        &&& self.vram_unveil_size == 0
        &&& self.blocked_on_channel is None
        &&& self.saved_kernel_rsp == 0
        &&& self.exit_code == 0
    }
}

/// All shards, and which of them is running.
pub struct ShardTable {
    pub shards: [ShardDescriptor; MAX_SHARDS],
    pub current: Option<usize>,
}

impl View for ShardTable {
    type V = Seq<ShardDescriptor>;

    open spec fn view(&self) -> Seq<ShardDescriptor> {
        self.shards@
    }
}

impl ShardTable {
    /// A table with no shard.
    pub fn new() -> (t: ShardTable)
        ensures
            t.wf(),
            t.current is None,
            forall|i: int| 0 <= i < MAX_SHARDS ==> (#[trigger] t@[i]).vacant(),
    {
        ShardTable { shards: [ShardDescriptor::empty();MAX_SHARDS], current: None }
    }

    /// The current shard, where there is one, is in the table.
    pub open spec fn wf(&self) -> bool {
        &&& self@.len() == MAX_SHARDS
        &&& self.current matches Some(id) ==> id < MAX_SHARDS
    }
}

/// Each shard that has memory has an address space of its own, in which the ways to all pages
/// are open, and no frame belongs to two of them.
#[verifier::opaque]
pub open spec fn isolated(t: Seq<ShardDescriptor>, m: Seq<u64>, v: FrameView) -> bool {
    &&& forall|i: int| 0 <= i < t.len() && (#[trigger] t[i]).live() ==> shard_wf(t[i], m, v)
    &&& forall|i: int, j: int|
        0 <= i < t.len() && 0 <= j < t.len() && i != j && (#[trigger] t[i]).live() && (
        #[trigger] t[j]).live() ==> claimed(m, t[i].frames()).disjoint(claimed(m, t[j].frames()))
}

/// A shard with memory: an address space whose root is the shard's page table.
pub open spec fn shard_wf(s: ShardDescriptor, m: Seq<u64>, v: FrameView) -> bool {
    &&& 1 <= s.frame_count <= MAX_SHARD_FRAMES
    &&& s.pml4_phys == s.frames()[0]
    &&& space_wf(m, v, s.frames())
}

/// Number of code pages for `len` bytes of code: at least one.
pub open spec fn code_pages(len: int) -> int {
    if len <= 4096 {
        1
    } else {
        (len + 4095) / 4096
    }
}

/// Number of frames that a new shard with `pages` code pages takes: the root table, the
/// code, the stack, and the page tables for both.
pub open spec fn frames_needed(pages: int) -> int {
    pages + 6
}

/// The first free slot from number `i` on.
pub open spec fn first_free(t: Seq<ShardDescriptor>, i: int) -> int
    decreases t.len() - i,
{
    if i >= t.len() || t[i].state == ShardState::Free {
        i
    } else {
        first_free(t, i + 1)
    }
}

/// What the first `pages` code pages of a new shard map `x` to.
pub open spec fn code_leaf(frames: Seq<u64>, pages: int, x: u64) -> Leaf {
    let p = indices(x);
    if p[0] == 0 && p[1] == 0 && p[2] == 0 && 1 <= p[3] <= pages {
        Leaf::Page4K(pte_value(frames[p[3]], CODE_FLAGS | PTE_PRESENT))
    } else {
        Leaf::Unmapped
    }
}

/// What a new shard maps `x` to: its code pages, its stack page, nothing else.
pub open spec fn shard_leaf(frames: Seq<u64>, pages: int, x: u64) -> Leaf {
    if indices(x) == indices(SHARD_STACK_VADDR) {
        Leaf::Page4K(pte_value(frames[pages + 1], STACK_FLAGS | PTE_PRESENT))
    } else {
        code_leaf(frames, pages, x)
    }
}

/// The lower half of a new shard has no page tables but those on the way to its code and to
/// its stack.
pub open spec fn shard_tables(m: Seq<u64>, root: u64) -> bool {
    forall|q: Seq<int>|
        path_ok(q, 0, 256) && q.len() > 0 && !on_way(q, SHARD_CODE_VADDR, 3)
            && !on_way(q, SHARD_STACK_VADDR, 3) ==> #[trigger] table_at(m, root, q) is None
}

/// An address space made of free frames: `m2` differs from `m` only in frames that were
/// free, the frames taken belong to the new space, and its root shares the upper half of
/// the table at `sup`.
#[verifier::opaque]
pub open spec fn space_made(
    m: Seq<u64>,
    m2: Seq<u64>,
    v: FrameView,
    v2: FrameView,
    frames: Seq<u64>,
    sup: u64,
) -> bool {
    &&& m2.len() == m.len()
    &&& space_wf(m2, v2, frames)
    &&& forall|t: u64| #[trigger] claimed(m2, frames).contains(t) ==> v.avail(t)
    &&& forall|t: u64| #[trigger] v2.avail(t) <==> v.avail(t) && !claimed(m2, frames).contains(t)
    &&& forall|t: u64| #[trigger] v.owns(t) ==> v2.owns(t)
    &&& forall|w: int| 0 <= w < m.len() ==> #[trigger] m2[w] == m[w] || in_free_frame(v, w)
    &&& forall|i: int| 256 <= i < 512 ==> #[trigger] m2[slot(frames[0], i)] == m[slot(sup, i)]
}

/// Allocate a root table that shares the upper half of the table at `sup`.
#[verifier::rlimit(40)]
fn new_root(fa: &mut FrameAllocator, mem: &mut Memory, sup: u64) -> (root: u64)
    requires
        old(fa).wf(),
        old(fa)@.within(old(mem)@.len()),
        old(fa)@.capacity() > 0,
        frame_ok(old(mem)@, sup),
        !old(fa)@.avail(sup),
    ensures
        final(fa).wf(),
        final(fa)@.within(final(mem)@.len()),
        space_made(old(mem)@, final(mem)@, old(fa)@, final(fa)@, seq![root], sup),
        forall|q: Seq<int>|
            path_ok(q, 0, 256) && q.len() > 0 ==> #[trigger] table_at(
                final(mem)@,
                root,
                q,
            ) is None,
        forall|x: u64| half_lo(x) == 0 ==> #[trigger] leaf(final(mem)@, root, x) is Unmapped,
        final(fa)@.capacity() == old(fa)@.capacity() - 1,
{
    let ghost m0 = mem@;
    let ghost v0 = fa@;
    proof {
        fa.lemma_wf();
        v0.lemma_alloc();
    }
    let root: u64 = match alloc_frame_zeroed(fa, mem) {
        Some(p) => p,
        None => {
            assert(false);
            0
        },
    };
    let ghost m1 = mem@;
    let mut i: u64 = 256;
    while i < 512
        invariant
            256 <= i <= 512,
            m1 == zeroed(m0, root),
            mem@.len() == m0.len(),
            frame_ok(m0, root),
            frame_ok(m0, sup),
            root != sup,
            forall|w: int| 0 <= w < m0.len() && !in_frame(w, root) ==> #[trigger] mem@[w] == m0[w],
            forall|k: int| 0 <= k < 256 ==> #[trigger] mem@[slot(root, k)] == 0,
            forall|k: int| 256 <= k < i ==> #[trigger] mem@[slot(root, k)] == m0[slot(sup, k)],
        decreases 512 - i,
    {
        proof {
            let w = slot(sup, i as int);
            assert(in_frame(w, sup));
            if in_frame(w, root) {
                lemma_frames_apart(m0, sup, root, w);
            }
            assert(mem@[w] == m0[w]);
        }
        let entry: u64 = mem.read(sup + 8 * i);
        mem.write(root + 8 * i, entry);
        i += 1;
    }
    proof {
        let v1 = fa@;
        let m2 = mem@;
        let frames = seq![root];
        lemma_space_new(m2, v1, root);
        reveal(space_made);
        assert forall|w: int| 0 <= w < m0.len() implies #[trigger] m2[w] == m0[w] || in_free_frame(
            v0,
            w,
        ) by {
            if in_frame(w, root) {
                reveal(in_free_frame);
                assert(v0.avail(root));
            }
        }
    }
    root
}

/// Growing a space that was made keeps it made.
pub proof fn lemma_made_grown(
    m: Seq<u64>,
    m1: Seq<u64>,
    m2: Seq<u64>,
    v: FrameView,
    v1: FrameView,
    v2: FrameView,
    f1: Seq<u64>,
    f2: Seq<u64>,
    sup: u64,
)
    requires
        space_made(m, m1, v, v1, f1, sup),
        space_grown(m1, m2, v1, v2, f1, f2),
    ensures
        space_made(m, m2, v, v2, f2, sup),
{
    reveal(space_made);
    reveal(space_grown);
    assert(f2[0] == f1[0]) by {
        assert(f2.take(f1.len() as int)[0] == f1[0]);
    }
    assert forall|t: u64| #[trigger] claimed(m2, f2).contains(t) implies v.avail(t) by {
        if !claimed(m1, f1).contains(t) {
            assert(v1.avail(t));
        }
    }
    assert forall|t: u64| #[trigger] v2.avail(t) <==> v.avail(t) && !claimed(m2, f2).contains(t) by {
        if claimed(m1, f1).contains(t) {
            assert(claimed(m2, f2).contains(t));
        }
    }
    assert forall|w: int| 0 <= w < m.len() implies #[trigger] m2[w] == m[w] || in_free_frame(
        v,
        w,
    ) by {
        if m2[w] != m1[w] {
            reveal(in_free_frame);
            if in_free_frame(v1, w) {
                let t = choose|t: u64| v1.avail(t) && #[trigger] in_frame(w, t);
                assert(v.avail(t));
            } else {
                let t = choose|t: u64| claimed(m1, f1).contains(t) && #[trigger] in_frame(w, t);
                assert(v.avail(t));
            }
        } else {
            assert(m1[w] == m2[w]);
        }
    }
    assert forall|i: int| 256 <= i < 512 implies #[trigger] m2[slot(f2[0], i)] == m[slot(sup, i)] by {
        assert(m1[slot(f1[0], i)] == m[slot(sup, i)]);
    }
}

/// The entries on the way to the code pages, and to the stack page.
proof fn lemma_shard_indices(j: int)
    requires
        0 <= j < MAX_SHARD_FRAMES,
    ensures
        page(SHARD_CODE_VADDR, j) == SHARD_CODE_VADDR + 4096 * j,
        indices(page(SHARD_CODE_VADDR, j)) == seq![0int, 0, 0, 1 + j],
        indices(SHARD_STACK_VADDR) == seq![0int, 0, 3, 511],
        half_lo(page(SHARD_CODE_VADDR, j)) == 0,
        half_lo(SHARD_STACK_VADDR) == 0,
{
    let x = page(SHARD_CODE_VADDR, j);
    assert(x == 0x1000 + 4096 * j);
    assert(indices(x) =~= seq![0int, 0, 0, 1 + j]);
    assert(indices(SHARD_STACK_VADDR) =~= seq![0int, 0, 3, 511]);
}

/// The flags of code and stack pages keep them from being both writable and executable.
pub proof fn lemma_shard_flags()
    ensures
        !writable(CODE_FLAGS),
        !executable(STACK_FLAGS),
        CODE_FLAGS == PTE_USER,
        STACK_FLAGS == PTE_USER | PTE_WRITABLE | PTE_NO_EXECUTE,
        CODE_FLAGS & PTE_ADDR_MASK == 0,
        STACK_FLAGS & PTE_ADDR_MASK == 0,
{
    assert(4u64 & 2 == 0 && 0x8000_0000_0000_0006u64 & 0x8000_0000_0000_0000 != 0
        && 0x8000_0000_0000_0006 == 4u64 | 2 | 0x8000_0000_0000_0000 && 4u64
        & 0x000F_FFFF_FFFF_F000 == 0 && 0x8000_0000_0000_0006u64 & 0x000F_FFFF_FFFF_F000 == 0)
        by (bit_vector);
}

/// The tables of a shard under construction: none before the first code page, those for
/// the code pages after it.
spec fn code_tables(m: Seq<u64>, root: u64, k: int) -> bool {
    &&& forall|q: Seq<int>|
        path_ok(q, 0, 256) && q.len() > 0 && (k == 0 || !on_way(q, SHARD_CODE_VADDR, 3))
            ==> #[trigger] table_at(m, root, q) is None
    &&& k > 0 ==> forall|l: int|
        1 <= l <= 3 ==> #[trigger] table_at(
            m,
            root,
            indices(SHARD_CODE_VADDR).take(l),
        ) is Some
}

/// How many tables the next page needs.
proof fn lemma_code_missing(m: Seq<u64>, root: u64, k: int)
    requires
        code_tables(m, root, k),
        0 <= k < MAX_SHARD_FRAMES,
    ensures
        missing_tables(m, root, page(SHARD_CODE_VADDR, k), 3) == (if k == 0 {
            3int
        } else {
            0
        }),
        missing_tables(m, root, SHARD_STACK_VADDR, 3) == (if k == 0 {
            3int
        } else {
            1
        }),
        forall|l: int|
            0 <= l <= 3 ==> (#[trigger] indices(page(SHARD_CODE_VADDR, k)).take(l)) == indices(
                SHARD_CODE_VADDR,
            ).take(l),
{
    let x = page(SHARD_CODE_VADDR, k);
    let c = indices(SHARD_CODE_VADDR);
    let y = indices(SHARD_STACK_VADDR);
    lemma_shard_indices(k);
    lemma_shard_indices(0);
    assert(page(SHARD_CODE_VADDR, 0) == SHARD_CODE_VADDR);
    assert forall|l: int| 0 <= l <= 3 implies (#[trigger] indices(x).take(l)) == c.take(l) by {
        assert(indices(x).take(l) =~= c.take(l));
    }
    reveal_with_fuel(missing_tables, 4);
    lemma_indices_ok(x, 1, 0, 256);
    lemma_indices_ok(x, 2, 0, 256);
    lemma_indices_ok(x, 3, 0, 256);
    lemma_indices_ok(SHARD_STACK_VADDR, 1, 0, 256);
    lemma_indices_ok(SHARD_STACK_VADDR, 2, 0, 256);
    lemma_indices_ok(SHARD_STACK_VADDR, 3, 0, 256);
    assert(y.take(1) =~= c.take(1));
    assert(y.take(2) =~= c.take(2));
    assert(y.take(3) != c.take(3)) by {
        assert(y.take(3)[2] != c.take(3)[2]);
    }
    assert(indices(x).take(1).len() == 1 && indices(x).take(2).len() == 2 && indices(x).take(
        3,
    ).len() == 3 && y.take(3).len() == 3);
    assert(table_at(m, root, y.take(3)) is None);
    if k == 0 {
        assert(table_at(m, root, c.take(1)) is None);
        assert(table_at(m, root, c.take(2)) is None);
        assert(table_at(m, root, c.take(3)) is None);
    } else {
        assert(table_at(m, root, c.take(1)) is Some);
        assert(table_at(m, root, c.take(2)) is Some);
        assert(table_at(m, root, c.take(3)) is Some);
    }
}

/// Number of code pages for `len` bytes of code.
fn count_code_pages(len: usize) -> (n: usize)
    ensures
        n == code_pages(len as int),
{
    if len <= 4096 {
        1
    } else if len % 4096 == 0 {
        len / 4096
    } else {
        len / 4096 + 1
    }
}

/// What is known of a shard under construction after `k` code pages.
#[verifier::opaque]
spec fn code_added(
    m1: Seq<u64>,
    m: Seq<u64>,
    v1: FrameView,
    v: FrameView,
    frames: Seq<u64>,
    code: Seq<u8>,
    k: int,
) -> bool {
    &&& frames.len() == k + 1
    &&& space_grown(m1, m, v1, v, seq![frames[0]], frames)
    &&& code_tables(m, frames[0], k)
    &&& forall|j: int|
        1 <= j <= k ==> bytes_at(m, (#[trigger] frames[j]) as int, 4096) == page_of(code, j - 1)
    &&& forall|x: u64|
        in_half(x, 0, 256) ==> #[trigger] leaf(m, frames[0], x) == code_leaf(frames, k, x)
    &&& v.capacity() == v1.capacity() - k - (if k > 0 {
        3int
    } else {
        0
    })
}

/// One more code page.
proof fn lemma_code_step(
    m1: Seq<u64>,
    m: Seq<u64>,
    m2: Seq<u64>,
    v1: FrameView,
    v: FrameView,
    v2: FrameView,
    frames: Seq<u64>,
    p: u64,
    code: Seq<u8>,
    k: int,
)
    requires
        0 <= k < MAX_SHARD_FRAMES,
        code_added(m1, m, v1, v, frames, code, k),
        space_grown(m, m2, v, v2, frames, frames.push(p)),
        bytes_at(m2, p as int, 4096) == page_of(code, k),
        page_mapped(
            m,
            m2,
            frames[0],
            page(SHARD_CODE_VADDR, k),
            pte_value(p, CODE_FLAGS | PTE_PRESENT),
        ),
        v2.capacity() == v.capacity() - 1 - missing_tables(
            m,
            frames[0],
            page(SHARD_CODE_VADDR, k),
            3,
        ),
    ensures
        code_added(m1, m2, v1, v2, frames.push(p), code, k + 1),
{
    reveal(code_added);
    let root = frames[0];
    let more = frames.push(p);
    let x = page(SHARD_CODE_VADDR, k);
    let c = indices(SHARD_CODE_VADDR);
    lemma_shard_indices(k);
    lemma_shard_indices(0);
    lemma_code_missing(m, root, k);
    assert(more[0] == root);
    lemma_grown_twice(m1, m, m2, v1, v, v2, seq![root], frames, more);
    assert(code_tables(m2, root, k + 1)) by {
        reveal(page_mapped);
        assert forall|q: Seq<int>|
            path_ok(q, 0, 256) && q.len() > 0 && !on_way(
                q,
                SHARD_CODE_VADDR,
                3,
            ) implies #[trigger] table_at(m2, root, q) is None by {
            assert(!on_way(q, x, 3)) by {
                if on_way(q, x, 3) {
                    assert(indices(x).take(q.len() as int) == c.take(q.len() as int));
                }
            }
            assert(table_at(m, root, q) is None);
        }
        assert forall|l: int| 1 <= l <= 3 implies #[trigger] table_at(
            m2,
            root,
            c.take(l),
        ) is Some by {
            assert(indices(x).take(l) == c.take(l));
            assert(table_at(m2, root, indices(x).take(l)) is Some);
        }
    }
    assert forall|j: int| 1 <= j <= k + 1 implies bytes_at(m2, (#[trigger] more[j]) as int, 4096)
        == page_of(code, j - 1) by {
        if j <= k {
            assert(more[j] == frames[j]);
            assert(same_frame(m, m2, frames[j]) && frame_ok(m, frames[j])) by {
                reveal(space_grown);
                reveal(space_wf);
            }
            lemma_same_bytes(m, m2, frames[j]);
        }
    }
    assert forall|y: u64| in_half(y, 0, 256) implies #[trigger] leaf(m2, root, y) == code_leaf(
        more,
        k + 1,
        y,
    ) by {
        reveal(page_mapped);
        let i = indices(y);
        if i == indices(x) {
            assert(leaf(m2, root, y) == leaf(m2, root, x));
            assert(more[i[3]] == p);
        } else {
            assert(leaf(m2, root, y) == leaf(m, root, y));
            if i[0] == 0 && i[1] == 0 && i[2] == 0 && i[3] == 1 + k {
                assert(i =~= seq![0int, 0, 0, 1 + k]);
            }
            if 1 <= i[3] <= k {
                assert(more[i[3]] == frames[i[3]]);
            }
        }
    }
}

/// The stack page completes a shard.
proof fn lemma_stack_step(
    m1: Seq<u64>,
    m: Seq<u64>,
    m2: Seq<u64>,
    v1: FrameView,
    v: FrameView,
    v2: FrameView,
    frames: Seq<u64>,
    p: u64,
    code: Seq<u8>,
    k: int,
)
    requires
        1 <= k < MAX_SHARD_FRAMES,
        code_added(m1, m, v1, v, frames, code, k),
        space_grown(m, m2, v, v2, frames, frames.push(p)),
        page_mapped(
            m,
            m2,
            frames[0],
            SHARD_STACK_VADDR,
            pte_value(p, STACK_FLAGS | PTE_PRESENT),
        ),
        v2.capacity() == v.capacity() - 1 - missing_tables(m, frames[0], SHARD_STACK_VADDR, 3),
    ensures
        space_grown(m1, m2, v1, v2, seq![frames[0]], frames.push(p)),
        v2.capacity() == v1.capacity() - (frames_needed(k) - 1),
        forall|j: int|
            1 <= j <= k ==> bytes_at(m2, (#[trigger] frames.push(p)[j]) as int, 4096) == page_of(
                code,
                j - 1,
            ),
        forall|x: u64|
            in_half(x, 0, 256) ==> #[trigger] leaf(m2, frames[0], x) == shard_leaf(
                frames.push(p),
                k,
                x,
            ),
        shard_tables(m2, frames[0]),
{
    reveal(code_added);
    let root = frames[0];
    let more = frames.push(p);
    lemma_code_missing(m, root, k);
    lemma_shard_indices(0);
    lemma_grown_twice(m1, m, m2, v1, v, v2, seq![root], frames, more);
    assert forall|j: int| 1 <= j <= k implies bytes_at(m2, (#[trigger] more[j]) as int, 4096)
        == page_of(code, j - 1) by {
        assert(more[j] == frames[j]);
        assert(same_frame(m, m2, frames[j]) && frame_ok(m, frames[j])) by {
            reveal(space_grown);
            reveal(space_wf);
        }
        lemma_same_bytes(m, m2, frames[j]);
    }
    assert forall|y: u64| in_half(y, 0, 256) implies #[trigger] leaf(m2, root, y) == shard_leaf(
        more,
        k,
        y,
    ) by {
        reveal(page_mapped);
        let i = indices(y);
        if i == indices(SHARD_STACK_VADDR) {
            assert(leaf(m2, root, y) == leaf(m2, root, SHARD_STACK_VADDR));
            assert(more[k + 1] == p);
        } else {
            assert(leaf(m2, root, y) == leaf(m, root, y));
            if 1 <= i[3] <= k {
                assert(more[i[3]] == frames[i[3]]);
            }
        }
    }
    assert(shard_tables(m2, root)) by {
        reveal(page_mapped);
    }
}

/// Allocate the address space of a new shard and load its code.
fn build_space(fa: &mut FrameAllocator, mem: &mut Memory, sup_pml4: u64, code: &[u8]) -> (r: (
    [u64; MAX_SHARD_FRAMES],
    usize,
))
    requires
        old(fa).wf(),
        old(fa)@.within(old(mem)@.len()),
        frame_ok(old(mem)@, sup_pml4),
        !old(fa)@.avail(sup_pml4),
        code_pages(code@.len() as int) + 2 <= MAX_SHARD_FRAMES,
        old(fa)@.capacity() >= frames_needed(code_pages(code@.len() as int)),
    ensures
        final(fa).wf(),
        final(fa)@.within(final(mem)@.len()),
        r.1 == code_pages(code@.len() as int) + 2,
        ({
            let pages = code_pages(code@.len() as int);
            let frames = r.0@.take(r.1 as int);
            &&& space_made(old(mem)@, final(mem)@, old(fa)@, final(fa)@, frames, sup_pml4)
            &&& forall|j: int|
                1 <= j <= pages ==> bytes_at(final(mem)@, (#[trigger] frames[j]) as int, 4096)
                    == page_of(code@, j - 1)
            &&& is_zero_page(final(mem)@, frames[pages + 1])
            &&& forall|x: u64|
                in_half(x, 0, 256) ==> #[trigger] leaf(final(mem)@, frames[0], x) == shard_leaf(
                    frames,
                    pages,
                    x,
                )
            &&& shard_tables(final(mem)@, frames[0])
            &&& final(fa)@.capacity() == old(fa)@.capacity() - frames_needed(pages)
        }),
{
    let ghost m0 = mem@;
    let ghost v0 = fa@;
    let pages: usize = count_code_pages(code.len());
    let root: u64 = new_root(fa, mem, sup_pml4);
    let ghost m1 = mem@;
    let ghost v1 = fa@;
    let mut frames: [u64; MAX_SHARD_FRAMES] = [0u64;MAX_SHARD_FRAMES];
    frames[0] = root;
    let mut k: usize = 0;
    proof {
        assert(frames@.take(1) =~= seq![root]);
        assert(space_wf(m1, v1, seq![root])) by {
            reveal(space_made);
        }
        lemma_grown_none(m1, v1, seq![root]);
        assert forall|x: u64| in_half(x, 0, 256) implies #[trigger] leaf(m1, root, x) == code_leaf(
            seq![root],
            0,
            x,
        ) by {
            assert(half_lo(x) == 0);
        }
        reveal(code_added);
        lemma_shard_flags();
    }
    while k < pages
        invariant
            k <= pages,
            pages == code_pages(code@.len() as int),
            pages + 2 <= MAX_SHARD_FRAMES,
            fa.wf(),
            fa@.within(mem@.len()),
            v1.capacity() >= frames_needed(pages as int) - 1,
            frames@[0] == root,
            code_added(m1, mem@, v1, fa@, frames@.take(k + 1), code@, k as int),
            !writable(CODE_FLAGS),
        decreases pages - k,
    {
        let ghost m = mem@;
        let ghost v = fa@;
        let ghost before = frames@.take(k + 1);
        proof {
            assert(before[0] == root);
            lemma_shard_indices(k as int);
            reveal(code_added);
            lemma_code_missing(m, root, k as int);
            assert(space_wf(m, v, before)) by {
                reveal(space_grown);
            }
            assert(in_half(page(SHARD_CODE_VADDR, k as int), 0, 256));
            assert(leaf(m, root, page(SHARD_CODE_VADDR, k as int)) is Unmapped);
        }
        let p: u64 = add_page(
            fa,
            mem,
            root,
            SHARD_CODE_VADDR + 4096 * (k as u64),
            code,
            k,
            CODE_FLAGS,
            Ghost(before),
        );
        frames[k + 1] = p;
        proof {
            assert(frames@.take(k + 2) =~= before.push(p));
            lemma_code_step(m1, m, mem@, v1, v, fa@, before, p, code@, k as int);
        }
        k += 1;
    }
    let ghost m = mem@;
    let ghost v = fa@;
    let ghost before = frames@.take(pages + 1);
    let none: [u8; 0] = [];
    proof {
        assert(before[0] == root);
        lemma_shard_indices(0);
        lemma_shard_flags();
        reveal(code_added);
        lemma_code_missing(m, root, k as int);
        assert(space_wf(m, v, before)) by {
            reveal(space_grown);
        }
        assert(in_half(SHARD_STACK_VADDR, 0, 256));
        assert(indices(SHARD_STACK_VADDR)[2] == 3);
        assert(leaf(m, root, SHARD_STACK_VADDR) is Unmapped);
    }
    let p: u64 = add_page(
        fa,
        mem,
        root,
        SHARD_STACK_VADDR,
        none.as_slice(),
        0,
        STACK_FLAGS,
        Ghost(before),
    );
    frames[pages + 1] = p;
    proof {
        let all = frames@.take(pages + 2);
        assert(all =~= before.push(p));
        lemma_stack_step(m1, m, mem@, v1, v, fa@, before, p, code@, pages as int);
        lemma_made_grown(m0, m1, mem@, v0, v1, fa@, seq![root], all, sup_pml4);
        assert(page_of(none@, 0) =~= Seq::new(4096, |i: int| 0u8));
    }
    (frames, pages + 2)
}

/// Whether every byte of the frame at `p` is zero.
pub open spec fn is_zero_page(m: Seq<u64>, p: u64) -> bool {
    bytes_at(m, p as int, 4096) == Seq::new(4096, |i: int| 0u8)
}

/// The first free slot from number `start` on, or the number of slots.
pub fn find_free(table: &ShardTable, start: usize) -> (id: usize)
    requires
        table.wf(),
        start <= MAX_SHARDS,
    ensures
        id == first_free(table@, start as int),
        start <= id <= MAX_SHARDS,
        id < MAX_SHARDS ==> table@[id as int].state == ShardState::Free,
{
    let mut i: usize = start;
    while i < MAX_SHARDS
        invariant
            start <= i <= MAX_SHARDS,
            table.wf(),
            first_free(table@, i as int) == first_free(table@, start as int),
        decreases MAX_SHARDS - i,
    {
        if table.shards[i].state == ShardState::Free {
            return i;
        }
        i += 1;
    }
    i
}

/// Once the first free slot is taken, the next one is the first.
pub proof fn lemma_first_free_next(t: Seq<ShardDescriptor>, s: ShardDescriptor, i: int)
    requires
        0 <= i <= first_free(t, i) < t.len(),
        s.state != ShardState::Free,
    ensures
        first_free(t.update(first_free(t, i), s), i) == first_free(t, first_free(t, i) + 1),
    decreases t.len() - i,
{
    let id = first_free(t, i);
    let t2 = t.update(id, s);
    if t[i].state == ShardState::Free {
        assert(t2[i] == s);
        lemma_first_free_same(t, t2, i + 1);
    } else {
        lemma_first_free_bound(t, i + 1);
        lemma_first_free_next(t, s, i + 1);
        assert(t2[i] == t[i]);
    }
}

proof fn lemma_first_free_bound(t: Seq<ShardDescriptor>, i: int)
    ensures
        first_free(t, i) >= i,
    decreases t.len() - i,
{
    if i < t.len() && t[i].state != ShardState::Free {
        lemma_first_free_bound(t, i + 1);
    }
}

proof fn lemma_first_free_same(t: Seq<ShardDescriptor>, t2: Seq<ShardDescriptor>, i: int)
    requires
        t2.len() == t.len(),
        0 <= i,
        forall|k: int| i <= k < t.len() ==> #[trigger] t2[k] == t[k],
    ensures
        first_free(t2, i) == first_free(t, i),
    decreases t.len() - i,
{
    if i < t.len() {
        assert(t2[i] == t[i]);
        lemma_first_free_same(t, t2, i + 1);
    }
}

/// Create a shard: its code is loaded at [`SHARD_CODE_VADDR`] for reading and executing, its
/// stack page lies below [`SHARD_INITIAL_RSP`] for reading and writing. The result is the
/// shard's number.
///
/// There is no result, and nothing changes, where no slot is free, the code takes more
/// pages than a shard can have, or there are not enough frames.
pub fn create(
    table: &mut ShardTable,
    fa: &mut FrameAllocator,
    mem: &mut Memory,
    sup_pml4: u64,
    code: &[u8],
    priority: Priority,
    kernel_stack_top: u64,
) -> (r: Option<usize>)
    requires
        old(table).wf(),
        old(fa).wf(),
        old(fa)@.within(old(mem)@.len()),
        isolated(old(table)@, old(mem)@, old(fa)@),
        frame_ok(old(mem)@, sup_pml4),
        !old(fa)@.avail(sup_pml4),
    ensures
        final(table).wf(),
        final(fa).wf(),
        final(fa)@.within(final(mem)@.len()),
        isolated(final(table)@, final(mem)@, final(fa)@),
        final(table).current == old(table).current,
        r is Some <==> first_free(old(table)@, 0) < MAX_SHARDS && code_pages(code@.len() as int) + 2
            <= MAX_SHARD_FRAMES && old(fa)@.capacity() >= frames_needed(
            code_pages(code@.len() as int),
        ),
        match r {
            None => final(table)@ == old(table)@ && final(mem)@ == old(mem)@ && final(fa)@ == old(
                fa,
            )@,
            Some(id) => {
                let s = final(table)@[id as int];
                let pages = code_pages(code@.len() as int);
                &&& id == first_free(old(table)@, 0)
                &&& final(table)@ == old(table)@.update(id as int, s)
                &&& s.state == ShardState::Ready
                &&& s.priority == priority
                &&& s.kernel_stack_top == kernel_stack_top
                &&& s.fresh()
                &&& s.frame_count == pages + 2
                &&& s.pml4_phys == s.frames()[0]
                &&& space_made(
                    old(mem)@,
                    final(mem)@,
                    old(fa)@,
                    final(fa)@,
                    s.frames(),
                    sup_pml4,
                )
                &&& forall|j: int|
                    1 <= j <= pages ==> bytes_at(
                        final(mem)@,
                        (#[trigger] s.frames()[j]) as int,
                        4096,
                    ) == page_of(code@, j - 1)
                &&& is_zero_page(final(mem)@, s.frames()[pages + 1])
                &&& forall|x: u64|
                    in_half(x, 0, 256) ==> #[trigger] leaf(final(mem)@, s.pml4_phys, x)
                        == shard_leaf(s.frames(), pages, x)
                &&& shard_tables(final(mem)@, s.pml4_phys)
                &&& ways_open(final(mem)@, s.pml4_phys, 0, 256, PARENT_FLAGS)
                &&& final(fa)@.capacity() == old(fa)@.capacity() - frames_needed(pages)
            },
        },
{
    let ghost m0 = mem@;
    let ghost v0 = fa@;
    let ghost t0 = table@;
    let id: usize = find_free(table, 0);
    let pages: usize = count_code_pages(code.len());
    if id >= MAX_SHARDS || pages > MAX_SHARD_FRAMES - 2 {
        return None;
    }
    let needed: u64 = pages as u64 + 6;
    if !has_frames(fa, needed) {
        return None;
    }
    let (frames, frame_count) = build_space(fa, mem, sup_pml4, code);
    let mut s = ShardDescriptor::empty();
    s.state = ShardState::Ready;
    s.priority = priority;
    s.pml4_phys = frames[0];
    s.allocated_frames = frames;
    s.frame_count = frame_count;
    s.kernel_stack_top = kernel_stack_top;
    table.shards[id] = s;
    proof {
        assert(s.frames() == frames@.take(frame_count as int));
        assert(table@ =~= t0.update(id as int, s));
        lemma_isolated_made(t0, m0, mem@, v0, fa@, id as int, s, sup_pml4);
        assert(space_wf(mem@, fa@, s.frames())) by {
            reveal(space_made);
        }
        lemma_space_tables(mem@, fa@, s.frames());
    }
    Some(id)
}

/// What the supervisor keeps of a shard beside its memory does not matter to isolation.
pub proof fn lemma_isolated_same(
    t: Seq<ShardDescriptor>,
    t2: Seq<ShardDescriptor>,
    m: Seq<u64>,
    v: FrameView,
)
    requires
        isolated(t, m, v),
        t2.len() == t.len(),
        forall|i: int|
            0 <= i < t.len() ==> (#[trigger] t2[i]).live() == t[i].live() && t2[i].frames()
                == t[i].frames() && t2[i].frame_count == t[i].frame_count && t2[i].pml4_phys
                == t[i].pml4_phys,
    ensures
        isolated(t2, m, v),
{
    reveal(isolated);
    assert forall|i: int| 0 <= i < t2.len() && (#[trigger] t2[i]).live() implies shard_wf(
        t2[i],
        m,
        v,
    ) by {
        assert(shard_wf(t[i], m, v));
    }
    assert forall|i: int, j: int|
        0 <= i < t2.len() && 0 <= j < t2.len() && i != j && (#[trigger] t2[i]).live() && (
        #[trigger] t2[j]).live() implies claimed(m, t2[i].frames()).disjoint(
        claimed(m, t2[j].frames()),
    ) by {
        assert(t[i].live() && t[j].live());
    }
}

/// A new address space made of free frames leaves the others as they are.
pub proof fn lemma_isolated_made(
    t: Seq<ShardDescriptor>,
    m: Seq<u64>,
    m2: Seq<u64>,
    v: FrameView,
    v2: FrameView,
    id: int,
    s: ShardDescriptor,
    sup: u64,
)
    requires
        isolated(t, m, v),
        0 <= id < t.len(),
        !t[id].live(),
        1 <= s.frame_count <= MAX_SHARD_FRAMES,
        s.pml4_phys == s.frames()[0],
        space_made(m, m2, v, v2, s.frames(), sup),
    ensures
        isolated(t.update(id, s), m2, v2),
        forall|i: int|
            0 <= i < t.len() && (#[trigger] t[i]).live() ==> claimed(m2, t[i].frames()) == claimed(
                m,
                t[i].frames(),
            ) && same_leaves(m, m2, t[i].pml4_phys, 0, 256),
{
    let t2 = t.update(id, s);
    assert forall|i: int| 0 <= i < t.len() && (#[trigger] t[i]).live() implies space_wf(
        m2,
        v2,
        t[i].frames(),
    ) && claimed(m2, t[i].frames()) == claimed(m, t[i].frames()) && same_leaves(
        m,
        m2,
        t[i].pml4_phys,
        0,
        256,
    ) by {
        let f = t[i].frames();
        assert(shard_wf(t[i], m, v)) by {
            reveal(isolated);
        }
        lemma_claimed(m, v, f);
        assert(m2.len() == m.len()) by {
            reveal(space_made);
        }
        assert forall|x: u64| #[trigger] claimed(m, f).contains(x) implies same_frame(m, m2, x)
            && !v2.avail(x) && v2.owns(x) by {
            reveal(space_made);
            assert forall|w: int| in_frame(w, x) implies #[trigger] m2[w] == m[w] by {
                lemma_free_frame_apart(m, v, x, w);
            }
        }
        lemma_space_kept(m, m2, v, v2, f);
    }
    reveal(isolated);
    assert(space_wf(m2, v2, s.frames())) by {
        reveal(space_made);
    }
    assert forall|i: int| 0 <= i < t2.len() && (#[trigger] t2[i]).live() implies shard_wf(
        t2[i],
        m2,
        v2,
    ) by {
        if i != id {
            assert(t2[i] == t[i]);
            assert(shard_wf(t[i], m, v));
        }
    }
    assert forall|i: int, j: int|
        0 <= i < t2.len() && 0 <= j < t2.len() && i != j && (#[trigger] t2[i]).live() && (
        #[trigger] t2[j]).live() implies claimed(m2, t2[i].frames()).disjoint(
        claimed(m2, t2[j].frames()),
    ) by {
        if i != id && j != id {
            assert(t2[i] == t[i] && t2[j] == t[j]);
        } else {
            let k = if i == id {
                j
            } else {
                i
            };
            assert(t2[k] == t[k] && t2[id] == s);
            lemma_claimed(m, v, t[k].frames());
            reveal(space_made);
            assert forall|x: u64|
                !(claimed(m2, s.frames()).contains(x) && claimed(m2, t[k].frames()).contains(x)) by {}
        }
    }
}

/// An address space that grows leaves the others as they are.
pub proof fn lemma_isolated_grown(
    t: Seq<ShardDescriptor>,
    m: Seq<u64>,
    m2: Seq<u64>,
    v: FrameView,
    v2: FrameView,
    id: int,
    s: ShardDescriptor,
)
    requires
        isolated(t, m, v),
        0 <= id < t.len(),
        t[id].live(),
        1 <= s.frame_count <= MAX_SHARD_FRAMES,
        s.pml4_phys == t[id].pml4_phys,
        space_grown(m, m2, v, v2, t[id].frames(), s.frames()),
    ensures
        isolated(t.update(id, s), m2, v2),
        forall|i: int|
            0 <= i < t.len() && i != id && (#[trigger] t[i]).live() ==> claimed(m2, t[i].frames())
                == claimed(m, t[i].frames()) && same_leaves(m, m2, t[i].pml4_phys, 0, 256),
{
    let t2 = t.update(id, s);
    let mine = claimed(m, t[id].frames());
    assert(shard_wf(t[id], m, v)) by {
        reveal(isolated);
    }
    lemma_claimed(m, v, t[id].frames());
    assert forall|i: int| 0 <= i < t.len() && i != id && (#[trigger] t[i]).live() implies space_wf(
        m2,
        v2,
        t[i].frames(),
    ) && claimed(m2, t[i].frames()) == claimed(m, t[i].frames()) && same_leaves(
        m,
        m2,
        t[i].pml4_phys,
        0,
        256,
    ) by {
        let f = t[i].frames();
        assert(shard_wf(t[i], m, v) && claimed(m, f).disjoint(mine)) by {
            reveal(isolated);
        }
        lemma_claimed(m, v, f);
        assert(m2.len() == m.len()) by {
            reveal(space_grown);
        }
        assert forall|x: u64| #[trigger] claimed(m, f).contains(x) implies same_frame(m, m2, x)
            && !v2.avail(x) && v2.owns(x) by {
            reveal(space_grown);
            assert forall|w: int| in_frame(w, x) implies #[trigger] m2[w] == m[w] by {
                lemma_free_frame_apart(m, v, x, w);
                if in_frames(mine, w) {
                    let y = choose|y: u64| mine.contains(y) && #[trigger] in_frame(w, y);
                    lemma_frames_apart(m, x, y, w);
                }
            }
        }
        lemma_space_kept(m, m2, v, v2, f);
    }
    reveal(isolated);
    assert(space_wf(m2, v2, s.frames()) && s.pml4_phys == s.frames()[0]) by {
        reveal(space_grown);
        let n = t[id].frames().len() as int;
        assert(s.frames().take(n)[0] == t[id].frames()[0]);
    }
    assert forall|i: int| 0 <= i < t2.len() && (#[trigger] t2[i]).live() implies shard_wf(
        t2[i],
        m2,
        v2,
    ) by {
        if i != id {
            assert(t2[i] == t[i]);
            assert(shard_wf(t[i], m, v));
        }
    }
    assert forall|i: int, j: int|
        0 <= i < t2.len() && 0 <= j < t2.len() && i != j && (#[trigger] t2[i]).live() && (
        #[trigger] t2[j]).live() implies claimed(m2, t2[i].frames()).disjoint(
        claimed(m2, t2[j].frames()),
    ) by {
        if i != id && j != id {
            assert(t2[i] == t[i] && t2[j] == t[j]);
        } else {
            let k = if i == id {
                j
            } else {
                i
            };
            assert(t2[k] == t[k] && t2[id] == s);
            assert(claimed(m, t[k].frames()).disjoint(mine));
            lemma_claimed(m, v, t[k].frames());
            reveal(space_grown);
            assert forall|x: u64|
                !(claimed(m2, s.frames()).contains(x) && claimed(m2, t[k].frames()).contains(x)) by {}
        }
    }
}

/// The number of the current shard.
pub fn current_shard(table: &ShardTable) -> (r: Option<usize>)
    ensures
        r == table.current,
{
    table.current
}

/// The current shard exits: it keeps its memory until it is destroyed, and no shard is
/// current.
pub fn handle_sys_exit(table: &mut ShardTable, exit_code: u64)
    requires
        old(table).wf(),
        old(table).current is Some,
    ensures
        final(table).wf(),
        final(table).current is None,
        ({
            let id = old(table).current->0 as int;
            final(table)@ == old(table)@.update(
                id,
                (ShardDescriptor { state: ShardState::Exited, exit_code, ..old(table)@[id] }),
            )
        }),
{
    if let Some(id) = table.current {
        table.shards[id].exit_code = exit_code;
        table.shards[id].state = ShardState::Exited;
        table.current = None;
    }
}

/// Destroy a shard: zero all of its memory, give back its frames and page tables, and clear
/// its capabilities.
pub fn destroy(table: &mut ShardTable, fa: &mut FrameAllocator, mem: &mut Memory, id: usize)
    requires
        old(table).wf(),
        old(fa).wf(),
        old(fa)@.within(old(mem)@.len()),
        isolated(old(table)@, old(mem)@, old(fa)@),
        id < MAX_SHARDS,
        old(table)@[id as int].state == ShardState::Exited,
    ensures
        final(table).wf(),
        final(fa).wf(),
        final(fa)@.within(final(mem)@.len()),
        isolated(final(table)@, final(mem)@, final(fa)@),
        final(table).current == old(table).current,
        final(table)@ == old(table)@.update(id as int, final(table)@[id as int]),
        ({
            let s = old(table)@[id as int];
            let s2 = final(table)@[id as int];
            &&& s2 == (ShardDescriptor {
                state: ShardState::Destroyed,
                pml4_phys: 0,
                frame_count: 0,
                caps: s2.caps,
                ..s
            })
            &&& forall|i: int|
                0 <= i < MAX_CAPS_PER_SHARD ==> #[trigger] s2.caps@[i] == CapEntry::spec_empty()
        }),
        released(
            old(mem)@,
            final(mem)@,
            old(fa)@,
            final(fa)@,
            claimed(old(mem)@, old(table)@[id as int].frames()),
        ),
        forall|i: int|
            0 <= i < MAX_SHARDS && i != id && (#[trigger] old(table)@[i]).live() ==> claimed(
                final(mem)@,
                old(table)@[i].frames(),
            ) == claimed(old(mem)@, old(table)@[i].frames()),
{
    let ghost m0 = mem@;
    let ghost v0 = fa@;
    let ghost t0 = table@;
    let frames = table.shards[id].allocated_frames;
    let count: usize = table.shards[id].frame_count;
    proof {
        reveal(isolated);
        assert(t0[id as int].live());
    }
    release_space(fa, mem, frames.as_slice(), count);
    table.shards[id].caps = [CapEntry::empty();MAX_CAPS_PER_SHARD];
    table.shards[id].state = ShardState::Destroyed;
    table.shards[id].pml4_phys = 0;
    table.shards[id].frame_count = 0;
    proof {
        assert(table@ =~= t0.update(id as int, table@[id as int]));
        lemma_isolated_released(t0, m0, mem@, v0, fa@, id as int, table@[id as int]);
        reveal(released);
        reveal(cleared);
    }
}

/// Giving back the frames of one shard leaves the others as they are.
pub proof fn lemma_isolated_released(
    t: Seq<ShardDescriptor>,
    m: Seq<u64>,
    m2: Seq<u64>,
    v: FrameView,
    v2: FrameView,
    id: int,
    s: ShardDescriptor,
)
    requires
        isolated(t, m, v),
        0 <= id < t.len(),
        t[id].live(),
        !s.live(),
        released(m, m2, v, v2, claimed(m, t[id].frames())),
    ensures
        isolated(t.update(id, s), m2, v2),
        forall|i: int|
            0 <= i < t.len() && i != id && (#[trigger] t[i]).live() ==> claimed(m2, t[i].frames())
                == claimed(m, t[i].frames()) && same_leaves(m, m2, t[i].pml4_phys, 0, 256),
{
    let t2 = t.update(id, s);
    let gone = claimed(m, t[id].frames());
    assert(space_wf(m, v, t[id].frames())) by {
        reveal(isolated);
    }
    lemma_claimed(m, v, t[id].frames());
    assert forall|i: int| 0 <= i < t.len() && i != id && (#[trigger] t[i]).live() implies space_wf(
        m2,
        v2,
        t[i].frames(),
    ) && claimed(m2, t[i].frames()) == claimed(m, t[i].frames()) && same_leaves(
        m,
        m2,
        t[i].pml4_phys,
        0,
        256,
    ) by {
        let f = t[i].frames();
        assert(shard_wf(t[i], m, v) && claimed(m, f).disjoint(gone)) by {
            reveal(isolated);
        }
        lemma_claimed(m, v, f);
        assert(m2 == cleared(m, gone)) by {
            reveal(released);
        }
        assert(m2.len() == m.len()) by {
            reveal(cleared);
        }
        assert forall|x: u64| #[trigger] claimed(m, f).contains(x) implies same_frame(m, m2, x)
            && !v2.avail(x) && v2.owns(x) by {
            assert(!gone.contains(x));
            lemma_cleared_other(m, gone, x);
            reveal(released);
        }
        lemma_space_kept(m, m2, v, v2, f);
    }
    reveal(isolated);
    assert forall|i: int| 0 <= i < t2.len() && (#[trigger] t2[i]).live() implies shard_wf(
        t2[i],
        m2,
        v2,
    ) by {
        assert(i != id);
        assert(t2[i] == t[i]);
        assert(shard_wf(t[i], m, v));
    }
    assert forall|i: int, j: int|
        0 <= i < t2.len() && 0 <= j < t2.len() && i != j && (#[trigger] t2[i]).live() && (
        #[trigger] t2[j]).live() implies claimed(m2, t2[i].frames()).disjoint(
        claimed(m2, t2[j].frames()),
    ) by {
        assert(i != id && j != id);
        assert(t2[i] == t[i] && t2[j] == t[j]);
    }
}

// ---------------------------------------------------------------------------
// Laws
// ---------------------------------------------------------------------------

/// Spatial isolation: two shards share no page table and no frame.
pub proof fn law_spatial_isolation(
    t: Seq<ShardDescriptor>,
    m: Seq<u64>,
    v: FrameView,
    i: int,
    j: int,
    frame: u64,
)
    requires
        isolated(t, m, v),
        0 <= i < t.len(),
        0 <= j < t.len(),
        i != j,
        t[i].live(),
        t[j].live(),
    ensures
        !(claimed(m, t[i].frames()).contains(frame) && claimed(m, t[j].frames()).contains(frame)),
        claimed(m, t[i].frames()).contains(frame) ==> !v.avail(frame),
{
    reveal(isolated);
    assert(shard_wf(t[i], m, v));
    lemma_claimed(m, v, t[i].frames());
}

/// Whether `frame` is one of the frames of an address space that hold its data: any but the
/// root table.
pub open spec fn data_frame(frames: Seq<u64>, frame: u64) -> bool {
    exists|i: int| 1 <= i < frames.len() && #[trigger] frames[i] == frame
}

/// Every page that a new shard can reach lies in a data frame of its own, and none of them
/// is both writable and executable.
pub proof fn law_new_shard_pages(m: Seq<u64>, v: FrameView, s: ShardDescriptor, pages: int)
    requires
        v.wf(),
        shard_wf(s, m, v),
        0 <= pages,
        s.frame_count == pages + 2,
        forall|x: u64|
            in_half(x, 0, 256) ==> #[trigger] leaf(m, s.pml4_phys, x) == shard_leaf(
                s.frames(),
                pages,
                x,
            ),
    ensures
        forall|x: u64|
            in_half(x, 0, 256) ==> (#[trigger] leaf(m, s.pml4_phys, x) matches Leaf::Page4K(e)
                ==> data_frame(s.frames(), pte_addr(e)) && !(writable(e) && executable(e))),
        forall|x: u64| in_half(x, 0, 256) ==> !(#[trigger] leaf(m, s.pml4_phys, x) is Page2M),
{
    let f = s.frames();
    lemma_shard_flags();
    assert forall|x: u64| in_half(x, 0, 256) implies (#[trigger] leaf(m, s.pml4_phys, x) matches Leaf::Page4K(e)
        ==> data_frame(f, pte_addr(e)) && !(writable(e) && executable(e))) by {
        let p = indices(x);
        if leaf(m, s.pml4_phys, x) is Page4K {
            if p == indices(SHARD_STACK_VADDR) {
                lemma_own_frame(m, v, f, pages + 1, STACK_FLAGS);
            } else {
                lemma_own_frame(m, v, f, p[3], CODE_FLAGS);
            }
        }
    }
}

/// An entry for a frame of the address space leads to that frame, with the given flags.
pub proof fn lemma_own_frame(m: Seq<u64>, v: FrameView, f: Seq<u64>, i: int, flags: u64)
    requires
        v.wf(),
        space_wf(m, v, f),
        0 <= i < f.len(),
        flags & PTE_ADDR_MASK == 0,
    ensures
        pte_addr(pte_value(f[i], flags | PTE_PRESENT)) == f[i],
        writable(pte_value(f[i], flags | PTE_PRESENT)) == writable(flags),
        executable(pte_value(f[i], flags | PTE_PRESENT)) == executable(flags),
{
    reveal(space_wf);
    v.lemma_owns_bound(f[i]);
    lemma_addr_fits(f[i]);
    lemma_present_flag(flags);
    law_entry_round_trip(f[i], flags | PTE_PRESENT);
    lemma_entry_bits(f[i], flags);
    assert(f[i] == pte_addr(pte_value(f[i], flags | PTE_PRESENT)));
}

/// Temporal isolation: once a shard is destroyed, every word of its frames is zero and the
/// frames are free, for whoever is given them next.
pub proof fn law_temporal_isolation(
    m: Seq<u64>,
    m2: Seq<u64>,
    v: FrameView,
    v2: FrameView,
    frames: Seq<u64>,
    frame: u64,
)
    requires
        space_wf(m, v, frames),
        released(m, m2, v, v2, claimed(m, frames)),
        claimed(m, frames).contains(frame),
    ensures
        v2.avail(frame),
        is_zero_frame(m2, frame),
{
    reveal(released);
    lemma_claimed(m, v, frames);
    assert forall|w: int| in_frame(w, frame) implies #[trigger] m2[w] == 0 by {
        reveal(cleared);
        assert(claimed(m, frames).contains(frame));
    }
}

/// Destroying a shard right after creating it leaves exactly the frames free that were free
/// before, and every word outside those frames as it was.
pub proof fn law_create_then_destroy(
    m: Seq<u64>,
    m1: Seq<u64>,
    m2: Seq<u64>,
    v: FrameView,
    v1: FrameView,
    v2: FrameView,
    frames: Seq<u64>,
    sup: u64,
)
    requires
        space_made(m, m1, v, v1, frames, sup),
        released(m1, m2, v1, v2, claimed(m1, frames)),
    ensures
        forall|t: u64| #[trigger] v2.avail(t) == v.avail(t),
        forall|w: int| 0 <= w < m.len() ==> #[trigger] m2[w] == m[w] || in_free_frame(v, w),
{
    reveal(space_made);
    reveal(released);
    assert forall|w: int| 0 <= w < m.len() implies #[trigger] m2[w] == m[w] || in_free_frame(
        v,
        w,
    ) by {
        assert(m2 == cleared(m1, claimed(m1, frames)));
        reveal(cleared);
        if in_frames(claimed(m1, frames), w) {
            let t = choose|t: u64| claimed(m1, frames).contains(t) && #[trigger] in_frame(w, t);
            reveal(in_free_frame);
            assert(v.avail(t));
        } else {
            assert(m2[w] == m1[w]);
            assert(m1[w] == m[w] || in_free_frame(v, w));
        }
    }
}

} // verus!
