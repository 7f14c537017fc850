//! Data pages that a shard asks for.
//!
//! The pages lie from [`DATA_START`] on, without gaps, and are readable and writable but
//! not executable.

use vstd::prelude::*;

use crate::frame::{has_frames, FrameAllocator, FrameView};
use crate::links::ways_open;
use crate::mem::{frame_ok, page_of, Memory};
use crate::shard::{is_zero_page, isolated, lemma_isolated_grown, lemma_shard_flags, shard_wf};
use crate::shard::{ShardDescriptor, ShardTable, MAX_SHARD_FRAMES, SHARD_STACK_VADDR, STACK_FLAGS};
use crate::space::{add_page, lemma_grown_none, lemma_grown_twice, lemma_same_bytes};
use crate::space::{lemma_space_tables, page_mapped, same_frame, space_grown, space_wf};
use crate::vmm::{executable, half_hi, half_lo, in_half, indices, leaf, lemma_entry_bits, on_way};
use crate::vmm::{path_ok, pte_value, table_at, translate, tree_wf, writable, Leaf, PAGE_4K};
use crate::vmm::{PARENT_FLAGS, PTE_PRESENT};
use crate::window::{apart, count_window, lemma_low_indices, lemma_one_gib, lemma_window_count};
use crate::window::{lemma_window_indices, lemma_window_missing_bound, no_huge, one_gib, page};
use crate::window::{window_missing, window_tables};

verus! {

/// Where data pages start.
pub const DATA_START: u64 = 0x10_0000;

/// Whether the shard may have `n` data pages from `va` on: they lie between [`DATA_START`]
/// and the stack, follow the data pages before them, are not mapped yet, and there are
/// frames for them.
pub open spec fn mmap_ok(
    s: ShardDescriptor,
    m: Seq<u64>,
    v: FrameView,
    va: u64,
    n: u64,
) -> bool {
    &&& va % PAGE_4K == 0
    &&& n > 0
    &&& DATA_START <= va
    &&& va + n * PAGE_4K <= SHARD_STACK_VADDR
    &&& s.frame_count + n <= MAX_SHARD_FRAMES
    &&& va == DATA_START || leaf(m, s.pml4_phys, (va - PAGE_4K) as u64) is Page4K
    &&& forall|j: int| 0 <= j < n ==> (#[trigger] leaf(m, s.pml4_phys, page(va, j))) is Unmapped
    &&& v.capacity() >= n + window_missing(m, s.pml4_phys, va, n as int)
}

/// The pages from `va` on are mapped to the frames from number `fc` on, which hold zeros,
/// and every other page is mapped as before.
#[verifier::opaque]
pub open spec fn data_mapped(
    m: Seq<u64>,
    m2: Seq<u64>,
    root: u64,
    frames: Seq<u64>,
    fc: int,
    va: u64,
    n: int,
) -> bool {
    &&& forall|j: int|
        0 <= j < n ==> #[trigger] leaf(m2, root, page(va, j)) == Leaf::Page4K(
            pte_value(frames[fc + j], STACK_FLAGS | PTE_PRESENT),
        )
    &&& forall|i: int| fc <= i < fc + n ==> is_zero_page(m2, #[trigger] frames[i])
    &&& forall|x: u64|
        in_half(x, 0, 256) && apart(x, va, n) ==> #[trigger] leaf(m2, root, x) == leaf(m, root, x)
}

/// One more page.
proof fn lemma_data_step(
    m0: Seq<u64>,
    m: Seq<u64>,
    m2: Seq<u64>,
    v0: FrameView,
    v: FrameView,
    v2: FrameView,
    f0: Seq<u64>,
    f: Seq<u64>,
    p: u64,
    va: u64,
    k: int,
)
    requires
        0 <= k,
        one_gib(va, k + 1),
        va < 0x4000_0000,
        f.len() == f0.len() + k,
        space_grown(m0, m, v0, v, f0, f),
        space_grown(m, m2, v, v2, f, f.push(p)),
        page_mapped(m, m2, f0[0], page(va, k), pte_value(p, STACK_FLAGS | PTE_PRESENT)),
        is_zero_page(m2, p),
        data_mapped(m0, m, f0[0], f, f0.len() as int, va, k),
        window_tables(m0, m, f0[0], va, k),
        f0.len() >= 1,
    ensures
        space_grown(m0, m2, v0, v2, f0, f.push(p)),
        data_mapped(m0, m2, f0[0], f.push(p), f0.len() as int, va, k + 1),
        window_tables(m0, m2, f0[0], va, k + 1),
{
    let root = f0[0];
    let more = f.push(p);
    let fc = f0.len() as int;
    let x = page(va, k);
    lemma_grown_twice(m0, m, m2, v0, v, v2, f0, f, more);
    lemma_window_count(m0, m, root, va, k);
    lemma_one_gib(va, k + 1, k);
    lemma_low_indices(x);
    assert(data_mapped(m0, m2, root, more, fc, va, k + 1)) by {
        reveal(data_mapped);
        reveal(page_mapped);
        assert forall|j: int| 0 <= j < k + 1 implies #[trigger] leaf(m2, root, page(va, j))
            == Leaf::Page4K(pte_value(more[fc + j], STACK_FLAGS | PTE_PRESENT)) by {
            if j < k {
                lemma_one_gib(va, k + 1, j);
                lemma_low_indices(page(va, j));
                assert(indices(x) != indices(page(va, j)));
                assert(more[fc + j] == f[fc + j]);
            }
        }
        assert forall|i: int| fc <= i < fc + k + 1 implies is_zero_page(m2, #[trigger] more[i]) by {
            if i < fc + k {
                assert(more[i] == f[i]);
                assert(is_zero_page(m, f[i]));
                assert(same_frame(m, m2, f[i]) && frame_ok(m, f[i])) by {
                    reveal(space_grown);
                    reveal(space_wf);
                }
                lemma_same_bytes(m, m2, f[i]);
            }
        }
        assert forall|y: u64| in_half(y, 0, 256) && apart(y, va, k + 1) implies #[trigger] leaf(
            m2,
            root,
            y,
        ) == leaf(m0, root, y) by {
            assert(indices(y) != indices(page(va, k)));
            assert(apart(y, va, k));
            assert(leaf(m, root, y) == leaf(m0, root, y));
        }
    }
    assert(window_tables(m0, m2, root, va, k + 1)) by {
        reveal(window_tables);
        reveal(page_mapped);
        lemma_low_indices(va);
        assert forall|q: Seq<int>|
            path_ok(q, half_lo(va), half_hi(va)) && (forall|j: int|
                0 <= j < k + 1 ==> !on_way(q, #[trigger] page(va, j), 3)) implies #[trigger] table_at(
            m2,
            root,
            q,
        ) == table_at(m0, root, q) by {
            assert(!on_way(q, page(va, k), 3));
            assert(table_at(m2, root, q) == table_at(m, root, q));
        }
        assert forall|l: int| 0 <= l <= 3 implies #[trigger] table_at(
            m2,
            root,
            indices(page(va, k)).take(l),
        ) is Some by {
            if l == 0 {
                reveal_with_fuel(table_at, 1);
                assert(indices(x).take(0).len() == 0);
            }
        }
    }
}

/// Whether none of the pages is mapped.
fn all_unmapped(mem: &Memory, root: u64, va: u64, n: u64) -> (r: bool)
    requires
        va < 0x4000_0000,
        one_gib(va, n as int),
        tree_wf(mem@, root, 0, 256),
    ensures
        r == forall|j: int| 0 <= j < n ==> (#[trigger] leaf(mem@, root, page(va, j))) is Unmapped,
{
    let mut k: u64 = 0;
    while k < n
        invariant
            k <= n,
            va < 0x4000_0000,
            one_gib(va, n as int),
            tree_wf(mem@, root, 0, 256),
            forall|j: int| 0 <= j < k ==> (#[trigger] leaf(mem@, root, page(va, j))) is Unmapped,
        decreases n - k,
    {
        proof {
            lemma_one_gib(va, n as int, k as int);
            lemma_low_indices(page(va, k as int));
        }
        let x: u64 = va + k * PAGE_4K;
        assert(x == page(va, k as int));
        match translate(mem, root, x) {
            Leaf::Unmapped => {},
            _ => {
                assert(!(leaf(mem@, root, page(va, k as int)) is Unmapped));
                return false;
            },
        }
        k += 1;
    }
    true
}

/// Map data pages into the current shard's address space. `va_start` is the page-aligned
/// address of the first page.
///
/// Returns 0, or `u64::MAX` on error.
pub fn handle_mmap(
    table: &mut ShardTable,
    fa: &mut FrameAllocator,
    mem: &mut Memory,
    va_start: u64,
    num_pages: u64,
) -> (r: u64)
    requires
        old(table).wf(),
        old(table).current is Some,
        old(table)@[old(table).current->0 as int].live(),
        old(fa).wf(),
        old(fa)@.within(old(mem)@.len()),
        isolated(old(table)@, old(mem)@, old(fa)@),
    ensures
        final(table).wf(),
        final(table).current == old(table).current,
        final(fa).wf(),
        final(fa)@.within(final(mem)@.len()),
        isolated(final(table)@, final(mem)@, final(fa)@),
        ({
            let id = old(table).current->0 as int;
            let s = old(table)@[id];
            let s2 = final(table)@[id];
            let ok = mmap_ok(s, old(mem)@, old(fa)@, va_start, num_pages);
            &&& r == (if ok {
                0
            } else {
                u64::MAX
            })
            &&& !ok ==> final(table)@ == old(table)@ && final(mem)@ == old(mem)@ && final(fa)@
                == old(fa)@
            &&& ok ==> {
                &&& final(table)@ == old(table)@.update(id, s2)
                &&& s2 == (ShardDescriptor {
                    allocated_frames: s2.allocated_frames,
                    frame_count: (s.frame_count + num_pages) as usize,
                    ..s
                })
                &&& space_grown(
                    old(mem)@,
                    final(mem)@,
                    old(fa)@,
                    final(fa)@,
                    s.frames(),
                    s2.frames(),
                )
                &&& data_mapped(
                    old(mem)@,
                    final(mem)@,
                    s.pml4_phys,
                    s2.frames(),
                    s.frame_count as int,
                    va_start,
                    num_pages as int,
                )
                &&& ways_open(final(mem)@, s.pml4_phys, 0, 256, PARENT_FLAGS)
                &&& final(fa)@.capacity() == old(fa)@.capacity() - num_pages - window_missing(
                    old(mem)@,
                    s.pml4_phys,
                    va_start,
                    num_pages as int,
                )
            }
        }),
{
    let id: usize = match table.current {
        Some(id) => id,
        None => {
            return u64::MAX;
        },
    };
    let ghost m0 = mem@;
    let ghost v0 = fa@;
    let ghost t0 = table@;
    let ghost s = t0[id as int];
    let root: u64 = table.shards[id].pml4_phys;
    let count: usize = table.shards[id].frame_count;
    proof {
        assert(shard_wf(s, m0, v0)) by {
            reveal(isolated);
        }
        lemma_space_tables(m0, v0, s.frames());
    }
    if va_start % PAGE_4K != 0 || num_pages == 0 || va_start < DATA_START || va_start
        >= SHARD_STACK_VADDR {
        return u64::MAX;
    }
    if num_pages > (MAX_SHARD_FRAMES - count) as u64 {
        return u64::MAX;
    }
    if va_start + num_pages * PAGE_4K > SHARD_STACK_VADDR {
        return u64::MAX;
    }
    if va_start != DATA_START {
        proof {
            lemma_low_indices((va_start - PAGE_4K) as u64);
        }
        match translate(mem, root, va_start - PAGE_4K) {
            Leaf::Page4K(_) => {},
            _ => {
                return u64::MAX;
            },
        }
    }
    if !all_unmapped(mem, root, va_start, num_pages) {
        return u64::MAX;
    }
    proof {
        lemma_low_indices(va_start);
        assert(no_huge(m0, root, va_start, num_pages as int));
    }
    let tables: u64 = count_window(mem, root, va_start, num_pages);
    proof {
        lemma_window_missing_bound(m0, root, va_start, 0, num_pages as int);
    }
    if !has_frames(fa, num_pages + tables) {
        return u64::MAX;
    }
    let frames = map_data(fa, mem, table.shards[id].allocated_frames, count, va_start, num_pages);
    table.shards[id].allocated_frames = frames;
    table.shards[id].frame_count = count + num_pages as usize;
    proof {
        let s2 = table@[id as int];
        assert(s2.frames() =~= frames@.take(count + num_pages));
        assert(table@ =~= t0.update(id as int, s2));
        lemma_isolated_grown(t0, m0, mem@, v0, fa@, id as int, s2);
        assert(shard_wf(s2, mem@, fa@)) by {
            reveal(isolated);
        }
        lemma_space_tables(mem@, fa@, s2.frames());
    }
    0
}

/// Allocate and map data pages. The result is the list of frames with the new ones added.
fn map_data(
    fa: &mut FrameAllocator,
    mem: &mut Memory,
    frames: [u64; MAX_SHARD_FRAMES],
    count: usize,
    va: u64,
    n: u64,
) -> (r: [u64; MAX_SHARD_FRAMES])
    requires
        old(fa).wf(),
        old(fa)@.within(old(mem)@.len()),
        1 <= count,
        count + n <= MAX_SHARD_FRAMES,
        space_wf(old(mem)@, old(fa)@, frames@.take(count as int)),
        va < 0x4000_0000,
        one_gib(va, n as int),
        forall|j: int|
            0 <= j < n ==> (#[trigger] leaf(old(mem)@, frames@[0], page(va, j))) is Unmapped,
        old(fa)@.capacity() >= n + window_missing(old(mem)@, frames@[0], va, n as int),
    ensures
        final(fa).wf(),
        final(fa)@.within(final(mem)@.len()),
        space_grown(
            old(mem)@,
            final(mem)@,
            old(fa)@,
            final(fa)@,
            frames@.take(count as int),
            r@.take(count + n),
        ),
        data_mapped(
            old(mem)@,
            final(mem)@,
            frames@[0],
            r@.take(count + n),
            count as int,
            va,
            n as int,
        ),
        final(fa)@.capacity() == old(fa)@.capacity() - n - window_missing(
            old(mem)@,
            frames@[0],
            va,
            n as int,
        ),
{
    let ghost m0 = mem@;
    let ghost v0 = fa@;
    let ghost f0 = frames@.take(count as int);
    let root: u64 = frames[0];
    let mut all: [u64; MAX_SHARD_FRAMES] = frames;
    let none: [u8; 0] = [];
    let mut k: u64 = 0;
    proof {
        lemma_shard_flags();
        lemma_grown_none(m0, v0, f0);
        assert(all@.take(count + 0) =~= f0);
        assert(data_mapped(m0, m0, root, f0, count as int, va, 0)) by {
            reveal(data_mapped);
        }
        assert(window_tables(m0, m0, root, va, 0)) by {
            reveal(window_tables);
        }
        assert(page_of(none@, 0) =~= Seq::new(4096, |i: int| 0u8));
    }
    while k < n
        invariant
            k <= n,
            1 <= count,
            count + n <= MAX_SHARD_FRAMES,
            va < 0x4000_0000,
            one_gib(va, n as int),
            f0 == frames@.take(count as int),
            f0[0] == root,
            f0.len() == count,
            all@[0] == root,
            fa.wf(),
            fa@.within(mem@.len()),
            forall|j: int| 0 <= j < n ==> (#[trigger] leaf(m0, root, page(va, j))) is Unmapped,
            v0.capacity() >= n + window_missing(m0, root, va, n as int),
            space_grown(m0, mem@, v0, fa@, f0, all@.take(count + k)),
            data_mapped(m0, mem@, root, all@.take(count + k), count as int, va, k as int),
            window_tables(m0, mem@, root, va, k as int),
            fa@.capacity() == v0.capacity() - k - window_missing(m0, root, va, k as int),
            !executable(STACK_FLAGS),
            page_of(none@, 0) == Seq::new(4096, |i: int| 0u8),
        decreases n - k,
    {
        let ghost m = mem@;
        let ghost v = fa@;
        let ghost f = all@.take(count + k);
        proof {
            lemma_one_gib(va, n as int, k as int);
            lemma_low_indices(page(va, k as int));
            lemma_window_count(m0, m, root, va, k as int);
            lemma_window_missing_bound(m0, root, va, k + 1, n as int);
            assert(leaf(m, root, page(va, k as int)) is Unmapped) by {
                reveal(data_mapped);
                assert(leaf(m0, root, page(va, k as int)) is Unmapped);
            }
            assert(space_wf(m, v, f)) by {
                reveal(space_grown);
            }
            assert(f[0] == root);
        }
        let x: u64 = va + k * PAGE_4K;
        assert(x == page(va, k as int));
        let p: u64 = add_page(fa, mem, root, x, none.as_slice(), 0, STACK_FLAGS, Ghost(f));
        all[count + k as usize] = p;
        proof {
            assert(all@.take(count + k + 1) =~= f.push(p));
            lemma_data_step(m0, m, mem@, v0, v, fa@, f0, f, p, va, k as int);
        }
        k += 1;
    }
    all
}

/// A shard cannot leave a gap: where data pages are mapped, the page before them is too.
pub proof fn law_no_gaps(
    s: ShardDescriptor,
    m: Seq<u64>,
    m2: Seq<u64>,
    v: FrameView,
    frames: Seq<u64>,
    va: u64,
    n: u64,
)
    requires
        mmap_ok(s, m, v, va, n),
        data_mapped(m, m2, s.pml4_phys, frames, s.frame_count as int, va, n as int),
        va > DATA_START,
    ensures
        leaf(m2, s.pml4_phys, (va - PAGE_4K) as u64) is Page4K,
        leaf(m2, s.pml4_phys, va) is Page4K,
{
    let x = (va - PAGE_4K) as u64;
    lemma_low_indices(x);
    lemma_low_indices(va);
    assert(apart(x, va, n as int)) by {
        assert forall|j: int| 0 <= j < n implies indices(x) != #[trigger] indices(page(va, j)) by {
            lemma_one_gib(va, n as int, j);
            lemma_window_indices(x, page(va, j));
        }
    }
    reveal(data_mapped);
    assert(page(va, 0) == va);
}

/// Mapping data keeps every page of the shard from being both writable and executable.
pub proof fn law_data_keeps_write_xor_execute(
    m: Seq<u64>,
    m2: Seq<u64>,
    root: u64,
    frames: Seq<u64>,
    fc: int,
    va: u64,
    n: int,
    x: u64,
)
    requires
        data_mapped(m, m2, root, frames, fc, va, n),
        in_half(x, 0, 256),
        leaf(m, root, x) matches Leaf::Page4K(e) ==> !(writable(e) && executable(e)),
    ensures
        leaf(m2, root, x) matches Leaf::Page4K(e) ==> !(writable(e) && executable(e)),
{
    reveal(data_mapped);
    lemma_shard_flags();
    if !apart(x, va, n) {
        let j = choose|j: int| 0 <= j < n && indices(x) == #[trigger] indices(page(va, j));
        assert(leaf(m2, root, x) == leaf(m2, root, page(va, j)));
        lemma_entry_bits(frames[fc + j], STACK_FLAGS);
    }
}

/// The pages by their numbers are the pages by their addresses.
proof fn lemma_pages_unmapped(m: Seq<u64>, root: u64, va: u64, n: u64)
    requires
        va % 4096 == 0,
        va + n * 4096 <= 0x7F_F000,
    ensures
        (forall|j: int| 0 <= j < n ==> (#[trigger] leaf(m, root, page(va, j))) is Unmapped) <==> (
        forall|x: u64|
            va <= x < va + n * 4096 && x % 4096 == 0 ==> (#[trigger] leaf(m, root, x)) is Unmapped),
{
    if forall|x: u64|
        va <= x < va + n * 4096 && x % 4096 == 0 ==> (#[trigger] leaf(m, root, x)) is Unmapped {
        assert forall|j: int| 0 <= j < n implies (#[trigger] leaf(m, root, page(va, j))) is Unmapped by {
            assert(page(va, j) == va + j * 4096);
            assert((va + j * 4096) % 4096 == 0);
        }
    }
    if forall|j: int| 0 <= j < n ==> (#[trigger] leaf(m, root, page(va, j))) is Unmapped {
        assert forall|x: u64| va <= x < va + n * 4096 && x % 4096 == 0 implies (#[trigger] leaf(
            m,
            root,
            x,
        )) is Unmapped by {
            let j = (x - va) / 4096;
            assert(0 <= j < n && va + j * 4096 == x);
            assert(leaf(m, root, page(va, j)) is Unmapped);
        }
    }
}

/// Data pages are given exactly where they start at a page between 0x10_0000 and the stack
/// page at 0x7F_F000, at the first of these or behind a page that is mapped, none of them is
/// mapped yet, the shard has at most 32 frames with them, and there are frames enough.
#[verifier::spinoff_prover]
pub proof fn law_data_where(s: ShardDescriptor, m: Seq<u64>, v: FrameView, va: u64, n: u64)
    ensures
        mmap_ok(s, m, v, va, n) <==> {
            &&& va % 4096 == 0
            &&& n > 0
            &&& 0x10_0000 <= va
            &&& va + n * 4096 <= 0x7F_F000
            &&& s.frame_count + n <= 32
            &&& va > 0x10_0000 ==> leaf(m, s.pml4_phys, (va - 4096) as u64) is Page4K
            &&& forall|x: u64|
                va <= x < va + n * 4096 && x % 4096 == 0 ==> (#[trigger] leaf(
                    m,
                    s.pml4_phys,
                    x,
                )) is Unmapped
            &&& v.capacity() >= n + window_missing(m, s.pml4_phys, va, n as int)
        },
{
    if va % 4096 == 0 && va + n * 4096 <= 0x7F_F000 {
        lemma_pages_unmapped(m, s.pml4_phys, va, n);
    }
}

/// Each new data page is present, writable, for user mode and not executable, leads to a frame
/// of the shard that it has got for it, and holds zeros.
pub proof fn law_data_pages_zero(
    m: Seq<u64>,
    m2: Seq<u64>,
    root: u64,
    frames: Seq<u64>,
    fc: int,
    va: u64,
    n: int,
    j: int,
    k: int,
)
    requires
        data_mapped(m, m2, root, frames, fc, va, n),
        0 <= va + j * 4096 <= u64::MAX,
        0 <= j < n,
        0 <= k < 4096,
    ensures
        leaf(m2, root, (va + j * 4096) as u64) == Leaf::Page4K(
            (frames[fc + j] & 0x000F_FFFF_FFFF_F000) | 0x8000_0000_0000_0007,
        ),
        crate::mem::byte_at(m2, frames[fc + j] + k) == 0,
{
    reveal(data_mapped);
    assert(0x8000_0000_0000_0006u64 | 1 == 0x8000_0000_0000_0007) by (bit_vector);
    assert(leaf(m2, root, page(va, j)) == Leaf::Page4K(
        pte_value(frames[fc + j], STACK_FLAGS | PTE_PRESENT),
    ));
    assert(is_zero_page(m2, frames[fc + j]));
    let b = crate::mem::bytes_at(m2, frames[fc + j] as int, 4096);
    assert(b[k] == 0);
}

} // verus!
