//! What a GPU shard does with its video memory: the configuration page, a bump allocator, a
//! command ring, and a matrix product.
//!
//! The state of the allocator and of the ring lies in video memory itself, which is passed
//! to each operation.

use vstd::prelude::*;

use crate::bytes::{law_put_then_read, le32, le64, put, read_u32_le, read_u64_le, write_u32_le};
use crate::gpu::GpuPartition;
use crate::hal::{config_page, GPU_CONFIG_MAGIC};

verus! {

// ---------------------------------------------------------------------------
// Configuration page
// ---------------------------------------------------------------------------

/// What the configuration page says of the partition.
#[derive(Debug, Clone, Copy, PartialEq, Eq, Structural)]
pub struct GpuConfig {
    pub partition_id: u32,
    pub vram_size: u64,
    pub cu_count: u32,
    pub vram_vaddr: u64,
    pub mmio_vaddr: u64,
}

/// What the page says.
pub open spec fn config_of(page: Seq<u8>) -> GpuConfig {
    GpuConfig {
        partition_id: le32(page, 4) as u32,
        vram_size: le64(page, 8) as u64,
        cu_count: le32(page, 0x10) as u32,
        vram_vaddr: le64(page, 0x18) as u64,
        mmio_vaddr: le64(page, 0x20) as u64,
    }
}

impl GpuConfig {
    /// Read and validate the configuration page. There is no result where its first word is
    /// not [`GPU_CONFIG_MAGIC`].
    pub fn read(page: &[u8]) -> (r: Option<GpuConfig>)
        requires
            page@.len() >= 0x28,
        ensures
            r == (if le32(page@, 0) == GPU_CONFIG_MAGIC {
                Some(config_of(page@))
            } else {
                None
            }),
    {
        if read_u32_le(page, 0) != GPU_CONFIG_MAGIC {
            return None;
        }
        Some(
            GpuConfig {
                partition_id: read_u32_le(page, 4),
                vram_size: read_u64_le(page, 8),
                cu_count: read_u32_le(page, 0x10),
                vram_vaddr: read_u64_le(page, 0x18),
                mmio_vaddr: read_u64_le(page, 0x20),
            },
        )
    }
}

/// A shard reads from its configuration page what the supervisor wrote there.
pub proof fn law_config_round_trip(
    page: Seq<u8>,
    p: GpuPartition,
    vram_vaddr: u64,
    mmio_vaddr: u64,
)
    requires
        config_page(page, p, vram_vaddr, mmio_vaddr),
    ensures
        le32(page, 0) == GPU_CONFIG_MAGIC,
        config_of(page) == (GpuConfig {
            partition_id: p.id,
            vram_size: p.vram_size,
            cu_count: p.cu_count,
            vram_vaddr,
            mmio_vaddr,
        }),
{
    reveal(config_page);
}

// ---------------------------------------------------------------------------
// Allocator
// ---------------------------------------------------------------------------

/// The first word of the allocator, "VALL".
pub const ALLOC_MAGIC: u32 = 0x5641_4C4C;

/// Where the table of allocations starts, and the size of its entries: type, offset, size
/// and a reserved word.
pub const ALLOC_TABLE_OFFSET: usize = 0x10;

pub const ALLOC_ENTRY_SIZE: usize = 16;

pub const MAX_ALLOC_ENTRIES: u32 = 255;

/// Allocations start at multiples of this, the size of a cache line.
pub const ALLOC_ALIGNMENT: u32 = 64;

/// Size of the page that holds the allocator itself.
pub const ALLOC_PAGE: u32 = 0x1000;

/// An allocation.
#[derive(Debug, Clone, Copy, PartialEq, Eq, Structural)]
pub struct Allocation {
    pub alloc_type: u32,
    pub offset: u32,
    pub size: u32,
}

/// Number of allocations so far.
pub open spec fn count_of(v: Seq<u8>) -> int {
    le32(v, 4)
}

/// Where free memory starts.
pub open spec fn next_of(v: Seq<u8>) -> int {
    le32(v, 8)
}

/// Where memory ends.
pub open spec fn total_of(v: Seq<u8>) -> int {
    le32(v, 12)
}

/// Where entry number `i` of the table lies.
pub open spec fn entry_at(i: int) -> int {
    ALLOC_TABLE_OFFSET + ALLOC_ENTRY_SIZE * i
}

/// Entry number `i` of the table.
pub open spec fn allocation(v: Seq<u8>, i: int) -> Allocation {
    Allocation {
        alloc_type: le32(v, entry_at(i)) as u32,
        offset: le32(v, entry_at(i) + 4) as u32,
        size: le32(v, entry_at(i) + 8) as u32,
    }
}

/// The allocator is in order: allocations lie behind its own page and before the end, start
/// at multiples of a cache line, and follow each other.
pub open spec fn alloc_wf(v: Seq<u8>) -> bool {
    &&& v.len() >= ALLOC_PAGE
    &&& le32(v, 0) == ALLOC_MAGIC
    &&& total_of(v) <= v.len()
    &&& count_of(v) <= MAX_ALLOC_ENTRIES
    &&& next_of(v) >= ALLOC_PAGE
    &&& forall|i: int|
        0 <= i < count_of(v) ==> {
            let a = #[trigger] allocation(v, i);
            &&& ALLOC_PAGE <= a.offset
            &&& a.offset % ALLOC_ALIGNMENT == 0
            &&& a.offset + a.size <= next_of(v)
            &&& a.offset + a.size <= total_of(v)
        }
    &&& forall|i: int, j: int|
        0 <= i < j < count_of(v) ==> (#[trigger] allocation(v, i)).offset + allocation(v, i).size
            <= (#[trigger] allocation(v, j)).offset
}

/// Where the next allocation would start.
pub open spec fn aligned_next(v: Seq<u8>) -> int {
    (next_of(v) + ALLOC_ALIGNMENT - 1) / ALLOC_ALIGNMENT as int * ALLOC_ALIGNMENT
}

/// Whether there is room for an allocation.
pub open spec fn alloc_fits(v: Seq<u8>, size: u32) -> bool {
    aligned_next(v) + size <= total_of(v) && count_of(v) < MAX_ALLOC_ENTRIES
}

/// The bytes with an entry of the table written at `e`.
pub open spec fn with_entry(v: Seq<u8>, e: int, alloc_type: u32, at: int, size: u32) -> Seq<u8> {
    put(
        put(put(put(v, e, 4, alloc_type as int), e + 4, 4, at), e + 8, 4, size as int),
        e + 12,
        4,
        0,
    )
}

/// The bytes with the number of allocations and the start of free memory written.
pub open spec fn with_header(v: Seq<u8>, count: int, next: int) -> Seq<u8> {
    put(put(v, 4, 4, count), 8, 4, next)
}

/// Video memory after an allocation: an entry in the table, one more allocation, and free
/// memory starts behind it.
pub open spec fn allocated(v: Seq<u8>, alloc_type: u32, size: u32) -> Seq<u8> {
    let at = aligned_next(v);
    with_header(
        with_entry(v, entry_at(count_of(v)), alloc_type, at, size),
        count_of(v) + 1,
        at + size,
    )
}

/// The bytes with `n` of them from `a` on set to zero.
pub open spec fn zero_range(v: Seq<u8>, a: int, n: int) -> Seq<u8> {
    Seq::new(
        v.len(),
        |i: int|
            if a <= i < a + n {
                0
            } else {
                v[i]
            },
    )
}

/// The first allocation at the offset, from number `i` on.
pub open spec fn find_allocation(v: Seq<u8>, offset: u32, i: int) -> int
    decreases count_of(v) - i,
{
    if i >= count_of(v) || allocation(v, i).offset == offset {
        i
    } else {
        find_allocation(v, offset, i + 1)
    }
}

/// Video memory after allocation number `i` is freed: its memory is zero and its entry has
/// no type.
pub open spec fn freed(v: Seq<u8>, i: int) -> Seq<u8> {
    let a = allocation(v, i);
    put(zero_range(v, a.offset as int, a.size as int), entry_at(i), 4, 0)
}

/// Writing a number elsewhere does not change a word.
proof fn lemma_put_other(v: Seq<u8>, at: int, n: int, x: int, w: int)
    requires
        0 <= at,
        0 <= w,
        at + n <= v.len(),
        w + 4 <= v.len(),
        w + 4 <= at || at + n <= w,
    ensures
        le32(put(v, at, n, x), w) == le32(v, w),
{
}

/// Set bytes to zero.
pub(crate) fn zero_bytes(v: &mut [u8], a: usize, n: usize)
    requires
        a + n <= old(v)@.len(),
    ensures
        final(v)@ == zero_range(old(v)@, a as int, n as int),
{
    let ghost before = v@;
    let mut k: usize = 0;
    while k < n
        invariant
            k <= n,
            a + n <= v@.len(),
            before == old(v)@,
            v@.len() == before.len(),
            forall|i: int|
                0 <= i < before.len() ==> #[trigger] v@[i] == (if a <= i < a + k {
                    0
                } else {
                    before[i]
                }),
        decreases n - k,
    {
        assert(v.len() == v@.len());
        v[a + k] = 0;
        k += 1;
    }
    assert(v@ =~= zero_range(before, a as int, n as int));
}

/// A bump allocator for video memory, with typed allocations.
#[derive(Debug)]
pub struct VramAllocator {}

impl VramAllocator {
    /// Initialize the allocator for `total_size` bytes of video memory.
    pub fn init(vram: &mut [u8], total_size: u32) -> (r: VramAllocator)
        requires
            old(vram)@.len() >= ALLOC_PAGE,
            total_size <= old(vram)@.len(),
        ensures
            final(vram)@ == put(
                put(put(put(old(vram)@, 0, 4, ALLOC_MAGIC as int), 4, 4, 0), 8, 4, ALLOC_PAGE as int),
                12,
                4,
                total_size as int,
            ),
            alloc_wf(final(vram)@),
            count_of(final(vram)@) == 0,
            next_of(final(vram)@) == ALLOC_PAGE,
            total_of(final(vram)@) == total_size,
    {
        let ghost v0 = vram@;
        write_u32_le(vram, 0, ALLOC_MAGIC);
        let ghost v1 = vram@;
        write_u32_le(vram, 4, 0);
        let ghost v2 = vram@;
        write_u32_le(vram, 8, ALLOC_PAGE);
        let ghost v3 = vram@;
        write_u32_le(vram, 12, total_size);
        proof {
            law_put_then_read(v0, 0, 4, ALLOC_MAGIC as int);
            law_put_then_read(v1, 4, 4, 0);
            law_put_then_read(v2, 8, 4, ALLOC_PAGE as int);
            law_put_then_read(v3, 12, 4, total_size as int);
            lemma_put_other(v1, 4, 4, 0, 0);
            lemma_put_other(v2, 8, 4, ALLOC_PAGE as int, 0);
            lemma_put_other(v3, 12, 4, total_size as int, 0);
            lemma_put_other(v2, 8, 4, ALLOC_PAGE as int, 4);
            lemma_put_other(v3, 12, 4, total_size as int, 4);
            lemma_put_other(v3, 12, 4, total_size as int, 8);
        }
        VramAllocator {  }
    }

    /// Allocate `size` bytes with a type. The result is the offset; there is none, and
    /// nothing changes, where memory or the table is full.
    pub fn allocate(&mut self, vram: &mut [u8], alloc_type: u32, size: u32) -> (r: Option<u32>)
        requires
            alloc_wf(old(vram)@),
        ensures
            alloc_wf(final(vram)@),
            r is Some <==> alloc_fits(old(vram)@, size),
            match r {
                None => final(vram)@ == old(vram)@,
                Some(at) => at == aligned_next(old(vram)@) && final(vram)@ == allocated(
                    old(vram)@,
                    alloc_type,
                    size,
                ),
            },
    {
        let ghost v0 = vram@;
        let next: u32 = read_u32_le(vram, 8);
        let total: u32 = read_u32_le(vram, 12);
        let count: u32 = read_u32_le(vram, 4);
        let aligned: u64 = (next as u64 + (ALLOC_ALIGNMENT - 1) as u64) / ALLOC_ALIGNMENT as u64
            * ALLOC_ALIGNMENT as u64;
        if aligned + size as u64 > total as u64 {
            return None;
        }
        if count >= MAX_ALLOC_ENTRIES {
            return None;
        }
        let at: u32 = aligned as u32;
        let e: usize = ALLOC_TABLE_OFFSET + count as usize * ALLOC_ENTRY_SIZE;
        write_u32_le(vram, e, alloc_type);
        write_u32_le(vram, e + 4, at);
        write_u32_le(vram, e + 8, size);
        write_u32_le(vram, e + 12, 0);
        write_u32_le(vram, 4, count + 1);
        write_u32_le(vram, 8, at + size);
        proof {
            lemma_allocated(v0, alloc_type, size);
        }
        Some(at)
    }

    /// Free an allocation: its memory is set to zero, and its entry loses its type. The
    /// result is false where there is no allocation at the offset.
    pub fn free(&mut self, vram: &mut [u8], offset: u32) -> (r: bool)
        requires
            alloc_wf(old(vram)@),
        ensures
            alloc_wf(final(vram)@),
            ({
                let i = find_allocation(old(vram)@, offset, 0);
                &&& r == (i < count_of(old(vram)@))
                &&& final(vram)@ == (if r {
                    freed(old(vram)@, i)
                } else {
                    old(vram)@
                })
            }),
    {
        let ghost v0 = vram@;
        let count: u32 = read_u32_le(vram, 4);
        let mut i: u32 = 0;
        while i < count
            invariant
                i <= count <= MAX_ALLOC_ENTRIES,
                vram@ == v0,
                v0 == old(vram)@,
                count == count_of(v0),
                v0.len() >= ALLOC_PAGE,
                alloc_wf(v0),
                find_allocation(v0, offset, i as int) == find_allocation(v0, offset, 0),
            decreases count - i,
        {
            let e: usize = ALLOC_TABLE_OFFSET + i as usize * ALLOC_ENTRY_SIZE;
            if read_u32_le(vram, e + 4) == offset {
                let size: u32 = read_u32_le(vram, e + 8);
                assert(allocation(v0, i as int).size == size);
                assert(vram.len() == vram@.len());
                zero_bytes(vram, offset as usize, size as usize);
                write_u32_le(vram, e, 0);
                proof {
                    lemma_freed(v0, i as int);
                }
                return true;
            }
            i += 1;
        }
        false
    }

    /// Number of allocations so far.
    pub fn alloc_count(&self, vram: &[u8]) -> (n: u32)
        requires
            vram@.len() >= ALLOC_PAGE,
        ensures
            n == count_of(vram@),
    {
        read_u32_le(vram, 4)
    }

    /// Set the page of the allocator to zero.
    pub fn zero_page(&self, vram: &mut [u8])
        requires
            old(vram)@.len() >= ALLOC_PAGE,
        ensures
            final(vram)@ == zero_range(old(vram)@, 0, ALLOC_PAGE as int),
    {
        zero_bytes(vram, 0, ALLOC_PAGE as usize);
    }
}

/// Whether `w` has the words of `v` but for those that meet the bytes from `a` to `b`.
pub open spec fn same_words(v: Seq<u8>, w: Seq<u8>, a: int, b: int) -> bool {
    &&& w.len() == v.len()
    &&& forall|x: int|
        0 <= x && x + 4 <= v.len() && (x + 4 <= a || b <= x) ==> #[trigger] le32(w, x) == le32(v, x)
    &&& forall|k: int| 0 <= k < v.len() && (k < a || b <= k) ==> #[trigger] w[k] == v[k]
}

/// A word that is written can be read, and all others stay.
#[verifier::spinoff_prover]
proof fn lemma_put_word(v: Seq<u8>, at: int, x: int)
    requires
        0 <= at,
        at + 4 <= v.len(),
        0 <= x < 0x1_0000_0000,
    ensures
        le32(put(v, at, 4, x), at) == x,
        same_words(v, put(v, at, 4, x), at, at + 4),
{
    law_put_then_read(v, at, 4, x);
    assert forall|w: int| 0 <= w && w + 4 <= v.len() && (w + 4 <= at || at + 4
        <= w) implies #[trigger] le32(put(v, at, 4, x), w) == le32(v, w) by {
        lemma_put_other(v, at, 4, x, w);
    }
}

/// What the bytes hold with an entry written.
#[verifier::spinoff_prover]
proof fn lemma_with_entry(v: Seq<u8>, e: int, alloc_type: u32, at: int, size: u32)
    requires
        0 <= e,
        e + 16 <= v.len(),
        0 <= at < 0x1_0000_0000,
    ensures
        ({
            let w = with_entry(v, e, alloc_type, at, size);
            &&& le32(w, e) == alloc_type
            &&& le32(w, e + 4) == at
            &&& le32(w, e + 8) == size
            &&& same_words(v, w, e, e + 16)
        }),
{
    let v1 = put(v, e, 4, alloc_type as int);
    let v2 = put(v1, e + 4, 4, at);
    let v3 = put(v2, e + 8, 4, size as int);
    lemma_put_word(v, e, alloc_type as int);
    lemma_put_word(v1, e + 4, at);
    lemma_put_word(v2, e + 8, size as int);
    lemma_put_word(v3, e + 12, 0);
}

/// What the bytes hold with the numbers of the allocator written.
#[verifier::spinoff_prover]
proof fn lemma_with_header(v: Seq<u8>, count: int, next: int)
    requires
        v.len() >= 12,
        0 <= count < 0x1_0000_0000,
        0 <= next < 0x1_0000_0000,
    ensures
        ({
            let w = with_header(v, count, next);
            &&& le32(w, 4) == count
            &&& le32(w, 8) == next
            &&& same_words(v, w, 4, 12)
        }),
{
    lemma_put_word(v, 4, count);
    lemma_put_word(put(v, 4, 4, count), 8, next);
}

/// The words of video memory after an allocation.
#[verifier::spinoff_prover]
proof fn lemma_allocated_words(v: Seq<u8>, alloc_type: u32, size: u32)
    requires
        alloc_wf(v),
        alloc_fits(v, size),
    ensures
        ({
            let w = allocated(v, alloc_type, size);
            let e = entry_at(count_of(v));
            &&& w.len() == v.len()
            &&& le32(w, 0) == le32(v, 0)
            &&& le32(w, 4) == count_of(v) + 1
            &&& le32(w, 8) == aligned_next(v) + size
            &&& le32(w, 12) == le32(v, 12)
            &&& le32(w, e) == alloc_type
            &&& le32(w, e + 4) == aligned_next(v)
            &&& le32(w, e + 8) == size
            &&& forall|x: int| 16 <= x && x + 4 <= e ==> #[trigger] le32(w, x) == le32(v, x)
            &&& forall|k: int| ALLOC_PAGE <= k < v.len() ==> #[trigger] w[k] == v[k]
        }),
{
    let n = count_of(v);
    let e = entry_at(n);
    let at = aligned_next(v);
    let u = with_entry(v, e, alloc_type, at, size);
    assert(e + 16 <= ALLOC_PAGE);
    assert(0 <= at);
    lemma_with_entry(v, e, alloc_type, at, size);
    lemma_with_header(u, n + 1, at + size);
}

/// Entry number `i` of the table stays where its words do.
proof fn lemma_entry_stays(v: Seq<u8>, w: Seq<u8>, i: int)
    requires
        le32(w, entry_at(i)) == le32(v, entry_at(i)),
        le32(w, entry_at(i) + 4) == le32(v, entry_at(i) + 4),
        le32(w, entry_at(i) + 8) == le32(v, entry_at(i) + 8),
    ensures
        allocation(w, i) == allocation(v, i),
{
}

/// What video memory holds after an allocation.
#[verifier::spinoff_prover]
pub proof fn lemma_allocated(v: Seq<u8>, alloc_type: u32, size: u32)
    requires
        alloc_wf(v),
        alloc_fits(v, size),
    ensures
        ({
            let w = allocated(v, alloc_type, size);
            &&& alloc_wf(w)
            &&& w.len() == v.len()
            &&& count_of(w) == count_of(v) + 1
            &&& next_of(w) == aligned_next(v) + size
            &&& total_of(w) == total_of(v)
            &&& allocation(w, count_of(v)) == (Allocation {
                alloc_type,
                offset: aligned_next(v) as u32,
                size,
            })
            &&& forall|i: int|
                0 <= i < count_of(v) ==> #[trigger] allocation(w, i) == allocation(v, i)
            &&& forall|k: int| ALLOC_PAGE <= k < v.len() ==> #[trigger] w[k] == v[k]
        }),
{
    let n = count_of(v);
    let e = entry_at(n);
    let at = aligned_next(v);
    let w = allocated(v, alloc_type, size);
    lemma_allocated_words(v, alloc_type, size);
    assert forall|i: int| 0 <= i < n implies #[trigger] allocation(w, i) == allocation(v, i) by {
        assert(entry_at(i) + 16 <= e);
        lemma_entry_stays(v, w, i);
    }
    let last = Allocation { alloc_type, offset: at as u32, size };
    assert(allocation(w, n) == last);
    lemma_aligned(v);
    lemma_table_grown(v, w, n, at + size, total_of(v), last);
}

/// The next multiple of a cache line.
proof fn lemma_aligned(v: Seq<u8>)
    ensures
        next_of(v) <= aligned_next(v),
        aligned_next(v) % ALLOC_ALIGNMENT as int == 0,
{
}

/// A table with one more entry behind the others is in order.
#[verifier::spinoff_prover]
proof fn lemma_table_grown(v: Seq<u8>, w: Seq<u8>, n: int, next: int, total: int, last: Allocation)
    requires
        alloc_wf(v),
        n == count_of(v),
        w.len() == v.len(),
        le32(w, 0) == ALLOC_MAGIC,
        total == total_of(v),
        total == total_of(w),
        count_of(w) == n + 1,
        n < MAX_ALLOC_ENTRIES,
        last == allocation(w, n),
        next_of(v) <= last.offset,
        last.offset % ALLOC_ALIGNMENT == 0,
        next == next_of(w),
        next == last.offset + last.size,
        next <= total,
        forall|i: int| 0 <= i < n ==> #[trigger] allocation(w, i) == allocation(v, i),
    ensures
        alloc_wf(w),
{
    assert forall|i: int| 0 <= i < n + 1 implies {
        let a = #[trigger] allocation(w, i);
        &&& ALLOC_PAGE <= a.offset
        &&& a.offset % ALLOC_ALIGNMENT == 0
        &&& a.offset + a.size <= next
        &&& a.offset + a.size <= total
    } by {
        if i < n {
            assert(allocation(w, i) == allocation(v, i));
        } else {
            assert(i == n);
        }
    }
    assert forall|i: int, j: int| 0 <= i < j < n + 1 implies (#[trigger] allocation(w, i)).offset
        + allocation(w, i).size <= (#[trigger] allocation(w, j)).offset by {
        assert(allocation(w, i) == allocation(v, i));
        if j < n {
            assert(allocation(w, j) == allocation(v, j));
        } else {
            assert(j == n);
        }
    }
}

/// What video memory holds after an allocation is freed.
pub proof fn lemma_freed(v: Seq<u8>, i: int)
    requires
        alloc_wf(v),
        0 <= i < count_of(v),
    ensures
        ({
            let w = freed(v, i);
            let a = allocation(v, i);
            &&& alloc_wf(w)
            &&& w.len() == v.len()
            &&& count_of(w) == count_of(v)
            &&& next_of(w) == next_of(v)
            &&& total_of(w) == total_of(v)
            &&& allocation(w, i) == (Allocation { alloc_type: 0, ..a })
            &&& forall|j: int|
                0 <= j < count_of(v) && j != i ==> #[trigger] allocation(w, j) == allocation(v, j)
            &&& forall|k: int|
                ALLOC_PAGE <= k < v.len() ==> #[trigger] w[k] == (if a.offset <= k < a.offset
                    + a.size {
                    0
                } else {
                    v[k]
                })
        }),
{
    let a = allocation(v, i);
    let e = entry_at(i);
    let z = zero_range(v, a.offset as int, a.size as int);
    let w = put(z, e, 4, 0);
    assert(e + 16 <= ALLOC_PAGE);
    law_put_then_read(z, e, 4, 0);
    assert forall|x: int|
        0 <= x && x + 4 <= ALLOC_PAGE && (x + 4 <= e || e + 4 <= x) implies #[trigger] le32(w, x)
        == le32(v, x) by {
        lemma_put_other(z, e, 4, 0, x);
    }
    assert(le32(w, 0) == le32(v, 0) && le32(w, 4) == le32(v, 4) && le32(w, 8) == le32(v, 8)
        && le32(w, 12) == le32(v, 12));
    assert(le32(w, e + 4) == le32(v, e + 4) && le32(w, e + 8) == le32(v, e + 8));
    assert forall|j: int| 0 <= j < count_of(v) && j != i implies #[trigger] allocation(w, j)
        == allocation(v, j) by {
        assert(entry_at(j) + 16 <= e || e + 16 <= entry_at(j));
        assert(le32(w, entry_at(j)) == le32(v, entry_at(j)));
        assert(le32(w, entry_at(j) + 4) == le32(v, entry_at(j) + 4));
        assert(le32(w, entry_at(j) + 8) == le32(v, entry_at(j) + 8));
    }
    assert forall|x: int, y: int| 0 <= x < y < count_of(v) implies (#[trigger] allocation(
        w,
        x,
    )).offset + allocation(w, x).size <= (#[trigger] allocation(w, y)).offset by {
        assert(allocation(v, x).offset + allocation(v, x).size <= allocation(v, y).offset);
    }
}

/// No byte belongs to two allocations.
pub proof fn law_allocations_apart(v: Seq<u8>, i: int, j: int, k: int)
    requires
        alloc_wf(v),
        0 <= i < count_of(v),
        0 <= j < count_of(v),
        i != j,
    ensures
        !(allocation(v, i).offset <= k < allocation(v, i).offset + allocation(v, i).size
            && allocation(v, j).offset <= k < allocation(v, j).offset + allocation(v, j).size),
{
    if i < j {
        assert(allocation(v, i).offset + allocation(v, i).size <= allocation(v, j).offset);
    } else {
        assert(allocation(v, j).offset + allocation(v, j).size <= allocation(v, i).offset);
    }
}

// ---------------------------------------------------------------------------
// Command ring
// ---------------------------------------------------------------------------

/// The first word of a ring, "RING".
pub const RING_MAGIC: u32 = 0x474E_4952;

/// Size of a ring.
pub const RING_SIZE: u32 = 0x1000;

/// Size of a command.
pub const RING_ENTRY_SIZE: u32 = 32;

/// Where the first command lies.
pub const RING_DATA: usize = 0x10;

/// The command to compute.
pub const DISPATCH_COMPUTE: u32 = 1;

/// The states of a command.
pub const PENDING: u32 = 0;

pub const COMPLETE: u32 = 1;

/// A queue of commands in video memory, of which the first is used.
#[derive(Debug, Clone, Copy, PartialEq, Eq, Structural)]
pub struct CommandRing {
    base: usize,
}

/// The header of a new ring: magic, write and read positions, and size.
pub open spec fn ring_made(v: Seq<u8>, base: int) -> Seq<u8> {
    let v1 = put(v, base, 4, RING_MAGIC as int);
    let v2 = put(v1, base + 4, 4, 0);
    let v3 = put(v2, base + 8, 4, 0);
    put(v3, base + 12, 4, RING_SIZE as int)
}

/// A command to multiply is written: what to do, its state, where the matrices are and their
/// size, a fence and a reserved word; the write position is behind it.
pub open spec fn ring_submitted(
    v: Seq<u8>,
    base: int,
    a_off: u32,
    b_off: u32,
    c_off: u32,
    dim: u32,
) -> Seq<u8> {
    let e = base + RING_DATA;
    let v1 = put(v, e, 4, DISPATCH_COMPUTE as int);
    let v2 = put(v1, e + 4, 4, PENDING as int);
    let v3 = put(v2, e + 8, 4, a_off as int);
    let v4 = put(v3, e + 12, 4, b_off as int);
    let v5 = put(v4, e + 16, 4, c_off as int);
    let v6 = put(v5, e + 20, 4, dim as int);
    let v7 = put(v6, e + 24, 4, 1);
    let v8 = put(v7, e + 28, 4, 0);
    put(v8, base + 4, 4, RING_ENTRY_SIZE as int)
}

/// The first command is marked as complete, and the read position is behind it.
pub open spec fn ring_completed(v: Seq<u8>, base: int) -> Seq<u8> {
    put(
        put(v, base + RING_DATA + 4, 4, COMPLETE as int),
        base + 8,
        4,
        RING_ENTRY_SIZE as int,
    )
}

/// Where the matrices of the first command are, and their size.
pub open spec fn ring_command(v: Seq<u8>, base: int) -> (int, int, int, int) {
    let e = base + RING_DATA;
    (le32(v, e + 8), le32(v, e + 12), le32(v, e + 16), le32(v, e + 20))
}

impl CommandRing {
    pub closed spec fn base(&self) -> usize {
        self.base
    }

    /// Whether the header and the first command lie in video memory.
    pub open spec fn inside(&self, v: Seq<u8>) -> bool {
        self.base() + 0x30 <= v.len()
    }

    /// Initialize a ring at `base`.
    pub fn init(vram: &mut [u8], base: usize) -> (r: CommandRing)
        requires
            base + 0x30 <= old(vram)@.len(),
        ensures
            r.base() == base,
            final(vram)@ == ring_made(old(vram)@, base as int),
    {
        assert(vram.len() == vram@.len());
        write_u32_le(vram, base, RING_MAGIC);
        write_u32_le(vram, base + 4, 0);
        write_u32_le(vram, base + 8, 0);
        write_u32_le(vram, base + 12, RING_SIZE);
        CommandRing { base }
    }

    /// Whether the ring's first word is [`RING_MAGIC`].
    pub fn verify(&self, vram: &[u8]) -> (r: bool)
        requires
            self.inside(vram@),
        ensures
            r == (le32(vram@, self.base() as int) == RING_MAGIC),
    {
        read_u32_le(vram, self.base) == RING_MAGIC
    }

    /// Submit a command to multiply the matrices at the given offsets.
    pub fn submit_matmul(
        &mut self,
        vram: &mut [u8],
        a_off: u32,
        b_off: u32,
        c_off: u32,
        dim: u32,
    )
        requires
            old(self).inside(old(vram)@),
        ensures
            *final(self) == *old(self),
            final(vram)@ == ring_submitted(
                old(vram)@,
                old(self).base() as int,
                a_off,
                b_off,
                c_off,
                dim,
            ),
    {
        assert(vram.len() == vram@.len());
        let e: usize = self.base + RING_DATA;
        write_u32_le(vram, e, DISPATCH_COMPUTE);
        write_u32_le(vram, e + 4, PENDING);
        write_u32_le(vram, e + 8, a_off);
        write_u32_le(vram, e + 12, b_off);
        write_u32_le(vram, e + 16, c_off);
        write_u32_le(vram, e + 20, dim);
        write_u32_le(vram, e + 24, 1);
        write_u32_le(vram, e + 28, 0);
        write_u32_le(vram, self.base + 4, RING_ENTRY_SIZE);
    }

    /// Where the matrices of the first command are, and their size.
    pub fn read_command(&self, vram: &[u8]) -> (r: (u32, u32, u32, u32))
        requires
            self.inside(vram@),
        ensures
            (r.0 as int, r.1 as int, r.2 as int, r.3 as int) == ring_command(
                vram@,
                self.base() as int,
            ),
    {
        assert(vram.len() == vram@.len());
        let e: usize = self.base + RING_DATA;
        (
            read_u32_le(vram, e + 8),
            read_u32_le(vram, e + 12),
            read_u32_le(vram, e + 16),
            read_u32_le(vram, e + 20),
        )
    }

    /// Mark the first command as complete.
    pub fn complete(&mut self, vram: &mut [u8])
        requires
            old(self).inside(old(vram)@),
        ensures
            *final(self) == *old(self),
            final(vram)@ == ring_completed(old(vram)@, old(self).base() as int),
    {
        assert(vram.len() == vram@.len());
        write_u32_le(vram, self.base + RING_DATA + 4, COMPLETE);
        write_u32_le(vram, self.base + 8, RING_ENTRY_SIZE);
    }
}

/// A command that was submitted is read back, also once it is complete, and no byte outside
/// the ring's header and first command changes.
pub proof fn law_command_round_trip(
    v: Seq<u8>,
    base: int,
    a_off: u32,
    b_off: u32,
    c_off: u32,
    dim: u32,
)
    requires
        0 <= base,
        base + 0x30 <= v.len(),
    ensures
        ({
            let w = ring_submitted(v, base, a_off, b_off, c_off, dim);
            let z = ring_completed(w, base);
            &&& ring_command(w, base) == (a_off as int, b_off as int, c_off as int, dim as int)
            &&& ring_command(z, base) == ring_command(w, base)
            &&& le32(w, base + RING_DATA + 4) == PENDING
            &&& le32(z, base + RING_DATA + 4) == COMPLETE
            &&& w.len() == v.len() && z.len() == v.len()
            &&& forall|k: int|
                0 <= k < v.len() && !(base <= k < base + 0x30) ==> #[trigger] w[k] == v[k]
            &&& forall|k: int|
                0 <= k < v.len() && !(base <= k < base + 0x30) ==> #[trigger] z[k] == v[k]
        }),
{
    let e = base + RING_DATA;
    let v1 = put(v, e, 4, DISPATCH_COMPUTE as int);
    let v2 = put(v1, e + 4, 4, PENDING as int);
    let v3 = put(v2, e + 8, 4, a_off as int);
    let v4 = put(v3, e + 12, 4, b_off as int);
    let v5 = put(v4, e + 16, 4, c_off as int);
    let v6 = put(v5, e + 20, 4, dim as int);
    let v7 = put(v6, e + 24, 4, 1);
    let v8 = put(v7, e + 28, 4, 0);
    let w = put(v8, base + 4, 4, RING_ENTRY_SIZE as int);
    let z1 = put(w, e + 4, 4, COMPLETE as int);
    law_put_then_read(v1, e + 4, 4, PENDING as int);
    law_put_then_read(v2, e + 8, 4, a_off as int);
    law_put_then_read(v3, e + 12, 4, b_off as int);
    law_put_then_read(v4, e + 16, 4, c_off as int);
    law_put_then_read(v5, e + 20, 4, dim as int);
    law_put_then_read(w, e + 4, 4, COMPLETE as int);
    lemma_put_other(v2, e + 8, 4, a_off as int, e + 4);
    lemma_put_other(v3, e + 12, 4, b_off as int, e + 4);
    lemma_put_other(v4, e + 16, 4, c_off as int, e + 4);
    lemma_put_other(v5, e + 20, 4, dim as int, e + 4);
    lemma_put_other(v6, e + 24, 4, 1, e + 4);
    lemma_put_other(v7, e + 28, 4, 0, e + 4);
    lemma_put_other(v8, base + 4, 4, RING_ENTRY_SIZE as int, e + 4);
    lemma_put_other(z1, base + 8, 4, RING_ENTRY_SIZE as int, e + 4);
    assert forall|x: int|
        x == e + 8 || x == e + 12 || x == e + 16 || x == e + 20 implies #[trigger] le32(
        ring_completed(w, base),
        x,
    ) == le32(v6, x) && le32(w, x) == le32(v6, x) by {
        lemma_put_other(v6, e + 24, 4, 1, x);
        lemma_put_other(v7, e + 28, 4, 0, x);
        lemma_put_other(v8, base + 4, 4, RING_ENTRY_SIZE as int, x);
        lemma_put_other(w, e + 4, 4, COMPLETE as int, x);
        lemma_put_other(z1, base + 8, 4, RING_ENTRY_SIZE as int, x);
    }
    assert(le32(v6, e + 8) == a_off && le32(v6, e + 12) == b_off && le32(v6, e + 16) == c_off) by {
        lemma_put_other(v3, e + 12, 4, b_off as int, e + 8);
        lemma_put_other(v4, e + 16, 4, c_off as int, e + 8);
        lemma_put_other(v5, e + 20, 4, dim as int, e + 8);
        lemma_put_other(v4, e + 16, 4, c_off as int, e + 12);
        lemma_put_other(v5, e + 20, 4, dim as int, e + 12);
        lemma_put_other(v5, e + 20, 4, dim as int, e + 16);
    }
    let z = ring_completed(w, base);
    assert(le32(z, e + 8) == le32(v6, e + 8));
    assert(le32(z, e + 12) == le32(v6, e + 12));
    assert(le32(z, e + 16) == le32(v6, e + 16));
    assert(le32(z, e + 20) == le32(v6, e + 20));
}

// ---------------------------------------------------------------------------
// Matrix product
// ---------------------------------------------------------------------------

/// Entry in row `i` and column `j` of the matrix at `base`.
pub open spec fn cell(v: Seq<u8>, base: int, i: int, j: int) -> int {
    le32(v, base + 16 * i + 4 * j)
}

/// The sum of the first `k` products of row `i` of one matrix and column `j` of another, as
/// a 32-bit number.
pub open spec fn dot(v: Seq<u8>, a: int, b: int, i: int, j: int, k: int) -> int
    decreases k,
{
    if k <= 0 {
        0
    } else {
        (dot(v, a, b, i, j, k - 1) + cell(v, a, i, k - 1) * cell(v, b, k - 1, j)) % 0x1_0000_0000
    }
}

/// Video memory after the first `n` entries of the product are written, row by row.
pub open spec fn product(v: Seq<u8>, a: int, b: int, c: int, n: int) -> Seq<u8>
    decreases n,
{
    if n <= 0 {
        v
    } else {
        let p = product(v, a, b, c, n - 1);
        put(p, c + 4 * (n - 1), 4, dot(p, a, b, (n - 1) / 4, (n - 1) % 4, 4))
    }
}

/// Row times column.
fn dot_product(vram: &[u8], a: usize, b: usize, i: usize, j: usize) -> (r: u32)
    requires
        i < 4,
        j < 4,
        a + 64 <= vram@.len(),
        b + 64 <= vram@.len(),
    ensures
        r == dot(vram@, a as int, b as int, i as int, j as int, 4),
{
    assert(vram.len() == vram@.len());
    let mut acc: u64 = 0;
    let mut k: usize = 0;
    while k < 4
        invariant
            k <= 4,
            i < 4,
            j < 4,
            a + 64 <= vram@.len(),
            b + 64 <= vram@.len(),
            acc <= 0xFFFF_FFFF,
            acc == dot(vram@, a as int, b as int, i as int, j as int, k as int),
        decreases 4 - k,
    {
        assert(vram.len() == vram@.len());
        let x: u32 = read_u32_le(vram, a + 16 * i + 4 * k);
        let y: u32 = read_u32_le(vram, b + 16 * k + 4 * j);
        assert(x * y <= 0xFFFF_FFFF * 0xFFFF_FFFF) by (nonlinear_arith)
            requires
                x <= 0xFFFF_FFFF,
                y <= 0xFFFF_FFFF,
        ;
        acc = (acc + x as u64 * y as u64) % 0x1_0000_0000;
        k += 1;
    }
    acc as u32
}

/// Compute C = A x B for 4 x 4 matrices of 32-bit numbers in video memory, modulo 2^32. The
/// entries of C are written row by row.
pub fn matmul_4x4(vram: &mut [u8], a: usize, b: usize, c: usize)
    requires
        a + 64 <= old(vram)@.len(),
        b + 64 <= old(vram)@.len(),
        c + 64 <= old(vram)@.len(),
    ensures
        final(vram)@ == product(old(vram)@, a as int, b as int, c as int, 16),
{
    let ghost v0 = vram@;
    let mut n: usize = 0;
    while n < 16
        invariant
            n <= 16,
            v0 == old(vram)@,
            vram@.len() == v0.len(),
            a + 64 <= vram@.len(),
            b + 64 <= vram@.len(),
            c + 64 <= vram@.len(),
            vram@ == product(v0, a as int, b as int, c as int, n as int),
        decreases 16 - n,
    {
        assert(vram.len() == vram@.len());
        let acc: u32 = dot_product(vram, a, b, n / 4, n % 4);
        write_u32_le(vram, c + 4 * n, acc);
        n += 1;
    }
}

/// Two memories that agree on both matrices have the same products.
proof fn lemma_dot_same(v: Seq<u8>, w: Seq<u8>, a: int, b: int, i: int, j: int, k: int)
    requires
        0 <= i < 4,
        0 <= j < 4,
        0 <= k <= 4,
        forall|x: int| a <= x < a + 64 ==> #[trigger] w[x] == v[x],
        forall|x: int| b <= x < b + 64 ==> #[trigger] w[x] == v[x],
    ensures
        dot(w, a, b, i, j, k) == dot(v, a, b, i, j, k),
    decreases k,
{
    if k > 0 {
        lemma_dot_same(v, w, a, b, i, j, k - 1);
        assert(cell(w, a, i, k - 1) == cell(v, a, i, k - 1));
        assert(cell(w, b, k - 1, j) == cell(v, b, k - 1, j));
    }
}

proof fn lemma_dot_range(v: Seq<u8>, a: int, b: int, i: int, j: int, k: int)
    ensures
        0 <= dot(v, a, b, i, j, k) < 0x1_0000_0000,
    decreases k,
{
    if k > 0 {
        lemma_dot_range(v, a, b, i, j, k - 1);
    }
}

/// Where the product does not overlap the factors, each of its entries is the sum of the
/// four products of row and column, modulo 2^32, and no byte outside it changes.
pub proof fn law_matrix_product(v: Seq<u8>, a: int, b: int, c: int, n: int)
    requires
        0 <= a,
        0 <= b,
        0 <= c,
        a + 64 <= v.len(),
        b + 64 <= v.len(),
        c + 64 <= v.len(),
        a + 64 <= c || c + 64 <= a,
        b + 64 <= c || c + 64 <= b,
        0 <= n <= 16,
    ensures
        product(v, a, b, c, n).len() == v.len(),
        forall|m: int|
            0 <= m < n ==> le32(product(v, a, b, c, n), c + 4 * m) == #[trigger] dot(
                v,
                a,
                b,
                m / 4,
                m % 4,
                4,
            ),
        forall|k: int|
            0 <= k < v.len() && !(c <= k < c + 64) ==> #[trigger] product(v, a, b, c, n)[k] == v[k],
    decreases n,
{
    if n > 0 {
        law_matrix_product(v, a, b, c, n - 1);
        let p = product(v, a, b, c, n - 1);
        let i = (n - 1) / 4;
        let j = (n - 1) % 4;
        let x = dot(p, a, b, i, j, 4);
        lemma_dot_same(v, p, a, b, i, j, 4);
        lemma_dot_range(p, a, b, i, j, 4);
        law_put_then_read(p, c + 4 * (n - 1), 4, x);
        assert forall|m: int| 0 <= m < n implies le32(product(v, a, b, c, n), c + 4 * m)
            == #[trigger] dot(v, a, b, m / 4, m % 4, 4) by {
            if m < n - 1 {
                lemma_put_other(p, c + 4 * (n - 1), 4, x, c + 4 * m);
            }
        }
    }
}

/// The product of a row and a column, written out.
pub proof fn law_dot(v: Seq<u8>, a: int, b: int, i: int, j: int)
    ensures
        dot(v, a, b, i, j, 4) == (cell(v, a, i, 0) * cell(v, b, 0, j) + cell(v, a, i, 1) * cell(
            v,
            b,
            1,
            j,
        ) + cell(v, a, i, 2) * cell(v, b, 2, j) + cell(v, a, i, 3) * cell(v, b, 3, j))
            % 0x1_0000_0000,
{
    let p0 = cell(v, a, i, 0) * cell(v, b, 0, j);
    let p1 = cell(v, a, i, 1) * cell(v, b, 1, j);
    let p2 = cell(v, a, i, 2) * cell(v, b, 2, j);
    let p3 = cell(v, a, i, 3) * cell(v, b, 3, j);
    assert(dot(v, a, b, i, j, 0) == 0);
    assert(dot(v, a, b, i, j, 1) == (0 + p0) % 0x1_0000_0000);
    assert(dot(v, a, b, i, j, 2) == (dot(v, a, b, i, j, 1) + p1) % 0x1_0000_0000);
    assert(dot(v, a, b, i, j, 3) == (dot(v, a, b, i, j, 2) + p2) % 0x1_0000_0000);
    assert(dot(v, a, b, i, j, 4) == (dot(v, a, b, i, j, 3) + p3) % 0x1_0000_0000);
    lemma_sum_of_four(p0, p1, p2, p3);
}

/// Adding four numbers with a remainder at each step.
proof fn lemma_sum_of_four(p0: int, p1: int, p2: int, p3: int)
    ensures
        ((((0 + p0) % 0x1_0000_0000 + p1) % 0x1_0000_0000 + p2) % 0x1_0000_0000 + p3)
            % 0x1_0000_0000 == (p0 + p1 + p2 + p3) % 0x1_0000_0000,
{
}

} // verus!
