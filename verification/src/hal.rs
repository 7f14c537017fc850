//! The shard of a GPU partition: its configuration page, and device memory mapped into its
//! address space.

use vstd::prelude::*;

use crate::aslr::ASLR_START;
use crate::bytes::{law_put_then_read, le32, le64, write_u32_le, write_u64_le};
use crate::frame::{has_frames, FrameAllocator, FrameView};
use crate::gpu::GpuPartition;
use crate::links::ways_open;
use crate::mem::{bytes_at, frame_ok, in_frame, page_of, Memory};
use crate::pci::BarInfo;
use crate::shard::{code_pages, create, data_frame, first_free, frames_needed, is_zero_page};
use crate::shard::{isolated, lemma_isolated_grown, lemma_made_grown, lemma_own_frame};
use crate::shard::lemma_shard_flags;
use crate::shard::{shard_leaf, shard_tables, shard_wf, space_made, Priority, ShardDescriptor};
use crate::shard::{ShardState, ShardTable, CODE_FLAGS, MAX_SHARDS, MAX_SHARD_FRAMES};
use crate::shard::{SHARD_CODE_VADDR, SHARD_STACK_VADDR, STACK_FLAGS};
use crate::space::{add_page, claimed, lemma_claimed, lemma_free_frame_apart, lemma_grown_twice};
use crate::space::{lemma_grown_window, lemma_same_bytes, lemma_space_kept, lemma_space_tables};
use crate::space::{page_mapped, same_frame, space_grown, space_wf};
use crate::vmm::{count_missing, executable, in_half, indices, leaf, lemma_entry_bits};
use crate::vmm::{lemma_missing_last, lemma_next_table, missing_tables, on_way, path_ok, pte_addr};
use crate::vmm::{pte_value, same_leaves, table_at, writable, Leaf, PAGE_4K, PTE_ADDR_MASK};
use crate::vmm::{PTE_CACHE_DISABLE, PTE_NO_EXECUTE, PTE_PRESENT, PTE_USER, PTE_WRITABLE};
use crate::vmm::{PARENT_FLAGS, PTE_WRITE_THROUGH};
use crate::window::{apart, common, lemma_low_indices, lemma_one_gib, lemma_regions_count};
use crate::window::{lemma_window_indices, lemma_window_regions, map_pages, no_huge, one_gib, page};
use crate::window::{region_end, region_of, region_path, window_mapped, window_missing};
use crate::window::window_tables;

verus! {

/// Greatest number of bytes of video memory that is mapped into a shard.
pub const MAX_VRAM_MAP: u64 = 0x200_0000;

/// Virtual address of the configuration page.
pub const GPU_CONFIG_VADDR: u64 = 0x4000;

/// The first word of the configuration page, "GPCF".
pub const GPU_CONFIG_MAGIC: u32 = 0x4750_4346;

/// Flags of the configuration page: for user mode, neither writable nor executable.
pub const CONFIG_FLAGS: u64 = 0x8000_0000_0000_0004;

/// Flags of device pages: for user mode, writable, not cached, not executable.
pub const DEVICE_FLAGS: u64 = 0x8000_0000_0000_001E;

/// What the flags say.
pub proof fn lemma_device_flags()
    ensures
        CONFIG_FLAGS == PTE_USER | PTE_NO_EXECUTE,
        DEVICE_FLAGS == PTE_USER | PTE_WRITABLE | PTE_NO_EXECUTE | PTE_CACHE_DISABLE
            | PTE_WRITE_THROUGH,
        !executable(CONFIG_FLAGS),
        !executable(DEVICE_FLAGS),
        CONFIG_FLAGS & PTE_ADDR_MASK == 0,
        DEVICE_FLAGS & PTE_ADDR_MASK == 0,
{
    assert(0x8000_0000_0000_0004u64 == 4u64 | 0x8000_0000_0000_0000 && 0x8000_0000_0000_001Eu64
        == 4u64 | 2 | 0x8000_0000_0000_0000 | 0x10 | 8 && 0x8000_0000_0000_0004u64
        & 0x8000_0000_0000_0000 != 0 && 0x8000_0000_0000_001Eu64 & 0x8000_0000_0000_0000 != 0
        && 0x8000_0000_0000_0004u64 & 0x000F_FFFF_FFFF_F000 == 0 && 0x8000_0000_0000_001Eu64
        & 0x000F_FFFF_FFFF_F000 == 0) by (bit_vector);
}

// ---------------------------------------------------------------------------
// The configuration page
// ---------------------------------------------------------------------------

/// What the configuration page of a partition holds, whose video memory and device
/// registers are mapped at the given addresses.
#[verifier::opaque]
pub open spec fn config_page(b: Seq<u8>, p: GpuPartition, vram_vaddr: u64, mmio_vaddr: u64) -> bool {
    &&& b.len() == 4096
    &&& le32(b, 0) == GPU_CONFIG_MAGIC
    &&& le32(b, 4) == p.id
    &&& le64(b, 8) == p.vram_size
    &&& le32(b, 0x10) == p.cu_count
    &&& forall|i: int| 0x14 <= i < 0x18 ==> #[trigger] b[i] == 0
    &&& le64(b, 0x18) == vram_vaddr
    &&& le64(b, 0x20) == mmio_vaddr
    &&& forall|i: int| 0x28 <= i < 4096 ==> #[trigger] b[i] == 0
}

/// The first bytes of the configuration page.
fn config_bytes(p: &GpuPartition, vram_vaddr: u64, mmio_vaddr: u64) -> (v: Vec<u8>)
    ensures
        config_page(page_of(v@, 0), *p, vram_vaddr, mmio_vaddr),
{
    let mut v: Vec<u8> = vec![0u8;0x28];
    let ghost b0 = v@;
    write_u32_le(v.as_mut_slice(), 0, GPU_CONFIG_MAGIC);
    let ghost b1 = v@;
    write_u32_le(v.as_mut_slice(), 4, p.id);
    let ghost b2 = v@;
    write_u64_le(v.as_mut_slice(), 8, p.vram_size);
    let ghost b3 = v@;
    write_u32_le(v.as_mut_slice(), 0x10, p.cu_count);
    let ghost b4 = v@;
    write_u64_le(v.as_mut_slice(), 0x18, vram_vaddr);
    let ghost b5 = v@;
    write_u64_le(v.as_mut_slice(), 0x20, mmio_vaddr);
    proof {
        law_put_then_read(b0, 0, 4, GPU_CONFIG_MAGIC as int);
        law_put_then_read(b1, 4, 4, p.id as int);
        law_put_then_read(b2, 8, 8, p.vram_size as int);
        law_put_then_read(b3, 0x10, 4, p.cu_count as int);
        law_put_then_read(b4, 0x18, 8, vram_vaddr as int);
        law_put_then_read(b5, 0x20, 8, mmio_vaddr as int);
        let b6 = v@;
        reveal(config_page);
        assert(b6.len() == 0x28);
        assert forall|i: int| 0 <= i < 0x28 implies page_of(b6, 0)[i] == b6[i] by {}
        assert forall|i: int| 0 <= i < 0x20 implies #[trigger] b6[i] == b5[i] by {}
        assert forall|i: int| 0 <= i < 0x18 implies #[trigger] b5[i] == b4[i] by {}
        assert forall|i: int| 0 <= i < 0x10 implies #[trigger] b4[i] == b3[i] by {}
        assert forall|i: int| 0x14 <= i < 0x18 implies #[trigger] b4[i] == 0 by {}
        assert forall|i: int| 0 <= i < 8 implies #[trigger] b3[i] == b2[i] by {}
        assert forall|i: int| 0 <= i < 4 implies #[trigger] b2[i] == b1[i] by {}
    }
    v
}

/// Make the configuration page of a partition and map it into the shard at
/// [`GPU_CONFIG_VADDR`]. The frame belongs to the shard.
///
/// The result is false, and nothing changes, where there are not enough frames.
pub fn create_config_page(
    table: &mut ShardTable,
    fa: &mut FrameAllocator,
    mem: &mut Memory,
    shard_id: usize,
    partition: &GpuPartition,
    vram_vaddr: u64,
    mmio_vaddr: u64,
) -> (ok: bool)
    requires
        old(table).wf(),
        old(fa).wf(),
        old(fa)@.within(old(mem)@.len()),
        isolated(old(table)@, old(mem)@, old(fa)@),
        shard_id < MAX_SHARDS,
        old(table)@[shard_id as int].live(),
        old(table)@[shard_id as int].frame_count < MAX_SHARD_FRAMES,
        leaf(
            old(mem)@,
            old(table)@[shard_id as int].pml4_phys,
            GPU_CONFIG_VADDR,
        ) is Unmapped,
    ensures
        final(table).wf(),
        final(table).current == old(table).current,
        final(fa).wf(),
        final(fa)@.within(final(mem)@.len()),
        isolated(final(table)@, final(mem)@, final(fa)@),
        ({
            let s = old(table)@[shard_id as int];
            let s2 = final(table)@[shard_id as int];
            let missing = missing_tables(old(mem)@, s.pml4_phys, GPU_CONFIG_VADDR, 3);
            let p = s2.frames()[s.frame_count as int];
            &&& ok == (old(fa)@.capacity() >= 1 + missing)
            &&& !ok ==> final(table)@ == old(table)@ && final(mem)@ == old(mem)@ && final(fa)@
                == old(fa)@
            &&& ok ==> {
                &&& final(table)@ == old(table)@.update(shard_id as int, s2)
                &&& s2 == (ShardDescriptor {
                    allocated_frames: s2.allocated_frames,
                    frame_count: (s.frame_count + 1) as usize,
                    ..s
                })
                &&& s2.frames() == s.frames().push(p)
                &&& space_grown(
                    old(mem)@,
                    final(mem)@,
                    old(fa)@,
                    final(fa)@,
                    s.frames(),
                    s2.frames(),
                )
                &&& page_mapped(
                    old(mem)@,
                    final(mem)@,
                    s.pml4_phys,
                    GPU_CONFIG_VADDR,
                    pte_value(p, CONFIG_FLAGS | PTE_PRESENT),
                )
                &&& config_page(
                    bytes_at(final(mem)@, p as int, 4096),
                    *partition,
                    vram_vaddr,
                    mmio_vaddr,
                )
                &&& final(fa)@.capacity() == old(fa)@.capacity() - 1 - missing
            }
        }),
{
    let ghost m0 = mem@;
    let ghost v0 = fa@;
    let ghost t0 = table@;
    let ghost s = t0[shard_id as int];
    let root: u64 = table.shards[shard_id].pml4_phys;
    proof {
        assert(shard_wf(s, m0, v0)) by {
            reveal(isolated);
        }
        lemma_space_tables(m0, v0, s.frames());
        lemma_low_indices(GPU_CONFIG_VADDR);
        lemma_device_flags();
        reveal_with_fuel(missing_tables, 4);
    }
    let missing: u64 = count_missing(mem, root, GPU_CONFIG_VADDR, 3);
    if !has_frames(fa, 1 + missing) {
        return false;
    }
    let data = config_bytes(partition, vram_vaddr, mmio_vaddr);
    let p: u64 = add_page(
        fa,
        mem,
        root,
        GPU_CONFIG_VADDR,
        data.as_slice(),
        0,
        CONFIG_FLAGS,
        Ghost(s.frames()),
    );
    let count: usize = table.shards[shard_id].frame_count;
    table.shards[shard_id].allocated_frames[count] = p;
    table.shards[shard_id].frame_count = count + 1;
    proof {
        let s2 = table@[shard_id as int];
        assert(s2.frames() =~= s.frames().push(p));
        assert(table@ =~= t0.update(shard_id as int, s2));
        lemma_isolated_grown(t0, m0, mem@, v0, fa@, shard_id as int, s2);
    }
    true
}

// ---------------------------------------------------------------------------
// Device memory
// ---------------------------------------------------------------------------

/// Device memory as a shard sees it: `pages` pages from `phys` on, mapped from `virt` on.
#[derive(Debug, Clone, Copy, PartialEq, Eq, Structural)]
pub struct DeviceRange {
    pub phys: u64,
    pub virt: u64,
    pub pages: u64,
}

impl DeviceRange {
    /// The pages lie in the first gigabyte, above the stack, and the address of every one of
    /// them is a 64-bit number.
    pub open spec fn wf(self) -> bool {
        &&& ASLR_START <= self.virt < 0x4000_0000
        &&& one_gib(self.virt, self.pages as int)
        &&& self.pages > 0 ==> self.phys + (self.pages - 1) * PAGE_4K <= u64::MAX
    }
}

/// Number of pages that `size` bytes take up.
pub open spec fn pages_of(size: u64) -> int {
    (size + PAGE_4K - 1) / PAGE_4K as int
}

/// The lesser of two numbers.
pub open spec fn min(a: u64, b: u64) -> u64 {
    if a < b {
        a
    } else {
        b
    }
}

/// A base address register, at most `cap` bytes of it, mapped at `virt`.
pub open spec fn bar_range(bar: BarInfo, virt: u64, cap: u64) -> DeviceRange {
    DeviceRange { phys: bar.phys_base, virt, pages: pages_of(min(bar.size, cap)) as u64 }
}

/// The slice of video memory that belongs to a partition, mapped at `virt`.
pub open spec fn vram_range(bar: BarInfo, p: GpuPartition, virt: u64) -> DeviceRange {
    DeviceRange {
        phys: (bar.phys_base + p.vram_offset) as u64,
        virt,
        pages: pages_of(min(p.vram_size, MAX_VRAM_MAP)) as u64,
    }
}

pub fn count_pages(size: u64) -> (n: u64)
    ensures
        n == pages_of(size),
{
    if size % PAGE_4K == 0 {
        size / PAGE_4K
    } else {
        size / PAGE_4K + 1
    }
}

/// Device pages were mapped into the shard at `id`, and nothing else changed.
pub open spec fn device_mapped(
    s: ShardDescriptor,
    m: Seq<u64>,
    m2: Seq<u64>,
    v: FrameView,
    v2: FrameView,
    d: DeviceRange,
) -> bool {
    &&& window_mapped(m, m2, v, v2, s.pml4_phys, d.virt, d.phys, d.pages as int, DEVICE_FLAGS)
    &&& window_tables(m, m2, s.pml4_phys, d.virt, d.pages as int)
    &&& space_grown(m, m2, v, v2, s.frames(), s.frames())
}

/// Map device pages into a shard.
fn map_device(
    table: &ShardTable,
    fa: &mut FrameAllocator,
    mem: &mut Memory,
    shard_id: usize,
    d: DeviceRange,
) -> (ok: bool)
    requires
        table.wf(),
        old(fa).wf(),
        old(fa)@.within(old(mem)@.len()),
        isolated(table@, old(mem)@, old(fa)@),
        shard_id < MAX_SHARDS,
        table@[shard_id as int].live(),
        d.wf(),
        no_huge(old(mem)@, table@[shard_id as int].pml4_phys, d.virt, d.pages as int),
    ensures
        final(fa).wf(),
        final(fa)@.within(final(mem)@.len()),
        isolated(table@, final(mem)@, final(fa)@),
        ok == (old(fa)@.capacity() >= window_missing(
            old(mem)@,
            table@[shard_id as int].pml4_phys,
            d.virt,
            d.pages as int,
        )),
        !ok ==> final(mem)@ == old(mem)@ && final(fa)@ == old(fa)@,
        ok ==> device_mapped(
            table@[shard_id as int],
            old(mem)@,
            final(mem)@,
            old(fa)@,
            final(fa)@,
            d,
        ),
{
    let ghost m0 = mem@;
    let ghost v0 = fa@;
    let ghost s = table@[shard_id as int];
    let root: u64 = table.shards[shard_id].pml4_phys;
    proof {
        assert(shard_wf(s, m0, v0)) by {
            reveal(isolated);
        }
        lemma_space_tables(m0, v0, s.frames());
        lemma_low_indices(d.virt);
        lemma_device_flags();
        if d.pages > 0 {
            assert((d.pages - 1) * PAGE_4K <= d.pages * PAGE_4K);
        }
    }
    let ok = map_pages(fa, mem, root, d.virt, d.phys, d.pages, DEVICE_FLAGS);
    if ok {
        proof {
            lemma_grown_window(
                m0,
                mem@,
                v0,
                fa@,
                s.frames(),
                d.virt,
                d.phys,
                d.pages as int,
                DEVICE_FLAGS,
            );
            lemma_isolated_grown(table@, m0, mem@, v0, fa@, shard_id as int, s);
            assert(table@.update(shard_id as int, s) =~= table@);
        }
    }
    ok
}

/// Map a base address register into a shard's address space, at most `cap` bytes of it.
///
/// Pages are for user mode, not cached and not executable. They are device memory, so the
/// shard does not own them. The result is false, and nothing changes, where there are not
/// enough frames for page tables.
pub fn map_bar_to_shard(
    table: &ShardTable,
    fa: &mut FrameAllocator,
    mem: &mut Memory,
    shard_id: usize,
    bar: &BarInfo,
    virt_base: u64,
    cap: u64,
) -> (ok: bool)
    requires
        table.wf(),
        old(fa).wf(),
        old(fa)@.within(old(mem)@.len()),
        isolated(table@, old(mem)@, old(fa)@),
        shard_id < MAX_SHARDS,
        table@[shard_id as int].live(),
        bar_range(*bar, virt_base, cap).wf(),
        no_huge(
            old(mem)@,
            table@[shard_id as int].pml4_phys,
            virt_base,
            bar_range(*bar, virt_base, cap).pages as int,
        ),
    ensures
        final(fa).wf(),
        final(fa)@.within(final(mem)@.len()),
        isolated(table@, final(mem)@, final(fa)@),
        ok == (old(fa)@.capacity() >= window_missing(
            old(mem)@,
            table@[shard_id as int].pml4_phys,
            virt_base,
            bar_range(*bar, virt_base, cap).pages as int,
        )),
        !ok ==> final(mem)@ == old(mem)@ && final(fa)@ == old(fa)@,
        ok ==> device_mapped(
            table@[shard_id as int],
            old(mem)@,
            final(mem)@,
            old(fa)@,
            final(fa)@,
            bar_range(*bar, virt_base, cap),
        ),
{
    let size: u64 = if bar.size < cap {
        bar.size
    } else {
        cap
    };
    let pages: u64 = count_pages(size);
    map_device(
        table,
        fa,
        mem,
        shard_id,
        DeviceRange { phys: bar.phys_base, virt: virt_base, pages },
    )
}

/// Map a partition's slice of video memory into a shard's address space, at most
/// [`MAX_VRAM_MAP`] bytes of it.
///
/// The result is false, and nothing changes, where there are not enough frames for page
/// tables.
pub fn map_vram_partition(
    table: &ShardTable,
    fa: &mut FrameAllocator,
    mem: &mut Memory,
    shard_id: usize,
    vram_bar: &BarInfo,
    partition: &GpuPartition,
    vram_vaddr: u64,
) -> (ok: bool)
    requires
        table.wf(),
        old(fa).wf(),
        old(fa)@.within(old(mem)@.len()),
        isolated(table@, old(mem)@, old(fa)@),
        shard_id < MAX_SHARDS,
        table@[shard_id as int].live(),
        vram_bar.phys_base + partition.vram_offset <= u64::MAX,
        vram_range(*vram_bar, *partition, vram_vaddr).wf(),
        no_huge(
            old(mem)@,
            table@[shard_id as int].pml4_phys,
            vram_vaddr,
            vram_range(*vram_bar, *partition, vram_vaddr).pages as int,
        ),
    ensures
        final(fa).wf(),
        final(fa)@.within(final(mem)@.len()),
        isolated(table@, final(mem)@, final(fa)@),
        ok == (old(fa)@.capacity() >= window_missing(
            old(mem)@,
            table@[shard_id as int].pml4_phys,
            vram_vaddr,
            vram_range(*vram_bar, *partition, vram_vaddr).pages as int,
        )),
        !ok ==> final(mem)@ == old(mem)@ && final(fa)@ == old(fa)@,
        ok ==> device_mapped(
            table@[shard_id as int],
            old(mem)@,
            final(mem)@,
            old(fa)@,
            final(fa)@,
            vram_range(*vram_bar, *partition, vram_vaddr),
        ),
{
    let size: u64 = if partition.vram_size < MAX_VRAM_MAP {
        partition.vram_size
    } else {
        MAX_VRAM_MAP
    };
    let pages: u64 = count_pages(size);
    let phys: u64 = vram_bar.phys_base + partition.vram_offset;
    map_device(table, fa, mem, shard_id, DeviceRange { phys, virt: vram_vaddr, pages })
}

// ---------------------------------------------------------------------------
// The whole shard
// ---------------------------------------------------------------------------

/// Whether the pages of two ranges are different.
pub open spec fn ranges_apart(a: DeviceRange, b: DeviceRange) -> bool {
    a.virt + a.pages * PAGE_4K <= b.virt || b.virt + b.pages * PAGE_4K <= a.virt
}

/// The ranges that a shard sees its device memory in are in order.
#[verifier::opaque]
pub open spec fn seen_ok(vram: BarInfo, mmio: BarInfo, part: GpuPartition, place: (u64, u64)) -> bool {
    &&& vram.phys_base + part.vram_offset <= u64::MAX
    &&& bar_range(mmio, place.1, mmio.size).wf()
    &&& vram_range(vram, part, place.0).wf()
    &&& ranges_apart(bar_range(mmio, place.1, mmio.size), vram_range(vram, part, place.0))
}

/// Number of frames that the shard of a partition takes: those of a shard, the
/// configuration page, and a page table for each 2 MiB region that holds device pages.
#[verifier::opaque]
pub open spec fn hal_frames(pages: int, mmio: DeviceRange, vram: DeviceRange) -> int {
    let a = region_of(mmio.virt as int);
    let b = region_end(mmio.virt as int, mmio.pages as int);
    let c = region_of(vram.virt as int);
    let d = region_end(vram.virt as int, vram.pages as int);
    frames_needed(pages) + 1 + (b - a) + (d - c) - common(c, d, a, b)
}

/// The shard of a partition: code and stack as in any shard, the configuration page, and
/// the device pages; nothing else is mapped.
#[verifier::opaque]
pub open spec fn hal_shard(
    s: ShardDescriptor,
    m: Seq<u64>,
    code: Seq<u8>,
    p: GpuPartition,
    mmio: DeviceRange,
    vram: DeviceRange,
) -> bool {
    let pages = code_pages(code.len() as int);
    let f = s.frames();
    let root = s.pml4_phys;
    &&& s.frame_count == pages + 3
    &&& root == f[0]
    &&& forall|j: int|
        1 <= j <= pages ==> bytes_at(m, (#[trigger] f[j]) as int, 4096) == page_of(code, j - 1)
    &&& is_zero_page(m, f[pages + 1])
    &&& config_page(bytes_at(m, f[pages + 2] as int, 4096), p, vram.virt, mmio.virt)
    &&& leaf(m, root, GPU_CONFIG_VADDR) == Leaf::Page4K(
        pte_value(f[pages + 2], CONFIG_FLAGS | PTE_PRESENT),
    )
    &&& hal_leaves(m, root, f, pages, mmio, vram)
}

/// The device pages are mapped, and every other page but the configuration page is mapped
/// as in a new shard.
#[verifier::opaque]
pub open spec fn hal_leaves(
    m: Seq<u64>,
    root: u64,
    f: Seq<u64>,
    pages: int,
    mmio: DeviceRange,
    vram: DeviceRange,
) -> bool {
    &&& forall|j: int|
        0 <= j < mmio.pages ==> #[trigger] leaf(m, root, page(mmio.virt, j)) == Leaf::Page4K(
            pte_value(page(mmio.phys, j), DEVICE_FLAGS | PTE_PRESENT),
        )
    &&& forall|j: int|
        0 <= j < vram.pages ==> #[trigger] leaf(m, root, page(vram.virt, j)) == Leaf::Page4K(
            pte_value(page(vram.phys, j), DEVICE_FLAGS | PTE_PRESENT),
        )
    &&& forall|x: u64|
        in_half(x, 0, 256) && apart(x, mmio.virt, mmio.pages as int) && apart(
            x,
            vram.virt,
            vram.pages as int,
        ) && indices(x) != indices(GPU_CONFIG_VADDR) ==> #[trigger] leaf(m, root, x) == shard_leaf(
            f,
            pages,
            x,
        )
}

/// A shard as it is created.
#[verifier::opaque]
spec fn plain_shard(s: ShardDescriptor, m: Seq<u64>, code: Seq<u8>) -> bool {
    let pages = code_pages(code.len() as int);
    let f = s.frames();
    &&& code.len() <= 3 * 4096
    &&& s.frame_count == pages + 2
    &&& s.pml4_phys == f[0]
    &&& forall|j: int|
        1 <= j <= pages ==> bytes_at(m, (#[trigger] f[j]) as int, 4096) == page_of(code, j - 1)
    &&& is_zero_page(m, f[pages + 1])
    &&& forall|x: u64|
        in_half(x, 0, 256) ==> #[trigger] leaf(m, s.pml4_phys, x) == shard_leaf(f, pages, x)
    &&& shard_tables(m, s.pml4_phys)
}

/// Nothing but the pages of a new shard and its configuration page is mapped.
#[verifier::opaque]
spec fn plain_leaves(m: Seq<u64>, root: u64, f: Seq<u64>, pages: int) -> bool {
    forall|x: u64|
        in_half(x, 0, 256) && indices(x) != indices(GPU_CONFIG_VADDR) ==> #[trigger] leaf(
            m,
            root,
            x,
        ) == shard_leaf(f, pages, x)
}

/// The first gigabyte has no page tables above the stack.
#[verifier::opaque]
spec fn low_tables(m: Seq<u64>, root: u64) -> bool {
    &&& table_at(m, root, seq![0int]) is Some
    &&& table_at(m, root, seq![0int, 0]) is Some
    &&& forall|r: int| 4 <= r < 512 ==> (#[trigger] table_at(m, root, region_path(r))) is None
}

/// The tables of a new shard and what its configuration page needs.
proof fn lemma_config_tables(s: ShardDescriptor, m: Seq<u64>, code: Seq<u8>)
    requires
        plain_shard(s, m, code),
    ensures
        leaf(m, s.pml4_phys, GPU_CONFIG_VADDR) is Unmapped,
        missing_tables(m, s.pml4_phys, GPU_CONFIG_VADDR, 3) == 0,
        low_tables(m, s.pml4_phys),
{
    reveal(plain_shard);
    reveal(low_tables);
    let root = s.pml4_phys;
    let pages = code_pages(code.len() as int);
    lemma_low_indices(GPU_CONFIG_VADDR);
    lemma_low_indices(SHARD_STACK_VADDR);
    lemma_low_indices(SHARD_CODE_VADDR);
    let y = indices(SHARD_STACK_VADDR);
    let c = indices(SHARD_CODE_VADDR);
    assert(y[2] == 3 && y[3] == 511);
    assert(c[2] == 0 && c[3] == 1);
    assert(indices(GPU_CONFIG_VADDR)[2] == 0 && indices(GPU_CONFIG_VADDR)[3] == 4);
    assert(leaf(m, root, SHARD_STACK_VADDR) is Page4K);
    assert(table_at(m, root, y.take(3)) is Some);
    assert(y.take(3).take(1) =~= y.take(1));
    assert(y.take(3).take(2) =~= y.take(2));
    if table_at(m, root, y.take(1)) is None {
        lemma_next_table(m, root, y.take(1), y.take(3));
    }
    if table_at(m, root, y.take(2)) is None {
        lemma_next_table(m, root, y.take(2), y.take(3));
    }
    lemma_missing_last(m, root, GPU_CONFIG_VADDR);
    assert(leaf(m, root, SHARD_CODE_VADDR) is Page4K);
    assert(table_at(m, root, c.take(3)) is Some);
    assert forall|r: int| 4 <= r < 512 implies (#[trigger] table_at(
        m,
        root,
        region_path(r),
    )) is None by {
        let q = region_path(r);
        assert(q.len() == 3 && path_ok(q, 0, 256));
        assert(q[2] != region_path(0)[2] && q[2] != region_path(3)[2]);
        assert(!on_way(q, SHARD_CODE_VADDR, 3));
        assert(!on_way(q, SHARD_STACK_VADDR, 3));
    }
}

/// The regions that have a table after device pages are mapped.
proof fn lemma_device_tables(m: Seq<u64>, m2: Seq<u64>, root: u64, d: DeviceRange, r: int)
    requires
        d.wf(),
        4 <= r < 512,
        table_at(m, root, region_path(r)) is None,
        window_tables(m, m2, root, d.virt, d.pages as int),
        forall|j: int| 0 <= j < d.pages ==> #[trigger] leaf(m2, root, page(d.virt, j)) is Page4K,
    ensures
        table_at(m2, root, region_path(r)) is Some <==> region_of(d.virt as int) <= r < region_end(
            d.virt as int,
            d.pages as int,
        ),
{
    let q = region_path(r);
    let n = d.pages as int;
    lemma_low_indices(d.virt);
    assert(q.len() == 3 && path_ok(q, 0, 256));
    assert forall|j: int| 0 <= j < n implies region_of(d.virt as int) <= region_of(
        (#[trigger] page(d.virt, j)) as int,
    ) < region_end(d.virt as int, n) && page(d.virt, j) < 0x4000_0000 by {
        lemma_one_gib(d.virt, n, j);
        assert(j * PAGE_4K <= (n - 1) * PAGE_4K);
    }
    if region_of(d.virt as int) <= r < region_end(d.virt as int, n) {
        let x0 = if r == region_of(d.virt as int) {
            d.virt as int
        } else {
            r * 0x20_0000
        };
        let j = (x0 - d.virt) / 0x1000;
        assert(x0 % 0x1000 == 0);
        assert(0 <= j < n) by {
            assert(x0 <= d.virt + (n - 1) * PAGE_4K);
        }
        assert(page(d.virt, j) == x0);
        lemma_low_indices(page(d.virt, j));
        assert(region_of(x0) == r);
        assert(leaf(m2, root, page(d.virt, j)) is Page4K);
    } else {
        assert forall|j: int| 0 <= j < n implies !on_way(q, #[trigger] page(d.virt, j), 3) by {
            lemma_low_indices(page(d.virt, j));
            assert(region_path(region_of(page(d.virt, j) as int))[2] != q[2]);
        }
        reveal(window_tables);
    }
}

/// What the device pages of a new shard of a partition need.
proof fn lemma_hal_missing(
    s: ShardDescriptor,
    m1: Seq<u64>,
    m2: Seq<u64>,
    code: Seq<u8>,
    e: u64,
    mmio: DeviceRange,
    vram: DeviceRange,
)
    requires
        plain_shard(s, m1, code),
        page_mapped(m1, m2, s.pml4_phys, GPU_CONFIG_VADDR, e),
        mmio.wf(),
        vram.wf(),
    ensures
        window_missing(m2, s.pml4_phys, mmio.virt, mmio.pages as int) == region_end(
            mmio.virt as int,
            mmio.pages as int,
        ) - region_of(mmio.virt as int),
        no_huge(m2, s.pml4_phys, mmio.virt, mmio.pages as int),
        no_huge(m2, s.pml4_phys, vram.virt, vram.pages as int),
        low_tables(m2, s.pml4_phys),
        plain_leaves(m2, s.pml4_phys, s.frames(), code_pages(code.len() as int)),
        leaf(m2, s.pml4_phys, GPU_CONFIG_VADDR) == Leaf::Page4K(e),
{
    let root = s.pml4_phys;
    let f = s.frames();
    let pages = code_pages(code.len() as int);
    lemma_config_tables(s, m1, code);
    lemma_low_indices(GPU_CONFIG_VADDR);
    assert(low_tables(m2, root)) by {
        reveal(low_tables);
        reveal(page_mapped);
        assert forall|r: int| 4 <= r < 512 implies (#[trigger] table_at(
            m2,
            root,
            region_path(r),
        )) is None by {
            assert(region_path(r)[2] != region_path(0)[2]);
            assert(path_ok(region_path(r), 0, 256));
            assert(table_at(m1, root, region_path(r)) is None);
        }
        assert(path_ok(seq![0int], 0, 256));
        assert(path_ok(seq![0int, 0], 0, 256));
    }
    lemma_range_regions(mmio);
    lemma_range_regions(vram);
    assert(window_missing(m2, root, mmio.virt, mmio.pages as int) == region_end(
        mmio.virt as int,
        mmio.pages as int,
    ) - region_of(mmio.virt as int)) by {
        reveal(low_tables);
        lemma_window_regions(m2, root, mmio.virt, mmio.pages as int);
        lemma_regions_count(
            m2,
            root,
            region_of(mmio.virt as int),
            region_end(mmio.virt as int, mmio.pages as int),
            0,
            0,
        );
    }
    assert(plain_leaves(m2, root, f, pages)) by {
        reveal(plain_leaves);
        reveal(plain_shard);
        reveal(page_mapped);
        assert forall|x: u64|
            in_half(x, 0, 256) && indices(x) != indices(GPU_CONFIG_VADDR) implies #[trigger] leaf(
            m2,
            root,
            x,
        ) == shard_leaf(f, pages, x) by {
            assert(leaf(m1, root, x) == shard_leaf(f, pages, x));
        }
    }
    reveal(page_mapped);
    assert(pages <= 3) by {
        reveal(plain_shard);
    }
    lemma_range_unmapped(m2, root, f, pages, mmio);
    lemma_range_unmapped(m2, root, f, pages, vram);
}

pub proof fn lemma_range_regions(d: DeviceRange)
    requires
        d.wf(),
    ensures
        4 <= region_of(d.virt as int) <= region_end(d.virt as int, d.pages as int) <= 512,
        forall|j: int|
            0 <= j < d.pages ==> ASLR_START <= (#[trigger] page(d.virt, j)) < 0x4000_0000 && page(
                d.virt,
                j,
            ) % PAGE_4K == 0 && page(d.virt, j) == d.virt + j * PAGE_4K,
{
    if d.pages > 0 {
        lemma_one_gib(d.virt, d.pages as int, d.pages - 1);
    }
    assert forall|j: int| 0 <= j < d.pages implies ASLR_START <= (#[trigger] page(d.virt, j))
        < 0x4000_0000 && page(d.virt, j) % PAGE_4K == 0 && page(d.virt, j) == d.virt + j * PAGE_4K by {
        lemma_one_gib(d.virt, d.pages as int, j);
    }
}

/// Device pages are apart from the pages below the region for random placement.
proof fn lemma_range_low(d: DeviceRange, x: u64)
    requires
        d.wf(),
        x < ASLR_START,
        x % PAGE_4K == 0,
    ensures
        apart(x, d.virt, d.pages as int),
{
    lemma_range_regions(d);
    assert forall|j: int| 0 <= j < d.pages implies indices(x) != #[trigger] indices(
        page(d.virt, j),
    ) by {
        lemma_window_indices(x, page(d.virt, j));
    }
}

proof fn lemma_range_unmapped(m: Seq<u64>, root: u64, f: Seq<u64>, pages: int, d: DeviceRange)
    requires
        0 <= pages <= 3,
        d.wf(),
        plain_leaves(m, root, f, pages),
    ensures
        no_huge(m, root, d.virt, d.pages as int),
{
    reveal(plain_leaves);
    lemma_range_regions(d);
    lemma_low_indices(GPU_CONFIG_VADDR);
    lemma_low_indices(SHARD_STACK_VADDR);
    assert forall|j: int| 0 <= j < d.pages implies !(#[trigger] leaf(
        m,
        root,
        page(d.virt, j),
    ) is Page2M) by {
        let x = page(d.virt, j);
        lemma_low_indices(x);
        lemma_window_indices(x, GPU_CONFIG_VADDR);
        assert(leaf(m, root, x) == shard_leaf(f, pages, x));
    }
}

/// The pages of ranges that are apart are different.
proof fn lemma_ranges_apart(a: DeviceRange, b: DeviceRange, j: int)
    requires
        a.wf(),
        b.wf(),
        ranges_apart(a, b),
        0 <= j < a.pages,
    ensures
        apart(page(a.virt, j), b.virt, b.pages as int),
{
    lemma_range_regions(a);
    lemma_range_regions(b);
    let x = page(a.virt, j);
    assert(j * PAGE_4K + PAGE_4K <= a.pages * PAGE_4K);
    assert forall|k: int| 0 <= k < b.pages implies indices(x) != #[trigger] indices(
        page(b.virt, k),
    ) by {
        assert(k * PAGE_4K + PAGE_4K <= b.pages * PAGE_4K);
        lemma_window_indices(x, page(b.virt, k));
    }
}

/// What the video memory of a new shard of a partition needs, after its device registers.
proof fn lemma_vram_missing(
    m2: Seq<u64>,
    m3: Seq<u64>,
    v2: FrameView,
    v3: FrameView,
    s: ShardDescriptor,
    mmio: DeviceRange,
    vram: DeviceRange,
)
    requires
        mmio.wf(),
        vram.wf(),
        ranges_apart(mmio, vram),
        device_mapped(s, m2, m3, v2, v3, mmio),
        low_tables(m2, s.pml4_phys),
        no_huge(m2, s.pml4_phys, vram.virt, vram.pages as int),
    ensures
        ({
            let a = region_of(mmio.virt as int);
            let b = region_end(mmio.virt as int, mmio.pages as int);
            let c = region_of(vram.virt as int);
            let d = region_end(vram.virt as int, vram.pages as int);
            window_missing(m3, s.pml4_phys, vram.virt, vram.pages as int) == (d - c) - common(
                c,
                d,
                a,
                b,
            )
        }),
        no_huge(m3, s.pml4_phys, vram.virt, vram.pages as int),
        v3.capacity() == v2.capacity() - window_missing(
            m2,
            s.pml4_phys,
            mmio.virt,
            mmio.pages as int,
        ),
{
    let root = s.pml4_phys;
    let c = region_of(vram.virt as int);
    let d = region_end(vram.virt as int, vram.pages as int);
    reveal(low_tables);
    lemma_range_regions(mmio);
    lemma_range_regions(vram);
    lemma_low_indices(mmio.virt);
    lemma_low_indices(vram.virt);
    assert(table_at(m3, root, seq![0int]) is Some && table_at(m3, root, seq![0int, 0]) is Some) by {
        reveal(window_mapped);
        assert(path_ok(seq![0int], 0, 256));
        assert(path_ok(seq![0int, 0], 0, 256));
    }
    assert(forall|j: int|
        0 <= j < mmio.pages ==> #[trigger] leaf(m3, root, page(mmio.virt, j)) is Page4K) by {
        reveal(window_mapped);
    }
    assert forall|r: int| c <= r < d implies ((#[trigger] table_at(
        m3,
        root,
        region_path(r),
    )) is Some <==> region_of(mmio.virt as int) <= r < region_end(
        mmio.virt as int,
        mmio.pages as int,
    )) by {
        lemma_device_tables(m2, m3, root, mmio, r);
    }
    lemma_window_regions(m3, root, vram.virt, vram.pages as int);
    lemma_regions_count(
        m3,
        root,
        c,
        d,
        region_of(mmio.virt as int),
        region_end(mmio.virt as int, mmio.pages as int),
    );
    assert forall|j: int| 0 <= j < vram.pages implies !(#[trigger] leaf(
        m3,
        root,
        page(vram.virt, j),
    ) is Page2M) by {
        lemma_ranges_apart(vram, mmio, j);
        lemma_low_indices(page(vram.virt, j));
        assert(!(leaf(m2, root, page(vram.virt, j)) is Page2M));
        reveal(window_mapped);
    }
    reveal(window_mapped);
}

/// What the shard of a partition maps once it is complete.
proof fn lemma_hal_leaves(
    m2: Seq<u64>,
    m3: Seq<u64>,
    m4: Seq<u64>,
    v2: FrameView,
    v3: FrameView,
    v4: FrameView,
    s: ShardDescriptor,
    f: Seq<u64>,
    pages: int,
    e: u64,
    mmio: DeviceRange,
    vram: DeviceRange,
)
    requires
        mmio.wf(),
        vram.wf(),
        ranges_apart(mmio, vram),
        device_mapped(s, m2, m3, v2, v3, mmio),
        device_mapped(s, m3, m4, v3, v4, vram),
        leaf(m2, s.pml4_phys, GPU_CONFIG_VADDR) == Leaf::Page4K(e),
        plain_leaves(m2, s.pml4_phys, f, pages),
    ensures
        leaf(m4, s.pml4_phys, GPU_CONFIG_VADDR) == Leaf::Page4K(e),
        hal_leaves(m4, s.pml4_phys, f, pages, mmio, vram),
{
    let root = s.pml4_phys;
    reveal(window_mapped);
    reveal(plain_leaves);
    reveal(hal_leaves);
    lemma_low_indices(mmio.virt);
    lemma_low_indices(vram.virt);
    lemma_low_indices(GPU_CONFIG_VADDR);
    lemma_range_low(mmio, GPU_CONFIG_VADDR);
    lemma_range_low(vram, GPU_CONFIG_VADDR);
    assert(leaf(m3, root, GPU_CONFIG_VADDR) == Leaf::Page4K(e));
    assert forall|j: int| 0 <= j < mmio.pages implies #[trigger] leaf(
        m4,
        root,
        page(mmio.virt, j),
    ) == Leaf::Page4K(pte_value(page(mmio.phys, j), DEVICE_FLAGS | PTE_PRESENT)) by {
        lemma_ranges_apart(mmio, vram, j);
        lemma_range_regions(mmio);
        lemma_low_indices(page(mmio.virt, j));
        assert(leaf(m3, root, page(mmio.virt, j)) is Page4K);
    }
    assert forall|x: u64|
        in_half(x, 0, 256) && apart(x, mmio.virt, mmio.pages as int) && apart(
            x,
            vram.virt,
            vram.pages as int,
        ) && indices(x) != indices(GPU_CONFIG_VADDR) implies #[trigger] leaf(m4, root, x)
        == shard_leaf(f, pages, x) by {
        assert(leaf(m3, root, x) == leaf(m2, root, x));
    }
}

/// Frames that hold data keep it while an address space grows.
proof fn lemma_bytes_kept(
    m: Seq<u64>,
    m2: Seq<u64>,
    v: FrameView,
    v2: FrameView,
    f: Seq<u64>,
    f2: Seq<u64>,
    i: int,
)
    requires
        space_wf(m, v, f),
        space_grown(m, m2, v, v2, f, f2),
        1 <= i < f.len(),
    ensures
        bytes_at(m2, f[i] as int, 4096) == bytes_at(m, f[i] as int, 4096),
        f2[i] == f[i],
{
    assert(same_frame(m, m2, f[i]) && frame_ok(m, f[i])) by {
        reveal(space_grown);
        reveal(space_wf);
    }
    assert(f2[i] == f[i]) by {
        reveal(space_grown);
        assert(f2.take(f.len() as int)[i] == f[i]);
    }
    lemma_same_bytes(m, m2, f[i]);
}

/// Number of 2 MiB regions that device pages touch, and the first of them.
fn regions(d: &DeviceRange) -> (r: (u64, u64))
    requires
        d.wf(),
    ensures
        r.0 == region_of(d.virt as int),
        r.1 == region_end(d.virt as int, d.pages as int),
{
    proof {
        lemma_range_regions(*d);
    }
    let first: u64 = d.virt / 0x20_0000;
    if d.pages == 0 {
        (first, first)
    } else {
        proof {
            lemma_one_gib(d.virt, d.pages as int, d.pages - 1);
        }
        (first, (d.virt + (d.pages - 1) * PAGE_4K) / 0x20_0000 + 1)
    }
}

/// Count the frames that the shard of a partition takes.
pub fn count_hal_frames(code_len: usize, mmio: &DeviceRange, vram: &DeviceRange) -> (n: u64)
    requires
        code_len <= 3 * 4096,
        mmio.wf(),
        vram.wf(),
    ensures
        n == hal_frames(code_pages(code_len as int), *mmio, *vram),
        n <= 2000,
{
    proof {
        reveal(hal_frames);
        lemma_range_regions(*mmio);
        lemma_range_regions(*vram);
    }
    let pages: u64 = if code_len <= 4096 {
        1
    } else {
        (code_len as u64 + 4095) / 4096
    };
    let (a, b) = regions(mmio);
    let (c, d) = regions(vram);
    let lo: u64 = if c > a {
        c
    } else {
        a
    };
    let hi: u64 = if d < b {
        d
    } else {
        b
    };
    let shared: u64 = if hi > lo {
        hi - lo
    } else {
        0
    };
    pages + 7 + (b - a) + (d - c) - shared
}

/// Number of frames that a shard takes in addition for a partition.
spec fn extra_frames(pages: int, mmio: DeviceRange, vram: DeviceRange) -> int {
    hal_frames(pages, mmio, vram) - frames_needed(pages)
}

/// Give a new shard its configuration page and its device memory.
fn equip_shard(
    table: &mut ShardTable,
    fa: &mut FrameAllocator,
    mem: &mut Memory,
    id: usize,
    partition: &GpuPartition,
    mmio_bar: &BarInfo,
    mmio_vaddr: u64,
    vram_bar: &BarInfo,
    vram_vaddr: u64,
    Ghost(code): Ghost<Seq<u8>>,
)
    requires
        old(table).wf(),
        old(fa).wf(),
        old(fa)@.within(old(mem)@.len()),
        isolated(old(table)@, old(mem)@, old(fa)@),
        id < MAX_SHARDS,
        old(table)@[id as int].live(),
        plain_shard(old(table)@[id as int], old(mem)@, code),
        seen_ok(*vram_bar, *mmio_bar, *partition, (vram_vaddr, mmio_vaddr)),
        old(fa)@.capacity() >= extra_frames(
            code_pages(code.len() as int),
            bar_range(*mmio_bar, mmio_vaddr, mmio_bar.size),
            vram_range(*vram_bar, *partition, vram_vaddr),
        ),
    ensures
        final(table).wf(),
        final(table).current == old(table).current,
        final(fa).wf(),
        final(fa)@.within(final(mem)@.len()),
        isolated(final(table)@, final(mem)@, final(fa)@),
        ({
            let mmio = bar_range(*mmio_bar, mmio_vaddr, mmio_bar.size);
            let vram = vram_range(*vram_bar, *partition, vram_vaddr);
            let s = old(table)@[id as int];
            let s2 = final(table)@[id as int];
            &&& final(table)@ == old(table)@.update(id as int, s2)
            &&& s2 == (ShardDescriptor {
                allocated_frames: s2.allocated_frames,
                frame_count: s2.frame_count,
                ..s
            })
            &&& hal_shard(s2, final(mem)@, code, *partition, mmio, vram)
            &&& space_grown(
                old(mem)@,
                final(mem)@,
                old(fa)@,
                final(fa)@,
                s.frames(),
                s2.frames(),
            )
            &&& final(fa)@.capacity() == old(fa)@.capacity() - extra_frames(
                code_pages(code.len() as int),
                mmio,
                vram,
            )
        }),
{
    let ghost m1 = mem@;
    let ghost v1 = fa@;
    let ghost t1 = table@;
    let ghost s1 = table@[id as int];
    let ghost mmio = bar_range(*mmio_bar, mmio_vaddr, mmio_bar.size);
    let ghost vram = vram_range(*vram_bar, *partition, vram_vaddr);
    let ghost pages = code_pages(code.len() as int);
    proof {
        reveal(hal_frames);
        reveal(seen_ok);
        lemma_config_tables(s1, m1, code);
        lemma_range_regions(mmio);
        lemma_range_regions(vram);
        assert(s1.frame_count == pages + 2 && pages <= 3) by {
            reveal(plain_shard);
        }
        assert(space_wf(m1, v1, s1.frames())) by {
            reveal(isolated);
        }
    }
    let ok = create_config_page(table, fa, mem, id, partition, vram_vaddr, mmio_vaddr);
    assert(ok);
    let ghost m2 = mem@;
    let ghost v2 = fa@;
    let ghost s2 = table@[id as int];
    let ghost p = s2.frames()[s1.frame_count as int];
    let ghost e = pte_value(p, CONFIG_FLAGS | PTE_PRESENT);
    proof {
        lemma_hal_missing(s1, m1, m2, code, e, mmio, vram);
    }
    let ok = map_bar_to_shard(table, fa, mem, id, mmio_bar, mmio_vaddr, mmio_bar.size);
    assert(ok);
    let ghost m3 = mem@;
    let ghost v3 = fa@;
    proof {
        lemma_vram_missing(m2, m3, v2, v3, s2, mmio, vram);
    }
    let ok = map_vram_partition(table, fa, mem, id, vram_bar, partition, vram_vaddr);
    assert(ok);
    proof {
        let m4 = mem@;
        let v4 = fa@;
        lemma_hal_leaves(m2, m3, m4, v2, v3, v4, s2, s1.frames(), pages, e, mmio, vram);
        lemma_hal_complete(m1, m2, m3, m4, v1, v2, v3, v4, s1, s2, code, *partition, mmio, vram);
        lemma_grown_twice(m1, m2, m3, v1, v2, v3, s1.frames(), s2.frames(), s2.frames());
        lemma_grown_twice(m1, m3, m4, v1, v3, v4, s1.frames(), s2.frames(), s2.frames());
        assert(v4.capacity() == v3.capacity() - window_missing(
            m3,
            s2.pml4_phys,
            vram.virt,
            vram.pages as int,
        )) by {
            reveal(window_mapped);
        }
    }
}

/// The shard of a partition is complete.
proof fn lemma_hal_complete(
    m1: Seq<u64>,
    m2: Seq<u64>,
    m3: Seq<u64>,
    m4: Seq<u64>,
    v1: FrameView,
    v2: FrameView,
    v3: FrameView,
    v4: FrameView,
    s1: ShardDescriptor,
    s: ShardDescriptor,
    code: Seq<u8>,
    part: GpuPartition,
    mmio: DeviceRange,
    vram: DeviceRange,
)
    requires
        plain_shard(s1, m1, code),
        s.pml4_phys == s1.pml4_phys,
        s.frame_count == s1.frame_count + 1,
        s.frames() == s1.frames().push(s.frames()[s1.frame_count as int]),
        space_wf(m1, v1, s1.frames()),
        space_grown(m1, m2, v1, v2, s1.frames(), s.frames()),
        space_grown(m2, m3, v2, v3, s.frames(), s.frames()),
        space_grown(m3, m4, v3, v4, s.frames(), s.frames()),
        config_page(
            bytes_at(m2, s.frames()[s1.frame_count as int] as int, 4096),
            part,
            vram.virt,
            mmio.virt,
        ),
        leaf(m4, s.pml4_phys, GPU_CONFIG_VADDR) == Leaf::Page4K(
            pte_value(s.frames()[s1.frame_count as int], CONFIG_FLAGS | PTE_PRESENT),
        ),
        hal_leaves(
            m4,
            s.pml4_phys,
            s1.frames(),
            code_pages(code.len() as int),
            mmio,
            vram,
        ),
    ensures
        hal_shard(s, m4, code, part, mmio, vram),
{
    reveal(plain_shard);
    let pages = code_pages(code.len() as int);
    let f1 = s1.frames();
    let f = s.frames();
    assert(space_wf(m2, v2, f) && space_wf(m3, v3, f)) by {
        reveal(space_grown);
    }
    assert forall|j: int| 1 <= j < f.len() implies bytes_at(m4, (#[trigger] f[j]) as int, 4096)
        == bytes_at(m2, f[j] as int, 4096) by {
        lemma_bytes_kept(m2, m3, v2, v3, f, f, j);
        lemma_bytes_kept(m3, m4, v3, v4, f, f, j);
    }
    assert forall|j: int| 1 <= j <= pages + 1 implies bytes_at(m4, (#[trigger] f[j]) as int, 4096)
        == bytes_at(m1, f1[j] as int, 4096) by {
        lemma_bytes_kept(m1, m2, v1, v2, f1, f, j);
        assert(f[j] == f1[j]);
    }
    assert(f[0] == f1[0] && f[pages + 1] == f1[pages + 1]);
    assert forall|j: int| 1 <= j <= pages implies bytes_at(m4, (#[trigger] f[j]) as int, 4096)
        == page_of(code, j - 1) by {
        assert(bytes_at(m1, f1[j] as int, 4096) == page_of(code, j - 1));
    }
    assert(hal_leaves(m4, s.pml4_phys, f, pages, mmio, vram)) by {
        reveal(hal_leaves);
        assert forall|x: u64|
            in_half(x, 0, 256) && apart(x, mmio.virt, mmio.pages as int) && apart(
                x,
                vram.virt,
                vram.pages as int,
            ) && indices(x) != indices(GPU_CONFIG_VADDR) implies #[trigger] leaf(
            m4,
            s.pml4_phys,
            x,
        ) == shard_leaf(f, pages, x) by {
            assert(leaf(m4, s.pml4_phys, x) == shard_leaf(f1, pages, x));
            let i = indices(x)[3];
            if 1 <= i <= pages {
                assert(f[i] == f1[i]);
            }
        }
    }
    reveal(hal_shard);
}

/// Create the shard of a partition: load its code, make its configuration page, and map
/// its device registers and its slice of video memory.
///
/// There is no result, and nothing changes, where no slot is free or there are not enough
/// frames.
#[verifier::rlimit(40)]
pub fn create_hal_shard(
    table: &mut ShardTable,
    fa: &mut FrameAllocator,
    mem: &mut Memory,
    sup_pml4: u64,
    code: &[u8],
    kernel_stack_top: u64,
    partition: &GpuPartition,
    mmio_bar: &BarInfo,
    mmio_vaddr: u64,
    vram_bar: &BarInfo,
    vram_vaddr: u64,
) -> (r: Option<usize>)
    requires
        old(table).wf(),
        old(fa).wf(),
        old(fa)@.within(old(mem)@.len()),
        isolated(old(table)@, old(mem)@, old(fa)@),
        frame_ok(old(mem)@, sup_pml4),
        !old(fa)@.avail(sup_pml4),
        code@.len() <= 3 * 4096,
        seen_ok(*vram_bar, *mmio_bar, *partition, (vram_vaddr, mmio_vaddr)),
    ensures
        final(table).wf(),
        final(table).current == old(table).current,
        final(fa).wf(),
        final(fa)@.within(final(mem)@.len()),
        isolated(final(table)@, final(mem)@, final(fa)@),
        ({
            let mmio = bar_range(*mmio_bar, mmio_vaddr, mmio_bar.size);
            let vram = vram_range(*vram_bar, *partition, vram_vaddr);
            let needed = hal_frames(code_pages(code@.len() as int), mmio, vram);
            &&& r is Some <==> first_free(old(table)@, 0) < MAX_SHARDS && old(fa)@.capacity()
                >= needed
            &&& match r {
                None => final(table)@ == old(table)@ && final(mem)@ == old(mem)@ && final(fa)@
                    == old(fa)@,
                Some(id) => {
                    let s = final(table)@[id as int];
                    &&& id == first_free(old(table)@, 0)
                    &&& final(table)@ == old(table)@.update(id as int, s)
                    &&& s.state == ShardState::Ready
                    &&& s.priority == Priority::High
                    &&& s.kernel_stack_top == kernel_stack_top
                    &&& s.fresh()
                    &&& hal_shard(s, final(mem)@, code@, *partition, mmio, vram)
                    &&& ways_open(final(mem)@, s.pml4_phys, 0, 256, PARENT_FLAGS)
                    &&& space_made(
                        old(mem)@,
                        final(mem)@,
                        old(fa)@,
                        final(fa)@,
                        s.frames(),
                        sup_pml4,
                    )
                    &&& final(fa)@.capacity() == old(fa)@.capacity() - needed
                },
            }
        }),
{
    let ghost m0 = mem@;
    let ghost v0 = fa@;
    let ghost t0 = table@;
    let ghost mmio = bar_range(*mmio_bar, mmio_vaddr, mmio_bar.size);
    let ghost vram = vram_range(*vram_bar, *partition, vram_vaddr);
    let ghost pages = code_pages(code@.len() as int);
    proof {
        reveal(seen_ok);
        lemma_range_regions(mmio);
        lemma_range_regions(vram);
    }
    let vram_size: u64 = if partition.vram_size < MAX_VRAM_MAP {
        partition.vram_size
    } else {
        MAX_VRAM_MAP
    };
    let mmio_pages: u64 = count_pages(mmio_bar.size);
    let vram_pages: u64 = count_pages(vram_size);
    let needed: u64 = count_hal_frames(
        code.len(),
        &DeviceRange { phys: mmio_bar.phys_base, virt: mmio_vaddr, pages: mmio_pages },
        &DeviceRange {
            phys: vram_bar.phys_base + partition.vram_offset,
            virt: vram_vaddr,
            pages: vram_pages,
        },
    );
    if !has_frames(fa, needed) {
        return None;
    }
    assert(needed >= frames_needed(pages)) by {
        reveal(hal_frames);
    }
    let id: usize = match create(table, fa, mem, sup_pml4, code, Priority::High, kernel_stack_top) {
        Some(id) => id,
        None => {
            return None;
        },
    };
    let ghost m1 = mem@;
    let ghost v1 = fa@;
    let ghost s1 = table@[id as int];
    proof {
        assert(plain_shard(s1, m1, code@)) by {
            reveal(plain_shard);
        }
    }
    equip_shard(
        table,
        fa,
        mem,
        id,
        partition,
        mmio_bar,
        mmio_vaddr,
        vram_bar,
        vram_vaddr,
        Ghost(code@),
    );
    proof {
        let s2 = table@[id as int];
        lemma_made_grown(m0, m1, mem@, v0, v1, fa@, s1.frames(), s2.frames(), sup_pml4);
        assert(table@ =~= t0.update(id as int, s2));
        assert(shard_wf(s2, mem@, fa@)) by {
            reveal(isolated);
        }
        lemma_space_tables(mem@, fa@, s2.frames());
    }
    Some(id)
}

/// The shard of a partition is the same where another shard is created.
pub proof fn lemma_hal_kept(
    s: ShardDescriptor,
    m: Seq<u64>,
    m2: Seq<u64>,
    v: FrameView,
    v2: FrameView,
    f2: Seq<u64>,
    sup: u64,
    code: Seq<u8>,
    p: GpuPartition,
    mmio: DeviceRange,
    vram: DeviceRange,
)
    requires
        code.len() <= 3 * 4096,
        mmio.wf(),
        vram.wf(),
        space_wf(m, v, s.frames()),
        space_made(m, m2, v, v2, f2, sup),
        hal_shard(s, m, code, p, mmio, vram),
    ensures
        hal_shard(s, m2, code, p, mmio, vram),
{
    let f = s.frames();
    let pages = code_pages(code.len() as int);
    lemma_claimed(m, v, f);
    assert(m2.len() == m.len()) by {
        reveal(space_made);
    }
    assert forall|x: u64| #[trigger] claimed(m, f).contains(x) implies same_frame(m, m2, x)
        && !v2.avail(x) && v2.owns(x) by {
        reveal(space_made);
        assert forall|w: int| in_frame(w, x) implies #[trigger] m2[w] == m[w] by {
            lemma_free_frame_apart(m, v, x, w);
        }
    }
    lemma_space_kept(m, m2, v, v2, f);
    assert forall|j: int| 1 <= j < f.len() implies bytes_at(m2, (#[trigger] f[j]) as int, 4096)
        == bytes_at(m, f[j] as int, 4096) by {
        assert(claimed(m, f).contains(f[j]));
        lemma_same_bytes(m, m2, f[j]);
    }
    lemma_low_indices(GPU_CONFIG_VADDR);
    lemma_range_regions(mmio);
    lemma_range_regions(vram);
    reveal(hal_shard);
    assert(f.len() == pages + 3);
    assert(hal_leaves(m2, s.pml4_phys, f, pages, mmio, vram)
        && leaf(m2, s.pml4_phys, GPU_CONFIG_VADDR) == leaf(m, s.pml4_phys, GPU_CONFIG_VADDR)) by {
        reveal(hal_leaves);
        reveal(same_leaves);
        assert forall|j: int| 0 <= j < mmio.pages implies #[trigger] leaf(
            m2,
            s.pml4_phys,
            page(mmio.virt, j),
        ) == leaf(m, s.pml4_phys, page(mmio.virt, j)) by {
            lemma_low_indices(page(mmio.virt, j));
        }
        assert forall|j: int| 0 <= j < vram.pages implies #[trigger] leaf(
            m2,
            s.pml4_phys,
            page(vram.virt, j),
        ) == leaf(m, s.pml4_phys, page(vram.virt, j)) by {
            lemma_low_indices(page(vram.virt, j));
        }
    }
}

// ---------------------------------------------------------------------------
// Laws
// ---------------------------------------------------------------------------

/// Whether the entry leads to one of the device's pages.
pub open spec fn device_entry(d: DeviceRange, e: u64) -> bool {
    exists|j: int|
        0 <= j < d.pages && e == pte_value(#[trigger] page(d.phys, j), DEVICE_FLAGS | PTE_PRESENT)
}

/// Every page that the shard of a partition can reach lies in a data frame of its own or
/// belongs to the registers or the video memory that were given to it, and none of them is both
/// writable and executable.
pub proof fn law_hal_pages(
    s: ShardDescriptor,
    m: Seq<u64>,
    v: FrameView,
    code: Seq<u8>,
    p: GpuPartition,
    mmio: DeviceRange,
    vram: DeviceRange,
    x: u64,
)
    requires
        v.wf(),
        shard_wf(s, m, v),
        hal_shard(s, m, code, p, mmio, vram),
        in_half(x, 0, 256),
    ensures
        leaf(m, s.pml4_phys, x) matches Leaf::Page4K(e) ==> {
            &&& !(writable(e) && executable(e))
            &&& data_frame(s.frames(), pte_addr(e)) || device_entry(mmio, e) || device_entry(vram, e)
        },
        !(leaf(m, s.pml4_phys, x) is Page2M),
{
    reveal(hal_shard);
    reveal(hal_leaves);
    lemma_device_flags();
    lemma_shard_flags();
    let f = s.frames();
    let root = s.pml4_phys;
    let pages = code_pages(code.len() as int);
    if !apart(x, mmio.virt, mmio.pages as int) {
        let j = choose|j: int|
            0 <= j < mmio.pages && indices(x) == #[trigger] indices(page(mmio.virt, j));
        assert(leaf(m, root, x) == leaf(m, root, page(mmio.virt, j)));
        lemma_entry_bits(page(mmio.phys, j), DEVICE_FLAGS);
    } else if !apart(x, vram.virt, vram.pages as int) {
        let j = choose|j: int|
            0 <= j < vram.pages && indices(x) == #[trigger] indices(page(vram.virt, j));
        assert(leaf(m, root, x) == leaf(m, root, page(vram.virt, j)));
        lemma_entry_bits(page(vram.phys, j), DEVICE_FLAGS);
    } else if indices(x) == indices(GPU_CONFIG_VADDR) {
        assert(leaf(m, root, x) == leaf(m, root, GPU_CONFIG_VADDR));
        lemma_own_frame(m, v, f, pages + 2, CONFIG_FLAGS);
    } else {
        let q = indices(x);
        assert(leaf(m, root, x) == shard_leaf(f, pages, x));
        if q == indices(SHARD_STACK_VADDR) {
            lemma_own_frame(m, v, f, pages + 1, STACK_FLAGS);
        } else if leaf(m, root, x) is Page4K {
            lemma_own_frame(m, v, f, q[3], CODE_FLAGS);
        }
    }
}

} // verus!
