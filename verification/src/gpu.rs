//! The GPU: partitions of its video memory, what a shard may do with them, and copies
//! between them.
//!
//! Video memory and compute units are split evenly. Each partition has a shard of its own,
//! which sees only its slice. Data moves between partitions through the supervisor alone,
//! by capability and within what both shards have unveiled.

use vstd::prelude::*;

use crate::aslr::{draws, law_placement_apart, place, placeable, placement, tries, Prng, ASLR_END};
use crate::aslr::ASLR_START;
use crate::capability::{check, first_empty, grant_to_shard, holds};
use crate::channel::{init as channel_init, ChannelTable, ChannelView};
use crate::frame::{has_frames, FrameAllocator, FrameView};
use crate::hal::{bar_range, count_hal_frames, count_pages, create_hal_shard, device_entry};
use crate::hal::{hal_frames, hal_shard, lemma_device_flags, lemma_hal_kept, lemma_range_regions};
use crate::hal::{min, pages_of, seen_ok, vram_range, DeviceRange, DEVICE_FLAGS, MAX_VRAM_MAP};
use crate::kernel::{kernel_ok, lemma_kernel_made, lemma_kernel_root, lemma_kernel_same};
use crate::kernel::lemma_kernel_window;
use crate::mem::Memory;
use crate::pci::BarInfo;
use crate::shard::{code_pages, find_free, first_free, isolated, lemma_first_free_next};
use crate::shard::{lemma_isolated_made, lemma_isolated_same, shard_wf, space_made, CapEntry};
use crate::shard::{Priority, ShardDescriptor, ShardState, ShardTable, MAX_CAPS_PER_SHARD};
use crate::shard::MAX_SHARDS;
use crate::shared::{CAP_CHANNEL, CAP_GPU_DMA, RIGHT_CHANNEL_RECV, RIGHT_CHANNEL_SEND};
use crate::shared::RIGHT_GPU_DMA_WRITE;
use crate::space::space_wf;
use crate::vmm::{in_half, law_entry_round_trip, leaf, lemma_present_flag, pte_addr, pte_value};
use crate::vmm::{same_leaves, tree_wf, Leaf, PAGE_4K, PTE_ADDR_MASK, PTE_PRESENT};
use crate::vram::zero_bytes;
use crate::window::{lemma_top_gib, map_mmio, mmio_fits, mmio_needs, page, pages_for, window_mapped};
use crate::window::{window_missing, MmioWindow, MMIO_FLAGS, MMIO_VIRT_BASE};

verus! {

/// Number of partitions.
pub const MAX_GPU_PARTITIONS: usize = 2;

/// Number of compute units that the partitions share.
pub const TOTAL_VIRTUAL_CUS: u32 = 8;

/// A slice of the GPU.
#[derive(Debug, Clone, Copy, PartialEq, Eq, Structural)]
pub struct GpuPartition {
    pub vram_offset: u64,
    pub vram_size: u64,
    pub cu_count: u32,
    pub id: u32,
    /// The shard that the partition is for.
    pub owner_shard: Option<usize>,
}

impl GpuPartition {
    /// No part of the GPU.
    pub open spec fn spec_empty() -> GpuPartition {
        GpuPartition { vram_offset: 0, vram_size: 0, cu_count: 0, id: 0, owner_shard: None }
    }

    /// Whether byte number `a` of video memory is in the partition.
    pub open spec fn has(self, a: int) -> bool {
        self.vram_offset <= a < self.vram_offset + self.vram_size
    }
}

/// The partitions in use.
#[derive(Debug)]
pub struct Gpu {
    partitions: [GpuPartition; MAX_GPU_PARTITIONS],
    partition_count: usize,
}

impl View for Gpu {
    type V = Seq<GpuPartition>;

    closed spec fn view(&self) -> Seq<GpuPartition> {
        self.partitions@.take(self.partition_count as int)
    }
}

/// No byte of video memory is in two partitions, and the owners are shards.
pub open spec fn partitions_wf(ps: Seq<GpuPartition>) -> bool {
    &&& forall|i: int|
        0 <= i < ps.len() ==> (#[trigger] ps[i]).vram_offset + ps[i].vram_size <= u64::MAX
    &&& forall|i: int|
        0 <= i < ps.len() ==> ((#[trigger] ps[i]).owner_shard matches Some(id) ==> id < MAX_SHARDS)
    &&& forall|i: int, j: int, a: int|
        0 <= i < ps.len() && 0 <= j < ps.len() && i != j ==> !((#[trigger] ps[i].has(a)) && (
        #[trigger] ps[j].has(a)))
}

/// Whether all partitions lie in the first `size` bytes of video memory.
pub open spec fn partitions_within(ps: Seq<GpuPartition>, size: int) -> bool {
    forall|i: int| 0 <= i < ps.len() ==> (#[trigger] ps[i]).vram_offset + ps[i].vram_size <= size
}

/// Partition number `i` of `vram_size` bytes of video memory, for no shard yet.
pub open spec fn partition(vram_size: u64, i: int) -> GpuPartition {
    let share = vram_size as int / MAX_GPU_PARTITIONS as int;
    GpuPartition {
        vram_offset: (i * share) as u64,
        vram_size: share as u64,
        cu_count: (TOTAL_VIRTUAL_CUS / MAX_GPU_PARTITIONS as u32) as u32,
        id: i as u32,
        owner_shard: None,
    }
}

impl Gpu {
    /// Partitions that are as they should be.
    pub closed spec fn wf(&self) -> bool {
        &&& self.partition_count <= MAX_GPU_PARTITIONS
        &&& partitions_wf(self@)
    }

    pub proof fn lemma_wf(&self)
        requires
            self.wf(),
        ensures
            self@.len() <= MAX_GPU_PARTITIONS,
            partitions_wf(self@),
    {
    }

    /// No partition.
    pub fn new() -> (g: Gpu)
        ensures
            g.wf(),
            g@ == Seq::<GpuPartition>::empty(),
    {
        let p = GpuPartition {
            vram_offset: 0,
            vram_size: 0,
            cu_count: 0,
            id: 0,
            owner_shard: None,
        };
        let g = Gpu { partitions: [p;MAX_GPU_PARTITIONS], partition_count: 0 };
        assert(g@ =~= Seq::<GpuPartition>::empty());
        g
    }

    /// Number of partitions.
    pub fn partition_count(&self) -> (n: usize)
        requires
            self.wf(),
        ensures
            n == self@.len(),
    {
        self.partition_count
    }

    /// Partition number `i`.
    pub fn partition(&self, i: usize) -> (p: GpuPartition)
        requires
            self.wf(),
            i < self@.len(),
        ensures
            p == self@[i as int],
    {
        self.partitions[i]
    }

    /// Give partition number `i` to a shard.
    pub fn set_owner(&mut self, i: usize, id: usize)
        requires
            old(self).wf(),
            i < old(self)@.len(),
            id < MAX_SHARDS,
        ensures
            final(self).wf(),
            final(self)@ == old(self)@.update(
                i as int,
                (GpuPartition { owner_shard: Some(id), ..old(self)@[i as int] }),
            ),
    {
        let ghost before = self@;
        self.partitions[i].owner_shard = Some(id);
        proof {
            let p = GpuPartition { owner_shard: Some(id), ..before[i as int] };
            assert(self@ =~= before.update(i as int, p));
            assert forall|a: int, b: int, x: int|
                0 <= a < self@.len() && 0 <= b < self@.len() && a != b implies !((
            #[trigger] self@[a].has(x)) && (#[trigger] self@[b].has(x))) by {
                assert(self@[a].has(x) == before[a].has(x));
                assert(self@[b].has(x) == before[b].has(x));
            }
        }
    }
}

impl Gpu {
    /// Take partition number `i` back from its shard.
    fn disown(&mut self, i: usize)
        requires
            old(self).wf(),
            i < old(self)@.len(),
        ensures
            final(self).wf(),
            final(self)@ == old(self)@.update(i as int, disowned(old(self)@[i as int])),
    {
        let ghost before = self@;
        self.partitions[i].owner_shard = None;
        proof {
            assert(self@ =~= before.update(i as int, disowned(before[i as int])));
            assert forall|a: int, b: int, x: int|
                0 <= a < self@.len() && 0 <= b < self@.len() && a != b implies !((
            #[trigger] self@[a].has(x)) && (#[trigger] self@[b].has(x))) by {
                assert(self@[a].has(x) == before[a].has(x));
                assert(self@[b].has(x) == before[b].has(x));
            }
        }
    }
}

/// The partition without an owner.
pub open spec fn disowned(p: GpuPartition) -> GpuPartition {
    GpuPartition { owner_shard: None, ..p }
}

/// Whether the shard that the partition is for has exited.
pub open spec fn left_behind(p: GpuPartition, t: Seq<ShardDescriptor>) -> bool {
    p.owner_shard matches Some(id) && t[id as int].state == ShardState::Exited
}

/// Whether byte number `a` of video memory is in one of the first `n` partitions and the
/// partition's shard has exited.
pub open spec fn abandoned(ps: Seq<GpuPartition>, t: Seq<ShardDescriptor>, n: int, a: int) -> bool {
    exists|i: int| 0 <= i < n && (#[trigger] ps[i]).has(a) && left_behind(ps[i], t)
}

/// Clear the partitions of shards that have exited, and take them back: their video memory
/// is set to zero, so that nothing of it is left for whoever is given the partition next.
pub fn clear_partitions(gpu: &mut Gpu, table: &ShardTable, vram: &mut [u8])
    requires
        old(gpu).wf(),
        table.wf(),
        partitions_within(old(gpu)@, old(vram)@.len() as int),
    ensures
        final(gpu).wf(),
        final(gpu)@.len() == old(gpu)@.len(),
        forall|i: int|
            0 <= i < old(gpu)@.len() ==> #[trigger] final(gpu)@[i] == (if left_behind(
                old(gpu)@[i],
                table@,
            ) {
                disowned(old(gpu)@[i])
            } else {
                old(gpu)@[i]
            }),
        final(vram)@.len() == old(vram)@.len(),
        forall|a: int|
            0 <= a < old(vram)@.len() ==> #[trigger] final(vram)@[a] == (if abandoned(
                old(gpu)@,
                table@,
                old(gpu)@.len() as int,
                a,
            ) {
                0
            } else {
                old(vram)@[a]
            }),
{
    let ghost ps = gpu@;
    let ghost v0 = vram@;
    let count: usize = gpu.partition_count();
    let mut n: usize = 0;
    while n < count
        invariant
            n <= count,
            count == ps.len(),
            ps == old(gpu)@,
            v0 == old(vram)@,
            gpu.wf(),
            table.wf(),
            partitions_wf(ps),
            partitions_within(ps, v0.len() as int),
            gpu@.len() == ps.len(),
            vram@.len() == v0.len(),
            forall|i: int|
                0 <= i < ps.len() ==> #[trigger] gpu@[i] == (if i < n && left_behind(ps[i], table@) {
                    disowned(ps[i])
                } else {
                    ps[i]
                }),
            forall|a: int|
                0 <= a < v0.len() ==> #[trigger] vram@[a] == (if abandoned(
                    ps,
                    table@,
                    n as int,
                    a,
                ) {
                    0
                } else {
                    v0[a]
                }),
        decreases count - n,
    {
        let ghost v = vram@;
        let p = gpu.partition(n);
        assert(gpu@[n as int] == ps[n as int]);
        let gone: bool = match p.owner_shard {
            None => false,
            Some(id) => table.shards[id].state == ShardState::Exited,
        };
        assert(gone == left_behind(ps[n as int], table@));
        if gone {
            assert(vram.len() == vram@.len());
            zero_bytes(vram, p.vram_offset as usize, p.vram_size as usize);
            gpu.disown(n);
        }
        proof {
            assert forall|a: int| 0 <= a < v0.len() implies #[trigger] vram@[a] == (if abandoned(
                ps,
                table@,
                n + 1,
                a,
            ) {
                0
            } else {
                v0[a]
            }) by {
                assert(v[a] == (if abandoned(ps, table@, n as int, a) {
                    0
                } else {
                    v0[a]
                }));
                if abandoned(ps, table@, n as int, a) {
                    let i = choose|i: int|
                        0 <= i < n && (#[trigger] ps[i]).has(a) && left_behind(ps[i], table@);
                    assert(0 <= i < n + 1 && ps[i].has(a));
                }
                if abandoned(ps, table@, n + 1, a) && !abandoned(ps, table@, n as int, a) {
                    let i = choose|i: int|
                        0 <= i < n + 1 && (#[trigger] ps[i]).has(a) && left_behind(ps[i], table@);
                    assert(i == n);
                }
                if gone && ps[n as int].has(a) {
                    assert(abandoned(ps, table@, n + 1, a));
                }
            }
        }
        n += 1;
    }
}

/// Split video memory evenly, and the compute units equally.
pub fn create_partitions(vram_size: u64) -> (g: Gpu)
    ensures
        g.wf(),
        g@ == Seq::new(MAX_GPU_PARTITIONS as nat, |i: int| partition(vram_size, i)),
{
    let mut g = Gpu::new();
    let share: u64 = vram_size / MAX_GPU_PARTITIONS as u64;
    let cus: u32 = TOTAL_VIRTUAL_CUS / MAX_GPU_PARTITIONS as u32;
    let mut i: usize = 0;
    while i < MAX_GPU_PARTITIONS
        invariant
            i <= MAX_GPU_PARTITIONS,
            share == vram_size as int / MAX_GPU_PARTITIONS as int,
            cus == TOTAL_VIRTUAL_CUS / MAX_GPU_PARTITIONS as u32,
            forall|k: int|
                0 <= k < i ==> #[trigger] g.partitions@[k] == partition(vram_size, k),
        decreases MAX_GPU_PARTITIONS - i,
    {
        assert(i * share <= vram_size) by (nonlinear_arith)
            requires
                i < MAX_GPU_PARTITIONS,
                MAX_GPU_PARTITIONS == 2,
                share == vram_size as int / MAX_GPU_PARTITIONS as int,
        ;
        g.partitions[i] = GpuPartition {
            vram_offset: i as u64 * share,
            vram_size: share,
            cu_count: cus,
            id: i as u32,
            owner_shard: None,
        };
        i += 1;
    }
    g.partition_count = MAX_GPU_PARTITIONS;
    proof {
        let ps = Seq::new(MAX_GPU_PARTITIONS as nat, |i: int| partition(vram_size, i));
        assert(g@ =~= ps);
        law_partitions_split(vram_size);
    }
    g
}

/// The first partition from number `i` on that is for shard `id`.
pub open spec fn first_owned(ps: Seq<GpuPartition>, id: usize, i: int) -> int
    decreases ps.len() - i,
{
    if i >= ps.len() || ps[i].owner_shard == Some(id) {
        i
    } else {
        first_owned(ps, id, i + 1)
    }
}

/// The first partition for shard `id`, or the number of partitions.
fn find_partition(gpu: &Gpu, id: usize) -> (i: usize)
    requires
        gpu.wf(),
    ensures
        i == first_owned(gpu@, id, 0),
        i <= gpu@.len(),
{
    let mut i: usize = 0;
    while i < gpu.partition_count
        invariant
            gpu.wf(),
            i <= gpu@.len(),
            first_owned(gpu@, id, i as int) == first_owned(gpu@, id, 0),
        decreases gpu@.len() - i,
    {
        if gpu.partitions[i].owner_shard == Some(id) {
            return i;
        }
        i += 1;
    }
    i
}

// ---------------------------------------------------------------------------
// Pledge and unveil
// ---------------------------------------------------------------------------

/// The shards with the one at `id` restricted to the categories of system calls in `mask`.
pub open spec fn pledged(t: Seq<ShardDescriptor>, id: int, mask: u64) -> Seq<ShardDescriptor> {
    t.update(id, ShardDescriptor { gpu_pledge: t[id].gpu_pledge & mask, ..t[id] })
}

/// Restrict the system calls that the current shard may make. Categories can only be
/// removed, never added.
pub fn handle_gpu_pledge(table: &mut ShardTable, mask: u64) -> (r: u64)
    requires
        old(table).wf(),
        old(table).current is Some,
    ensures
        final(table).wf(),
        final(table).current == old(table).current,
        r == 0,
        final(table)@ == pledged(old(table)@, old(table).current->0 as int, mask),
{
    if let Some(id) = table.current {
        table.shards[id].gpu_pledge = table.shards[id].gpu_pledge & mask;
        assert(table@ =~= pledged(old(table)@, id as int, mask));
    }
    0
}

/// Whether the shard at `id` may unveil this range: it has not done so before, the range
/// is not empty, and it lies in the shard's partition.
pub open spec fn unveil_ok(
    ps: Seq<GpuPartition>,
    t: Seq<ShardDescriptor>,
    id: int,
    offset: u64,
    size: u64,
) -> bool {
    let i = first_owned(ps, id as usize, 0);
    &&& t[id].vram_unveil_size == 0
    &&& size != 0
    &&& i < ps.len()
    &&& offset + size <= ps[i].vram_size
}

/// Fix the range of its video memory that the current shard may copy from and that others
/// may copy to. This can be done once.
///
/// Returns 0, or `u64::MAX` on error.
pub fn handle_gpu_unveil(gpu: &Gpu, table: &mut ShardTable, offset: u64, size: u64) -> (r: u64)
    requires
        gpu.wf(),
        old(table).wf(),
        old(table).current is Some,
    ensures
        final(table).wf(),
        final(table).current == old(table).current,
        ({
            let id = old(table).current->0 as int;
            let ok = unveil_ok(gpu@, old(table)@, id, offset, size);
            &&& r == (if ok {
                0
            } else {
                u64::MAX
            })
            &&& final(table)@ == (if ok {
                old(table)@.update(
                    id,
                    (ShardDescriptor {
                        vram_unveil_offset: offset,
                        vram_unveil_size: size,
                        ..old(table)@[id]
                    }),
                )
            } else {
                old(table)@
            })
        }),
{
    if let Some(id) = table.current {
        if table.shards[id].vram_unveil_size != 0 || size == 0 {
            return u64::MAX;
        }
        let i: usize = find_partition(gpu, id);
        if i >= gpu.partition_count {
            return u64::MAX;
        }
        if offset > u64::MAX - size || offset + size > gpu.partitions[i].vram_size {
            return u64::MAX;
        }
        table.shards[id].vram_unveil_offset = offset;
        table.shards[id].vram_unveil_size = size;
        assert(table@ =~= old(table)@.update(id as int, table@[id as int]));
    }
    0
}

/// Whether `len` bytes from `offset` on lie in what the shard has unveiled. A shard that
/// has not unveiled anything is not restricted.
pub open spec fn unveiled(s: ShardDescriptor, offset: int, len: int) -> bool {
    ||| s.vram_unveil_size == 0
    ||| s.vram_unveil_offset <= offset && offset + len <= s.vram_unveil_offset + s.vram_unveil_size
}

/// Whether a range of a shard's video memory lies in what the shard has unveiled.
pub fn unveil_allows(table: &ShardTable, shard_id: usize, offset: u64, len: u64) -> (r: bool)
    requires
        table.wf(),
        shard_id < MAX_SHARDS,
    ensures
        r == unveiled(table@[shard_id as int], offset as int, len as int),
{
    let start: u64 = table.shards[shard_id].vram_unveil_offset;
    let size: u64 = table.shards[shard_id].vram_unveil_size;
    if size == 0 {
        return true;
    }
    offset >= start && offset as u128 + len as u128 <= start as u128 + size as u128
}

// ---------------------------------------------------------------------------
// Copies between partitions
// ---------------------------------------------------------------------------

/// Whether the shard `caller` may copy `len` bytes from `src` in its partition to `dst` in
/// partition number `target`, with `vram_len` bytes of video memory mapped.
pub open spec fn dma_ok(
    ps: Seq<GpuPartition>,
    t: Seq<ShardDescriptor>,
    vram_len: int,
    caller: usize,
    target: int,
    src: int,
    dst: int,
    len: int,
) -> bool {
    let from = first_owned(ps, caller, 0);
    &&& len > 0
    &&& target < ps.len()
    &&& from < ps.len()
    &&& from != target
    &&& holds(t[caller as int], CAP_GPU_DMA, target as u32, RIGHT_GPU_DMA_WRITE)
    &&& src + len <= ps[from].vram_size
    &&& dst + len <= ps[target].vram_size
    &&& unveiled(t[caller as int], src, len)
    &&& ps[target].owner_shard matches Some(owner) ==> unveiled(t[owner as int], dst, len)
    &&& vram_len > 0
}

/// The bytes with the `n` bytes from `d` on replaced by those from `s` on.
pub open spec fn copied(v: Seq<u8>, s: int, d: int, n: int) -> Seq<u8> {
    Seq::new(
        v.len(),
        |i: int|
            if d <= i < d + n {
                v[s + (i - d)]
            } else {
                v[i]
            },
    )
}

/// Copy bytes to another place that does not meet the first.
fn copy_nonoverlapping(v: &mut [u8], s: usize, d: usize, n: usize)
    requires
        s + n <= old(v)@.len(),
        d + n <= old(v)@.len(),
        s + n <= d || d + n <= s,
    ensures
        final(v)@ == copied(old(v)@, s as int, d as int, n as int),
{
    let ghost before = v@;
    let mut k: usize = 0;
    while k < n
        invariant
            k <= n,
            before == old(v)@,
            v@.len() == before.len(),
            s + n <= v@.len(),
            d + n <= v@.len(),
            s + n <= d || d + n <= s,
            forall|i: int|
                0 <= i < before.len() ==> #[trigger] v@[i] == (if d <= i < d + k {
                    before[s + (i - d)]
                } else {
                    before[i]
                }),
        decreases n - k,
    {
        assert(v.len() == v@.len());
        let b: u8 = v[s + k];
        v[d + k] = b;
        k += 1;
    }
    assert(v@ =~= copied(before, s as int, d as int, n as int));
}

/// Copy data from the current shard's partition to another one. The last argument holds
/// the offset in the target in its upper half, and the length in its lower half. `vram` is
/// the video memory as the supervisor has it mapped, empty where it has not.
///
/// Returns 0, or `u64::MAX` on error.
pub fn handle_dma(
    gpu: &Gpu,
    table: &ShardTable,
    vram: &mut [u8],
    target_part: u64,
    src_offset: u64,
    packed_dst_len: u64,
) -> (r: u64)
    requires
        gpu.wf(),
        table.wf(),
        table.current is Some,
        old(vram)@.len() == 0 || partitions_within(gpu@, old(vram)@.len() as int),
    ensures
        ({
            let caller = table.current->0;
            let dst = packed_dst_len as int / 0x1_0000_0000;
            let len = packed_dst_len as int % 0x1_0000_0000;
            let ok = dma_ok(
                gpu@,
                table@,
                old(vram)@.len() as int,
                caller,
                target_part as int,
                src_offset as int,
                dst,
                len,
            );
            &&& r == (if ok {
                0
            } else {
                u64::MAX
            })
            &&& final(vram)@ == (if ok {
                copied(
                    old(vram)@,
                    gpu@[first_owned(gpu@, caller, 0)].vram_offset + src_offset,
                    gpu@[target_part as int].vram_offset + dst,
                    len,
                )
            } else {
                old(vram)@
            })
        }),
{
    let caller: usize = match table.current {
        Some(id) => id,
        None => {
            return u64::MAX;
        },
    };
    let dst_offset: u64 = packed_dst_len / 0x1_0000_0000;
    let len: u64 = packed_dst_len % 0x1_0000_0000;
    if len == 0 || target_part >= gpu.partition_count as u64 {
        return u64::MAX;
    }
    let target: usize = target_part as usize;
    let from: usize = find_partition(gpu, caller);
    if from >= gpu.partition_count || from == target {
        return u64::MAX;
    }
    if !check(table, caller, CAP_GPU_DMA, target as u32, RIGHT_GPU_DMA_WRITE) {
        return u64::MAX;
    }
    let src_part = gpu.partition(from);
    let dst_part = gpu.partition(target);
    if src_offset as u128 + len as u128 > src_part.vram_size as u128 {
        return u64::MAX;
    }
    if dst_offset + len > dst_part.vram_size {
        return u64::MAX;
    }
    if !unveil_allows(table, caller, src_offset, len) {
        return u64::MAX;
    }
    if let Some(owner) = dst_part.owner_shard {
        if !unveil_allows(table, owner, dst_offset, len) {
            return u64::MAX;
        }
    }
    if vram.len() == 0 {
        return u64::MAX;
    }
    proof {
        assert(vram.len() == vram@.len());
        let s = src_part.vram_offset + src_offset;
        let d = dst_part.vram_offset + dst_offset;
        assert(gpu@[from as int] == src_part && gpu@[target as int] == dst_part);
        if s < d + len && d < s + len {
            let a = if s < d {
                d
            } else {
                s
            };
            assert(src_part.has(a) && dst_part.has(a));
            assert(gpu@[from as int].has(a) && gpu@[target as int].has(a));
        }
    }
    let src_abs: u64 = src_part.vram_offset + src_offset;
    let dst_abs: u64 = dst_part.vram_offset + dst_offset;
    copy_nonoverlapping(vram, src_abs as usize, dst_abs as usize, len as usize);
    0
}

// ---------------------------------------------------------------------------
// Initialization
// ---------------------------------------------------------------------------

/// Whether the register describes memory of the wanted kind.
pub open spec fn suits(bar: BarInfo, prefetchable: bool) -> bool {
    bar.size != 0 && bar.is_memory && bar.prefetchable == prefetchable
}

/// The first register of the wanted kind from number `i` on.
pub open spec fn first_bar(bars: Seq<BarInfo>, prefetchable: bool, i: int) -> Option<BarInfo>
    decreases bars.len() - i,
{
    if i >= bars.len() {
        None
    } else if suits(bars[i], prefetchable) {
        Some(bars[i])
    } else {
        first_bar(bars, prefetchable, i + 1)
    }
}

/// The first memory register that is prefetchable, or the first that is not.
pub fn find_bar(bars: &[BarInfo; 6], prefetchable: bool) -> (r: Option<BarInfo>)
    ensures
        r == first_bar(bars@, prefetchable, 0),
        r matches Some(bar) ==> suits(bar, prefetchable),
{
    let mut i: usize = 0;
    while i < 6
        invariant
            i <= 6,
            first_bar(bars@, prefetchable, i as int) == first_bar(bars@, prefetchable, 0),
        decreases 6 - i,
    {
        let bar = bars[i];
        if bar.size != 0 && bar.is_memory && bar.prefetchable == prefetchable {
            return Some(bar);
        }
        i += 1;
    }
    None
}

/// What became of initialization.
#[derive(Debug, Clone, Copy)]
pub enum GpuInit {
    /// There are no device registers in memory.
    NoMmioBar,
    /// There is no video memory.
    NoVramBar,
    /// There is no room for the partitions' shards.
    NoRoom,
    /// Video memory is mapped at this address of the supervisor, and the partitions have
    /// these shards.
    Ready { vram_virt: u64, shards: [usize; MAX_GPU_PARTITIONS] },
}

/// How many bytes of a partition's video memory its shard sees.
pub open spec fn map_size(vram: BarInfo) -> u64 {
    min(partition(vram.size, 0).vram_size, MAX_VRAM_MAP)
}

/// The random state after a placement that starts from `s`.
pub open spec fn after_place(s: u64, vram: BarInfo, mmio: BarInfo) -> u64 {
    draws(s, 1 + tries(s, map_size(vram), mmio.size))
}

/// Where the device memory of the first partition is placed from the state `s` on.
pub open spec fn place_of(s: u64, vram: BarInfo, mmio: BarInfo) -> Option<(u64, u64)> {
    placement(s, map_size(vram), mmio.size)
}

/// The device registers as the shard sees them.
pub open spec fn mmio_seen(mmio: BarInfo, place: (u64, u64)) -> DeviceRange {
    bar_range(mmio, place.1, mmio.size)
}

/// The slice of video memory as the shard of partition number `i` sees it.
pub open spec fn vram_seen(vram: BarInfo, i: int, place: (u64, u64)) -> DeviceRange {
    vram_range(vram, partition(vram.size, i), place.0)
}

/// Number of frames that the shard of partition number `i` takes.
pub open spec fn partition_frames(
    vram: BarInfo,
    mmio: BarInfo,
    code_len: int,
    i: int,
    place: (u64, u64),
) -> int {
    hal_frames(code_pages(code_len), mmio_seen(mmio, place), vram_seen(vram, i, place))
}

/// Whether the address of every page of `size` bytes from `phys` on is a 64-bit number.
pub open spec fn phys_fits(phys: int, size: u64) -> bool {
    size > 0 ==> phys + (pages_of(size) - 1) * PAGE_4K <= u64::MAX
}

/// Whether addresses and slots suffice.
pub open spec fn gpu_fits(
    t: Seq<ShardDescriptor>,
    next: u64,
    vram: BarInfo,
    mmio: BarInfo,
) -> bool {
    &&& placeable(mmio.size)
    &&& phys_fits(mmio.phys_base as int, mmio.size)
    &&& mmio_fits(next, vram.phys_base, vram.size)
    &&& first_free(t, 0) < MAX_SHARDS
    &&& first_free(t, first_free(t, 0) + 1) < MAX_SHARDS
}

/// Whether there is room for the shards of both partitions: addresses, slots, places for
/// their device memory, and frames.
pub open spec fn gpu_room(
    t: Seq<ShardDescriptor>,
    m: Seq<u64>,
    v: FrameView,
    sup: u64,
    next: u64,
    vram: BarInfo,
    mmio: BarInfo,
    code_len: int,
    seed: u64,
) -> bool {
    let second = after_place(seed, vram, mmio);
    &&& gpu_fits(t, next, vram, mmio)
    &&& place_of(seed, vram, mmio) is Some
    &&& place_of(second, vram, mmio) is Some
    &&& v.capacity() >= window_missing(m, sup, next, pages_for(vram.phys_base, vram.size))
        + partition_frames(vram, mmio, code_len, 0, place_of(seed, vram, mmio)->0)
        + partition_frames(vram, mmio, code_len, 1, place_of(second, vram, mmio)->0)
}

/// Partition number `i` starts after the shares before it.
proof fn lemma_partition(vram: BarInfo, i: int)
    requires
        0 <= i < MAX_GPU_PARTITIONS,
    ensures
        ({
            let share = vram.size as int / 2;
            let p = partition(vram.size, i);
            &&& p.vram_size == share
            &&& p.vram_offset == (if i == 0 {
                0
            } else {
                share
            })
        }),
{
    let share = vram.size as int / 2;
    law_partitions_split(vram.size);
    assert(i == 0 || i == 1);
    assert(i * share == (if i == 0 {
        0
    } else {
        share
    })) by (nonlinear_arith)
        requires
            i == 0 || i == 1,
    ;
}

/// Pages that take up `size` bytes from `virt` on, below the end of the region for random
/// placement, lie in the first gigabyte.
proof fn lemma_placed_range(phys: u64, virt: u64, size: u64)
    requires
        virt % PAGE_4K == 0,
        ASLR_START <= virt,
        virt + size <= 0x4000_0000 - PAGE_4K,
        phys_fits(phys as int, size),
    ensures
        (DeviceRange { phys, virt, pages: pages_of(size) as u64 }).wf(),
{
    let n = pages_of(size);
    assert(0 <= n <= 0x40_0000);
    assert(n * PAGE_4K <= size + PAGE_4K - 1);
    if n > 0 {
        assert((virt + (n - 1) * PAGE_4K) < 0x4000_0000);
        assert((virt + (n - 1) * PAGE_4K) / 0x4000_0000 == 0);
    }
}

/// Device memory that was placed is in order.
proof fn lemma_placed(s: u64, vram: BarInfo, mmio: BarInfo, i: int)
    requires
        0 <= i < MAX_GPU_PARTITIONS,
        placeable(mmio.size),
        phys_fits(mmio.phys_base as int, mmio.size),
        vram.phys_base + vram.size <= 0x1_0000_0000_0000_0000,
        place_of(s, vram, mmio) is Some,
    ensures
        ({
            let place = place_of(s, vram, mmio)->0;
            seen_ok(vram, mmio, partition(vram.size, i), place)
        }),
{
    reveal(seen_ok);
    let place = place_of(s, vram, mmio)->0;
    law_placement_apart(s, map_size(vram), mmio.size);
    lemma_partition(vram, i);
    let p = partition(vram.size, i);
    assert(min(p.vram_size, MAX_VRAM_MAP) == map_size(vram));
    assert(min(mmio.size, mmio.size) == mmio.size);
    lemma_placed_range(mmio.phys_base, place.1, mmio.size);
    lemma_placed_range((vram.phys_base + p.vram_offset) as u64, place.0, map_size(vram));
}

/// Create the shards of both partitions.
#[verifier::rlimit(40)]
fn create_shards(
    table: &mut ShardTable,
    fa: &mut FrameAllocator,
    mem: &mut Memory,
    sup_pml4: u64,
    code: &[u8],
    stack_tops: &[u64; MAX_SHARDS],
    vram: &BarInfo,
    mmio: &BarInfo,
    part0: &GpuPartition,
    part1: &GpuPartition,
    place0: (u64, u64),
    place1: (u64, u64),
    s0: usize,
    s1: usize,
)
    requires
        old(table).wf(),
        old(fa).wf(),
        old(fa)@.within(old(mem)@.len()),
        isolated(old(table)@, old(mem)@, old(fa)@),
        kernel_ok(old(table)@, old(mem)@, old(fa)@, sup_pml4),
        code@.len() <= 3 * 4096,
        seen_ok(*vram, *mmio, *part0, place0),
        seen_ok(*vram, *mmio, *part1, place1),
        s0 == first_free(old(table)@, 0),
        s0 < MAX_SHARDS,
        s1 == first_free(old(table)@, s0 + 1),
        s0 < s1 < MAX_SHARDS,
        !old(table)@[s0 as int].live(),
        !old(table)@[s1 as int].live(),
        old(fa)@.capacity() >= hal_frames(
            code_pages(code@.len() as int),
            bar_range(*mmio, place0.1, mmio.size),
            vram_range(*vram, *part0, place0.0),
        ) + hal_frames(
            code_pages(code@.len() as int),
            bar_range(*mmio, place1.1, mmio.size),
            vram_range(*vram, *part1, place1.0),
        ),
    ensures
        final(table).wf(),
        final(table).current == old(table).current,
        final(fa).wf(),
        final(fa)@.within(final(mem)@.len()),
        isolated(final(table)@, final(mem)@, final(fa)@),
        kernel_ok(final(table)@, final(mem)@, final(fa)@, sup_pml4),
        same_leaves(old(mem)@, final(mem)@, sup_pml4, 256, 512),
        same_pages(old(table)@, old(mem)@, final(mem)@),
        final(table)@.len() == old(table)@.len(),
        forall|i: int|
            0 <= i < MAX_SHARDS && i != s0 && i != s1 ==> #[trigger] final(table)@[i] == old(
                table,
            )@[i],
        ({
            let mmio0 = bar_range(*mmio, place0.1, mmio.size);
            let mmio1 = bar_range(*mmio, place1.1, mmio.size);
            let vram0 = vram_range(*vram, *part0, place0.0);
            let vram1 = vram_range(*vram, *part1, place1.0);
            let pages = code_pages(code@.len() as int);
            let d0 = final(table)@[s0 as int];
            let d1 = final(table)@[s1 as int];
            &&& is_new(d0, stack_tops@[s0 as int])
            &&& is_new(d1, stack_tops@[s1 as int])
            &&& hal_shard(d0, final(mem)@, code@, *part0, mmio0, vram0)
            &&& hal_shard(d1, final(mem)@, code@, *part1, mmio1, vram1)
            &&& final(fa)@.capacity() == old(fa)@.capacity() - hal_frames(pages, mmio0, vram0)
                - hal_frames(pages, mmio1, vram1)
        }),
{
    let ghost m0 = mem@;
    let ghost v0 = fa@;
    let ghost t0 = table@;
    proof {
        lemma_kernel_root(t0, m0, v0, sup_pml4);
        lemma_hal_frames(code@.len() as int, *vram, *mmio, *part1, place1);
    }
    let a = create_hal_shard(
        table,
        fa,
        mem,
        sup_pml4,
        code,
        stack_tops[s0],
        part0,
        mmio,
        place0.1,
        vram,
        place0.0,
    );
    assert(a == Some(s0));
    let ghost m1 = mem@;
    let ghost v1 = fa@;
    let ghost t1 = table@;
    let ghost d0 = t1[s0 as int];
    proof {
        lemma_made_kernel(t0, m0, m1, v0, v1, s0 as int, d0, sup_pml4);
        lemma_kernel_root(t1, m1, v1, sup_pml4);
        lemma_first_free_next(t0, d0, 0);
    }
    let b = create_hal_shard(
        table,
        fa,
        mem,
        sup_pml4,
        code,
        stack_tops[s1],
        part1,
        mmio,
        place1.1,
        vram,
        place1.0,
    );
    assert(b == Some(s1));
    proof {
        let m2 = mem@;
        let v2 = fa@;
        let d1 = table@[s1 as int];
        assert(!t1[s1 as int].live());
        lemma_made_kernel(t1, m1, m2, v1, v2, s1 as int, d1, sup_pml4);
        lemma_same_pages(t0, t1, m0, m1, m2);
        assert(same_leaves(m0, m2, sup_pml4, 256, 512)) by {
            reveal(same_leaves);
            assert forall|x: u64| in_half(x, 256, 512) implies #[trigger] leaf(m2, sup_pml4, x)
                == leaf(m0, sup_pml4, x) by {
                assert(leaf(m1, sup_pml4, x) == leaf(m0, sup_pml4, x));
            }
        }
        assert(space_wf(m1, v1, d0.frames())) by {
            reveal(isolated);
        }
        reveal(seen_ok);
        lemma_hal_kept(
            d0,
            m1,
            m2,
            v1,
            v2,
            d1.frames(),
            sup_pml4,
            code@,
            *part0,
            bar_range(*mmio, place0.1, mmio.size),
            vram_range(*vram, *part0, place0.0),
        );
    }
}

/// A shard takes at least one frame.
proof fn lemma_hal_frames(
    code_len: int,
    vram: BarInfo,
    mmio: BarInfo,
    part: GpuPartition,
    place: (u64, u64),
)
    requires
        0 <= code_len,
        seen_ok(vram, mmio, part, place),
    ensures
        hal_frames(
            code_pages(code_len),
            bar_range(mmio, place.1, mmio.size),
            vram_range(vram, part, place.0),
        ) >= 1,
{
    reveal(seen_ok);
    reveal(hal_frames);
    lemma_range_regions(bar_range(mmio, place.1, mmio.size));
    lemma_range_regions(vram_range(vram, part, place.0));
}

/// A new shard leaves isolation and the supervisor's page tables in order.
proof fn lemma_made_kernel(
    t: Seq<ShardDescriptor>,
    m: Seq<u64>,
    m2: Seq<u64>,
    v: FrameView,
    v2: FrameView,
    id: int,
    s: ShardDescriptor,
    sup: u64,
)
    requires
        isolated(t, m, v),
        kernel_ok(t, m, v, sup),
        0 <= id < t.len(),
        !t[id].live(),
        isolated(t.update(id, s), m2, v2),
        s.live(),
        space_made(m, m2, v, v2, s.frames(), sup),
    ensures
        kernel_ok(t.update(id, s), m2, v2, sup),
        same_leaves(m, m2, sup, 256, 512),
        same_pages(t, m, m2),
{
    reveal(same_pages);
    assert(shard_wf(s, m2, v2)) by {
        reveal(isolated);
        assert(t.update(id, s)[id] == s);
    }
    lemma_isolated_made(t, m, m2, v, v2, id, s, sup);
    lemma_kernel_made(t, m, m2, v, v2, sup, id, s);
}

/// Every shard with memory has the same pages.
#[verifier::opaque]
pub open spec fn same_pages(t: Seq<ShardDescriptor>, m: Seq<u64>, m2: Seq<u64>) -> bool {
    forall|i: int|
        0 <= i < t.len() && (#[trigger] t[i]).live() ==> same_leaves(m, m2, t[i].pml4_phys, 0, 256)
}

/// The same pages twice are the same pages.
proof fn lemma_same_pages(
    t: Seq<ShardDescriptor>,
    t1: Seq<ShardDescriptor>,
    m: Seq<u64>,
    m1: Seq<u64>,
    m2: Seq<u64>,
)
    requires
        t1.len() == t.len(),
        forall|i: int| 0 <= i < t.len() && (#[trigger] t[i]).live() ==> t1[i] == t[i],
        same_pages(t, m, m1),
        same_pages(t1, m1, m2),
    ensures
        same_pages(t, m, m2),
{
    reveal(same_pages);
    reveal(same_leaves);
    assert forall|i: int| 0 <= i < t.len() && (#[trigger] t[i]).live() implies same_leaves(
        m,
        m2,
        t[i].pml4_phys,
        0,
        256,
    ) by {
        assert(t1[i].live());
        assert forall|x: u64| in_half(x, 0, 256) implies #[trigger] leaf(m2, t[i].pml4_phys, x)
            == leaf(m, t[i].pml4_phys, x) by {
            assert(leaf(m1, t[i].pml4_phys, x) == leaf(m, t[i].pml4_phys, x));
        }
    }
}

/// A shard that has just been created for a partition.
pub open spec fn is_new(s: ShardDescriptor, top: u64) -> bool {
    &&& s.state == ShardState::Ready
    &&& s.priority == Priority::High
    &&& s.kernel_stack_top == top
    &&& s.fresh()
}

/// Channel 0 and the capabilities for copies from the first partition to the second.
fn connect(table: &mut ShardTable, channels: &mut ChannelTable, s0: usize, s1: usize)
    requires
        old(table).wf(),
        old(channels).wf(),
        s0 < MAX_SHARDS,
        s1 < MAX_SHARDS,
        s0 != s1,
        old(table)@[s0 as int].fresh(),
        old(table)@[s1 as int].fresh(),
    ensures
        final(table).wf(),
        final(table).current == old(table).current,
        final(channels).wf(),
        final(channels)@ == old(channels)@.update(0, channel_between(s0, s1)),
        final(table)@.len() == old(table)@.len(),
        forall|i: int|
            0 <= i < MAX_SHARDS && i != s0 && i != s1 ==> #[trigger] final(table)@[i] == old(
                table,
            )@[i],
        equipped(old(table)@[s0 as int], final(table)@[s0 as int], sender_caps()),
        equipped(old(table)@[s1 as int], final(table)@[s1 as int], receiver_caps()),
{
    let ghost t0 = table@;
    channel_init(channels, 0, s0, s1);
    proof {
        assert(t0[s0 as int].caps@[0] == CapEntry::spec_empty());
        assert(t0[s0 as int].caps@[1] == CapEntry::spec_empty());
        assert(t0[s1 as int].caps@[0] == CapEntry::spec_empty());
    }
    let a = grant_to_shard(table, s0, CAP_CHANNEL, 0, RIGHT_CHANNEL_SEND);
    let ghost t1 = table@;
    let b = grant_to_shard(table, s1, CAP_CHANNEL, 0, RIGHT_CHANNEL_RECV);
    let ghost t2 = table@;
    proof {
        assert(t2[s0 as int] == t1[s0 as int]);
        let caps = t2[s0 as int].caps@;
        assert(caps[0].valid && !caps[1].valid);
        reveal_with_fuel(first_empty, 3);
        assert(first_empty(caps, 0) == 1);
    }
    let c = grant_to_shard(table, s0, CAP_GPU_DMA, 1, RIGHT_GPU_DMA_WRITE);
    proof {
        let empty = Seq::new(MAX_CAPS_PER_SHARD as nat, |i: int| CapEntry::spec_empty());
        assert(t0[s0 as int].caps@ =~= empty);
        assert(t0[s1 as int].caps@ =~= empty);
        assert(table@[s0 as int].caps@ =~= sender_caps());
        assert(table@[s1 as int].caps@ =~= receiver_caps());
    }
}

/// A channel between two shards without a message.
pub open spec fn channel_between(a: usize, b: usize) -> ChannelView {
    ChannelView {
        active: true,
        shard: seq![a, b],
        inbox: seq![Seq::<u8>::empty(), Seq::<u8>::empty()],
    }
}

/// The shard with these capabilities and otherwise as before.
pub open spec fn equipped(s: ShardDescriptor, s2: ShardDescriptor, caps: Seq<CapEntry>) -> bool {
    s2 == (ShardDescriptor { caps: s2.caps, ..s }) && s2.caps@ == caps
}

/// The capabilities of the first partition's shard: to send on channel 0, and to copy to
/// partition 1.
pub open spec fn sender_caps() -> Seq<CapEntry> {
    Seq::new(MAX_CAPS_PER_SHARD as nat, |i: int| CapEntry::spec_empty()).update(
        0,
        CapEntry {
            valid: true,
            cap_type: CAP_CHANNEL,
            resource_id: 0,
            rights: RIGHT_CHANNEL_SEND,
        },
    ).update(
        1,
        CapEntry {
            valid: true,
            cap_type: CAP_GPU_DMA,
            resource_id: 1,
            rights: RIGHT_GPU_DMA_WRITE,
        },
    )
}

/// The capabilities of the second partition's shard: to receive on channel 0.
pub open spec fn receiver_caps() -> Seq<CapEntry> {
    Seq::new(MAX_CAPS_PER_SHARD as nat, |i: int| CapEntry::spec_empty()).update(
        0,
        CapEntry {
            valid: true,
            cap_type: CAP_CHANNEL,
            resource_id: 0,
            rights: RIGHT_CHANNEL_RECV,
        },
    )
}

/// The shard of a partition, ready to run with these capabilities.
pub open spec fn partition_shard(
    s: ShardDescriptor,
    m: Seq<u64>,
    code: Seq<u8>,
    top: u64,
    caps: Seq<CapEntry>,
    part: GpuPartition,
    mmio: DeviceRange,
    vram: DeviceRange,
) -> bool {
    &&& s.state == ShardState::Ready
    &&& s.priority == Priority::High
    &&& s.kernel_stack_top == top
    &&& s.caps@ == caps
    &&& s.gpu_pledge == u64::MAX
    &&& s.vram_unveil_offset == 0
    &&& s.vram_unveil_size == 0
    &&& s.blocked_on_channel is None
    &&& s.saved_kernel_rsp == 0
    &&& s.exit_code == 0
    &&& hal_shard(s, m, code, part, mmio, vram)
}

/// A partition with its owner.
pub open spec fn owned(part: GpuPartition, id: usize) -> GpuPartition {
    GpuPartition { owner_shard: Some(id), ..part }
}

/// The supervisor sees all of video memory from `next` on.
pub open spec fn vram_visible(m: Seq<u64>, sup: u64, next: u64, vram: BarInfo) -> bool {
    let base = (vram.phys_base - vram.phys_base % PAGE_4K) as u64;
    forall|j: int|
        0 <= j < pages_for(vram.phys_base, vram.size) ==> #[trigger] leaf(m, sup, page(next, j))
            == Leaf::Page4K(pte_value(page(base, j), MMIO_FLAGS))
}

/// Map video memory for the supervisor.
fn map_video(
    table: &ShardTable,
    window: &mut MmioWindow,
    fa: &mut FrameAllocator,
    mem: &mut Memory,
    sup_pml4: u64,
    vram: &BarInfo,
) -> (virt: u64)
    requires
        old(window).wf(),
        old(fa).wf(),
        old(fa)@.within(old(mem)@.len()),
        isolated(table@, old(mem)@, old(fa)@),
        kernel_ok(table@, old(mem)@, old(fa)@, sup_pml4),
        mmio_fits(old(window).next(), vram.phys_base, vram.size),
        old(fa)@.capacity() >= window_missing(
            old(mem)@,
            sup_pml4,
            old(window).next(),
            pages_for(vram.phys_base, vram.size),
        ),
    ensures
        final(window).wf(),
        final(fa).wf(),
        final(fa)@.within(final(mem)@.len()),
        isolated(table@, final(mem)@, final(fa)@),
        kernel_ok(table@, final(mem)@, final(fa)@, sup_pml4),
        virt == old(window).next() + vram.phys_base % PAGE_4K,
        final(window).next() == old(window).next() + pages_for(vram.phys_base, vram.size)
            * PAGE_4K,
        vram_visible(final(mem)@, sup_pml4, old(window).next(), *vram),
        same_pages(table@, old(mem)@, final(mem)@),
        final(fa)@.capacity() == old(fa)@.capacity() - window_missing(
            old(mem)@,
            sup_pml4,
            old(window).next(),
            pages_for(vram.phys_base, vram.size),
        ),
{
    let ghost m0 = mem@;
    let ghost v0 = fa@;
    let ghost next = window.next();
    proof {
        lemma_kernel_root(table@, m0, v0, sup_pml4);
    }
    let virt: u64 = match map_mmio(window, fa, mem, sup_pml4, vram.phys_base, vram.size) {
        Some(v) => v,
        None => {
            assert(false);
            0
        },
    };
    proof {
        lemma_kernel_window(
            table@,
            m0,
            mem@,
            v0,
            fa@,
            sup_pml4,
            next,
            (vram.phys_base - vram.phys_base % PAGE_4K) as u64,
            pages_for(vram.phys_base, vram.size),
            MMIO_FLAGS,
        );
        assert(same_pages(table@, m0, mem@)) by {
            reveal(same_pages);
        }
        reveal(window_mapped);
    }
    virt
}

/// Video memory stays visible where the supervisor's pages stay.
proof fn lemma_still_visible(m: Seq<u64>, m2: Seq<u64>, sup: u64, next: u64, vram: BarInfo)
    requires
        next >= MMIO_VIRT_BASE,
        next % PAGE_4K == 0,
        mmio_fits(next, vram.phys_base, vram.size),
        vram_visible(m, sup, next, vram),
        same_leaves(m, m2, sup, 256, 512),
    ensures
        vram_visible(m2, sup, next, vram),
{
    reveal(same_leaves);
    let n = pages_for(vram.phys_base, vram.size);
    lemma_top_gib(next, n);
    assert forall|j: int| 0 <= j < n implies #[trigger] leaf(m2, sup, page(next, j)) == leaf(
        m,
        sup,
        page(next, j),
    ) by {
        assert(in_half(page(next, j), 256, 512));
    }
}

/// Capabilities do not matter to what a partition's shard has mapped.
proof fn lemma_equipped_hal(
    s: ShardDescriptor,
    s2: ShardDescriptor,
    m: Seq<u64>,
    caps: Seq<CapEntry>,
    code: Seq<u8>,
    part: GpuPartition,
    mmio: DeviceRange,
    vram: DeviceRange,
)
    requires
        equipped(s, s2, caps),
        hal_shard(s, m, code, part, mmio, vram),
    ensures
        hal_shard(s2, m, code, part, mmio, vram),
{
    reveal(hal_shard);
}

/// Initialize the GPU whose base address registers are given: map its video memory for the
/// supervisor, split it, and create a shard with the given code for each partition, with a
/// channel between them and the capability to copy from the first to the second.
///
/// Where a register is missing or there is no room, no shard is created and nothing is
/// mapped.
#[verifier::rlimit(60)]
pub fn init(
    gpu: &mut Gpu,
    table: &mut ShardTable,
    channels: &mut ChannelTable,
    fa: &mut FrameAllocator,
    mem: &mut Memory,
    window: &mut MmioWindow,
    sup_pml4: u64,
    bars: &[BarInfo; 6],
    prng: &mut Prng,
    code: &[u8],
    stack_tops: &[u64; MAX_SHARDS],
) -> (r: GpuInit)
    requires
        old(gpu).wf(),
        old(table).wf(),
        old(channels).wf(),
        old(fa).wf(),
        old(fa)@.within(old(mem)@.len()),
        old(window).wf(),
        isolated(old(table)@, old(mem)@, old(fa)@),
        kernel_ok(old(table)@, old(mem)@, old(fa)@, sup_pml4),
        code@.len() <= 3 * 4096,
    ensures
        final(gpu).wf(),
        final(table).wf(),
        final(table).current == old(table).current,
        final(channels).wf(),
        final(fa).wf(),
        final(fa)@.within(final(mem)@.len()),
        final(window).wf(),
        isolated(final(table)@, final(mem)@, final(fa)@),
        kernel_ok(final(table)@, final(mem)@, final(fa)@, sup_pml4),
        same_pages(old(table)@, old(mem)@, final(mem)@),
        !(r is Ready) ==> {
            &&& final(gpu)@ == old(gpu)@
            &&& final(table)@ == old(table)@
            &&& final(channels)@ == old(channels)@
            &&& final(fa)@ == old(fa)@
            &&& final(mem)@ == old(mem)@
            &&& final(window).next() == old(window).next()
            &&& final(prng).state() == old(prng).state()
        },
        r is NoMmioBar <==> first_bar(bars@, false, 0) is None,
        r is NoVramBar <==> first_bar(bars@, false, 0) is Some && first_bar(
            bars@,
            true,
            0,
        ) is None,
        match (first_bar(bars@, false, 0), first_bar(bars@, true, 0)) {
            (Some(mmio), Some(vram)) => {
                let seed = old(prng).state();
                let second = after_place(seed, vram, mmio);
                let next = old(window).next();
                let s0 = first_free(old(table)@, 0);
                let s1 = first_free(old(table)@, s0 + 1);
                &&& r is Ready <==> gpu_room(
                    old(table)@,
                    old(mem)@,
                    old(fa)@,
                    sup_pml4,
                    next,
                    vram,
                    mmio,
                    code@.len() as int,
                    seed,
                )
                &&& r matches GpuInit::Ready { vram_virt, shards } ==> {
                    let place0 = place_of(seed, vram, mmio)->0;
                    let place1 = place_of(second, vram, mmio)->0;
                    &&& vram_virt == next + vram.phys_base % PAGE_4K
                    &&& final(window).next() == next + pages_for(vram.phys_base, vram.size)
                        * PAGE_4K
                    &&& vram_visible(final(mem)@, sup_pml4, next, vram)
                    &&& shards@ == seq![s0 as usize, s1 as usize]
                    &&& final(gpu)@ == seq![
                        owned(partition(vram.size, 0), s0 as usize),
                        owned(partition(vram.size, 1), s1 as usize),
                    ]
                    &&& final(channels)@ == old(channels)@.update(
                        0,
                        channel_between(s0 as usize, s1 as usize),
                    )
                    &&& forall|i: int|
                        0 <= i < MAX_SHARDS && i != s0 && i != s1 ==> #[trigger] final(table)@[i]
                            == old(table)@[i]
                    &&& partition_shard(
                        final(table)@[s0],
                        final(mem)@,
                        code@,
                        stack_tops@[s0],
                        sender_caps(),
                        partition(vram.size, 0),
                        mmio_seen(mmio, place0),
                        vram_seen(vram, 0, place0),
                    )
                    &&& partition_shard(
                        final(table)@[s1],
                        final(mem)@,
                        code@,
                        stack_tops@[s1],
                        receiver_caps(),
                        partition(vram.size, 1),
                        mmio_seen(mmio, place1),
                        vram_seen(vram, 1, place1),
                    )
                    &&& final(prng).state() == after_place(second, vram, mmio)
                    &&& final(fa)@.capacity() == old(fa)@.capacity() - window_missing(
                        old(mem)@,
                        sup_pml4,
                        next,
                        pages_for(vram.phys_base, vram.size),
                    ) - partition_frames(vram, mmio, code@.len() as int, 0, place0)
                        - partition_frames(vram, mmio, code@.len() as int, 1, place1)
                }
            },
            _ => true,
        },
{
    let ghost t0 = table@;
    let ghost m0 = mem@;
    let ghost v0 = fa@;
    let ghost next = window.next();
    let ghost seed = prng.state();
    proof {
        lemma_kernel_root(t0, m0, v0, sup_pml4);
        assert(same_pages(t0, m0, m0)) by {
            reveal(same_pages);
            reveal(same_leaves);
        }
    }
    let mmio: BarInfo = match find_bar(bars, false) {
        Some(b) => b,
        None => {
            return GpuInit::NoMmioBar;
        },
    };
    let vram: BarInfo = match find_bar(bars, true) {
        Some(b) => b,
        None => {
            return GpuInit::NoVramBar;
        },
    };
    let mut draws: Prng = *prng;
    let plan = match plan_shards(table, mem, window, sup_pml4, &mut draws, &vram, &mmio) {
        Some(plan) => plan,
        None => {
            return GpuInit::NoRoom;
        },
    };
    let partitions = create_partitions(vram.size);
    let part0 = partitions.partition(0);
    let part1 = partitions.partition(1);
    proof {
        lemma_placed(seed, vram, mmio, 0);
        lemma_placed(after_place(seed, vram, mmio), vram, mmio, 1);
    }
    let frames0: u64 = count_frames(code.len(), &vram, &mmio, &part0, plan.place0);
    let frames1: u64 = count_frames(code.len(), &vram, &mmio, &part1, plan.place1);
    if !has_frames(fa, plan.kernel_frames + frames0 + frames1) {
        return GpuInit::NoRoom;
    }
    let vram_virt: u64 = map_video(table, window, fa, mem, sup_pml4, &vram);
    let ghost m1 = mem@;
    let s0: usize = plan.s0;
    let s1: usize = plan.s1;
    create_shards(
        table,
        fa,
        mem,
        sup_pml4,
        code,
        stack_tops,
        &vram,
        &mmio,
        &part0,
        &part1,
        plan.place0,
        plan.place1,
        s0,
        s1,
    );
    let ghost t2 = table@;
    connect(table, channels, s0, s1);
    *prng = draws;
    *gpu = partitions;
    gpu.set_owner(0, s0);
    gpu.set_owner(1, s1);
    proof {
        let m2 = mem@;
        assert forall|i: int| 0 <= i < t2.len() implies (#[trigger] table@[i]).live()
            == t2[i].live() && table@[i].frames() == t2[i].frames() && table@[i].frame_count
            == t2[i].frame_count && table@[i].pml4_phys == t2[i].pml4_phys by {
            if i != s0 && i != s1 {
                assert(table@[i] == t2[i]);
            }
        }
        lemma_isolated_same(t2, table@, m2, fa@);
        lemma_kernel_same(t2, table@, m2, fa@, sup_pml4);
        lemma_equipped_hal(
            t2[s0 as int],
            table@[s0 as int],
            m2,
            sender_caps(),
            code@,
            partition(vram.size, 0),
            mmio_seen(mmio, plan.place0),
            vram_seen(vram, 0, plan.place0),
        );
        lemma_equipped_hal(
            t2[s1 as int],
            table@[s1 as int],
            m2,
            receiver_caps(),
            code@,
            partition(vram.size, 1),
            mmio_seen(mmio, plan.place1),
            vram_seen(vram, 1, plan.place1),
        );
        assert(gpu@ =~= seq![owned(partition(vram.size, 0), s0), owned(partition(vram.size, 1), s1)]);
        lemma_still_visible(m1, m2, sup_pml4, next, vram);
        lemma_same_pages(t0, t0, m0, m1, m2);
    }
    let shards: [usize; MAX_GPU_PARTITIONS] = [s0, s1];
    assert(shards@ =~= seq![s0, s1]);
    GpuInit::Ready { vram_virt, shards }
}

/// What initialization has found out before it changes anything.
struct Plan {
    kernel_frames: u64,
    place0: (u64, u64),
    place1: (u64, u64),
    s0: usize,
    s1: usize,
}

/// Find slots for both shards, places for their device memory, and how many frames it
/// takes to map video memory for the supervisor.
fn plan_shards(
    table: &ShardTable,
    mem: &Memory,
    window: &MmioWindow,
    sup_pml4: u64,
    prng: &mut Prng,
    vram: &BarInfo,
    mmio: &BarInfo,
) -> (r: Option<Plan>)
    requires
        table.wf(),
        window.wf(),
        tree_wf(mem@, sup_pml4, 256, 512),
        forall|x: u64| x >= MMIO_VIRT_BASE ==> !(#[trigger] leaf(mem@, sup_pml4, x) is Page2M),
    ensures
        ({
            let seed = old(prng).state();
            let second = after_place(seed, *vram, *mmio);
            &&& r is Some <==> gpu_fits(table@, window.next(), *vram, *mmio) && place_of(
                seed,
                *vram,
                *mmio,
            ) is Some && place_of(second, *vram, *mmio) is Some
            &&& r matches Some(plan) ==> {
                &&& plan.kernel_frames == window_missing(
                    mem@,
                    sup_pml4,
                    window.next(),
                    pages_for(vram.phys_base, vram.size),
                )
                &&& plan.kernel_frames <= 0x10_0000_0000_0003
                &&& plan.place0 == place_of(seed, *vram, *mmio)->0
                &&& plan.place1 == place_of(second, *vram, *mmio)->0
                &&& plan.s0 == first_free(table@, 0)
                &&& plan.s1 == first_free(table@, plan.s0 + 1)
                &&& plan.s0 < plan.s1 < MAX_SHARDS
                &&& !table@[plan.s0 as int].live()
                &&& !table@[plan.s1 as int].live()
                &&& final(prng).state() == after_place(second, *vram, *mmio)
            }
        }),
{
    if mmio.size > ASLR_END - ASLR_START - PAGE_4K {
        return None;
    }
    if mmio.size > 0 {
        let last: u64 = (count_pages(mmio.size) - 1) * PAGE_4K;
        if mmio.phys_base > u64::MAX - last {
            return None;
        }
    }
    let kernel_frames: u64 = match mmio_needs(window, mem, sup_pml4, vram.phys_base, vram.size) {
        Some(c) => c,
        None => {
            return None;
        },
    };
    let s0: usize = find_free(table, 0);
    if s0 >= MAX_SHARDS {
        return None;
    }
    let s1: usize = find_free(table, s0 + 1);
    if s1 >= MAX_SHARDS {
        return None;
    }
    let share: u64 = vram.size / MAX_GPU_PARTITIONS as u64;
    let vram_size: u64 = if share < MAX_VRAM_MAP {
        share
    } else {
        MAX_VRAM_MAP
    };
    assert(vram_size == map_size(*vram));
    let place0: (u64, u64) = match place(prng, vram_size, mmio.size) {
        Some(p) => p,
        None => {
            return None;
        },
    };
    let place1: (u64, u64) = match place(prng, vram_size, mmio.size) {
        Some(p) => p,
        None => {
            return None;
        },
    };
    Some(Plan { kernel_frames, place0, place1, s0, s1 })
}

/// Count the frames that the shard of a partition takes.
fn count_frames(
    code_len: usize,
    vram: &BarInfo,
    mmio: &BarInfo,
    part: &GpuPartition,
    place: (u64, u64),
) -> (n: u64)
    requires
        code_len <= 3 * 4096,
        seen_ok(*vram, *mmio, *part, place),
    ensures
        n == hal_frames(
            code_pages(code_len as int),
            bar_range(*mmio, place.1, mmio.size),
            vram_range(*vram, *part, place.0),
        ),
        n <= 2000,
{
    proof {
        reveal(seen_ok);
    }
    let size: u64 = if part.vram_size < MAX_VRAM_MAP {
        part.vram_size
    } else {
        MAX_VRAM_MAP
    };
    let mmio_pages: u64 = count_pages(mmio.size);
    let vram_pages: u64 = count_pages(size);
    count_hal_frames(
        code_len,
        &DeviceRange { phys: mmio.phys_base, virt: place.1, pages: mmio_pages },
        &DeviceRange {
            phys: vram.phys_base + part.vram_offset,
            virt: place.0,
            pages: vram_pages,
        },
    )
}

// ---------------------------------------------------------------------------
// Laws
// ---------------------------------------------------------------------------

/// The partitions do not meet and lie in video memory.
pub proof fn law_partitions_split(vram_size: u64)
    ensures
        ({
            let ps = Seq::new(MAX_GPU_PARTITIONS as nat, |i: int| partition(vram_size, i));
            &&& partitions_wf(ps)
            &&& partitions_within(ps, vram_size as int)
        }),
{
    let ps = Seq::new(MAX_GPU_PARTITIONS as nat, |i: int| partition(vram_size, i));
    let share = vram_size as int / 2;
    assert(ps[0] == partition(vram_size, 0) && ps[1] == partition(vram_size, 1));
    assert(ps[0].vram_offset == 0 && ps[0].vram_size == share);
    assert(ps[1].vram_offset == share && ps[1].vram_size == share);
    assert forall|i: int, j: int, a: int|
        0 <= i < ps.len() && 0 <= j < ps.len() && i != j implies !((#[trigger] ps[i].has(a)) && (
    #[trigger] ps[j].has(a))) by {
        assert((i == 0 && j == 1) || (i == 1 && j == 0));
    }
    assert(partitions_wf(ps)) by {
        assert forall|i: int| 0 <= i < ps.len() implies (#[trigger] ps[i]).vram_offset
            + ps[i].vram_size <= u64::MAX by {
            assert(i == 0 || i == 1);
        }
    }
    assert(partitions_within(ps, vram_size as int)) by {
        assert forall|i: int| 0 <= i < ps.len() implies (#[trigger] ps[i]).vram_offset
            + ps[i].vram_size <= vram_size by {
            assert(i == 0 || i == 1);
        }
    }
}

/// The partitions take up all of video memory, but for an odd last byte.
pub proof fn law_partitions_cover(vram_size: u64, a: int)
    requires
        0 <= a < vram_size - vram_size % 2,
    ensures
        exists|i: int| 0 <= i < MAX_GPU_PARTITIONS && #[trigger] partition(vram_size, i).has(a),
{
    assert(partition(vram_size, 0).has(a) || partition(vram_size, 1).has(a));
}

/// An entry holds the address of the page that an address below 2^52 lies in.
proof fn lemma_page_start(phys: u64, flags: u64)
    requires
        phys < 0x10_0000_0000_0000,
        flags & PTE_ADDR_MASK == 0,
    ensures
        pte_addr(pte_value(phys, flags)) == phys - phys % 4096,
{
    law_entry_round_trip(phys, flags);
    assert(phys & 0x000F_FFFF_FFFF_F000 == phys - phys % 4096) by (bit_vector)
        requires
            phys < 0x10_0000_0000_0000,
    ;
}

/// The shards of the two partitions see no common page of video memory, where the partitions
/// meet at the start of a page or one of them is not mapped to its end.
pub proof fn law_vram_isolated(
    vram: BarInfo,
    place0: (u64, u64),
    place1: (u64, u64),
    e0: u64,
    e1: u64,
)
    requires
        vram.phys_base + vram.size <= 0x10_0000_0000_0000,
        (vram.phys_base + partition(vram.size, 0).vram_size) % 4096 == 0 || partition(
            vram.size,
            0,
        ).vram_size >= MAX_VRAM_MAP + PAGE_4K,
        device_entry(vram_seen(vram, 0, place0), e0),
        device_entry(vram_seen(vram, 1, place1), e1),
    ensures
        pte_addr(e0) != pte_addr(e1),
{
    let d0 = vram_seen(vram, 0, place0);
    let d1 = vram_seen(vram, 1, place1);
    let flags = DEVICE_FLAGS | PTE_PRESENT;
    lemma_device_flags();
    lemma_present_flag(DEVICE_FLAGS);
    let share = vram.size as int / 2;
    let j0 = choose|j: int|
        0 <= j < d0.pages && e0 == pte_value(#[trigger] page(d0.phys, j), flags);
    let j1 = choose|j: int|
        0 <= j < d1.pages && e1 == pte_value(#[trigger] page(d1.phys, j), flags);
    assert(d0.phys == vram.phys_base && d1.phys == vram.phys_base + share);
    assert(d0.pages == pages_of(min(share as u64, MAX_VRAM_MAP)));
    assert(page(d0.phys, j0) == vram.phys_base + j0 * 4096);
    assert(page(d1.phys, j1) == vram.phys_base + share + j1 * 4096);
    lemma_page_start(page(d0.phys, j0), flags);
    lemma_page_start(page(d1.phys, j1), flags);
}

/// A copy changes no byte of video memory outside the target partition.
pub proof fn law_dma_stays_in_target(
    ps: Seq<GpuPartition>,
    t: Seq<ShardDescriptor>,
    v: Seq<u8>,
    caller: usize,
    target: int,
    src: int,
    dst: int,
    len: int,
    a: int,
)
    requires
        0 <= src,
        0 <= dst,
        0 <= target,
        0 <= a < v.len(),
        dma_ok(ps, t, v.len() as int, caller, target, src, dst, len),
        !ps[target].has(a),
    ensures
        copied(
            v,
            ps[first_owned(ps, caller, 0)].vram_offset + src,
            ps[target].vram_offset + dst,
            len,
        )[a] == v[a],
{
}

/// The bytes of the target are those of the source, which are not changed.
pub proof fn law_dma_delivers(v: Seq<u8>, s: int, d: int, n: int, k: int)
    requires
        0 <= s,
        0 <= d,
        s + n <= v.len(),
        d + n <= v.len(),
        s + n <= d || d + n <= s,
        0 <= k < n,
    ensures
        copied(v, s, d, n)[d + k] == v[s + k],
        copied(v, s, d, n)[s + k] == v[s + k],
{
}

/// Temporal isolation of video memory: once a shard that has exited is swept up, every byte
/// of its partitions is zero, and they have no owner.
pub proof fn law_video_memory_cleared(
    ps: Seq<GpuPartition>,
    ps2: Seq<GpuPartition>,
    t: Seq<ShardDescriptor>,
    v: Seq<u8>,
    v2: Seq<u8>,
    i: int,
    a: int,
)
    requires
        0 <= i < ps.len(),
        partitions_within(ps, v.len() as int),
        left_behind(ps[i], t),
        ps[i].has(a),
        ps2[i] == (if left_behind(ps[i], t) {
            disowned(ps[i])
        } else {
            ps[i]
        }),
        forall|b: int|
            0 <= b < v.len() ==> #[trigger] v2[b] == (if abandoned(ps, t, ps.len() as int, b) {
                0
            } else {
                v[b]
            }),
    ensures
        v2[a] == 0,
        ps2[i].owner_shard is None,
{
    assert(0 <= a < v.len());
    assert(abandoned(ps, t, ps.len() as int, a));
}

/// A pledge takes effect for good: a category that is gone stays gone.
pub proof fn law_pledge_never_adds(pledge: u64, mask: u64, category: u64)
    requires
        pledge & category == 0,
    ensures
        pledge & mask & category == 0,
        pledge & mask & !pledge == 0,
{
    assert(pledge & category == 0 ==> pledge & mask & category == 0) by (bit_vector);
    assert(pledge & mask & !pledge == 0) by (bit_vector);
}

/// A shard unveils at most once: the second attempt is refused whatever it asks for.
pub proof fn law_unveil_once(
    ps: Seq<GpuPartition>,
    t: Seq<ShardDescriptor>,
    id: int,
    offset: u64,
    size: u64,
    offset2: u64,
    size2: u64,
)
    requires
        0 <= id < t.len(),
        unveil_ok(ps, t, id, offset, size),
    ensures
        ({
            let t2 = t.update(
                id,
                (ShardDescriptor { vram_unveil_offset: offset, vram_unveil_size: size, ..t[id] }),
            );
            !unveil_ok(ps, t2, id, offset2, size2)
        }),
{
}

/// Whether byte number `a` of video memory lies in the partition and, where its shard has
/// unveiled a range, in that range, which counts from the start of the partition.
pub open spec fn open_byte(p: GpuPartition, s: ShardDescriptor, a: int) -> bool {
    &&& p.vram_offset <= a < p.vram_offset + p.vram_size
    &&& s.vram_unveil_size != 0 ==> p.vram_offset + s.vram_unveil_offset <= a < p.vram_offset
        + s.vram_unveil_offset + s.vram_unveil_size
}

/// The first partition of a shard, by the owners that the partitions have.
pub proof fn lemma_first_owned(ps: Seq<GpuPartition>, id: usize, i: int, from: int)
    requires
        0 <= i <= from <= ps.len(),
        from < ps.len() ==> ps[from].owner_shard == Some(id),
        forall|j: int| i <= j < from ==> (#[trigger] ps[j]).owner_shard != Some(id),
    ensures
        first_owned(ps, id, i) == from,
    decreases from - i,
{
    if i < from {
        assert(ps[i].owner_shard != Some(id));
        lemma_first_owned(ps, id, i + 1, from);
    }
}

/// A copy is made exactly where the caller has a capability of type 4 on the target with
/// right 1, and every byte that is read lies in the caller's own partition and in what the
/// caller has unveiled, and every byte that is written lies in the target and in what the
/// target's owner has unveiled. The bytes arrive in their order, and no other byte changes.
pub proof fn law_copy_by_bytes(
    ps: Seq<GpuPartition>,
    t: Seq<ShardDescriptor>,
    v: Seq<u8>,
    caller: usize,
    from: int,
    target: int,
    src: int,
    dst: int,
    len: int,
)
    requires
        partitions_wf(ps),
        v.len() > 0,
        partitions_within(ps, v.len() as int),
        0 <= from < ps.len(),
        ps[from].owner_shard == Some(caller),
        forall|j: int| 0 <= j < from ==> (#[trigger] ps[j]).owner_shard != Some(caller),
        0 <= target < ps.len(),
        0 <= src,
        0 <= dst,
    ensures
        ({
            let read = ps[from].vram_offset + src;
            let write = ps[target].vram_offset + dst;
            let own = ps[first_owned(ps, caller, 0)];
            let w = copied(v, own.vram_offset + src, ps[target].vram_offset + dst, len);
            let ok = dma_ok(ps, t, v.len() as int, caller, target, src, dst, len);
            &&& ok <==> {
                &&& len > 0
                &&& from != target
                &&& exists|c: int|
                    0 <= c < 16 && (#[trigger] t[caller as int].caps@[c]).valid
                        && t[caller as int].caps@[c].cap_type == 4
                        && t[caller as int].caps@[c].resource_id == target as u32
                        && t[caller as int].caps@[c].rights & 1 == 1
                &&& forall|a: int|
                    read <= a < read + len ==> #[trigger] open_byte(
                        ps[from],
                        t[caller as int],
                        a,
                    )
                &&& forall|a: int|
                    write <= a < write + len ==> #[trigger] ps[target].has(a) && (
                    ps[target].owner_shard matches Some(o) ==> open_byte(
                        ps[target],
                        t[o as int],
                        a,
                    ))
            }
            &&& ok ==> w.len() == v.len()
            &&& ok ==> forall|a: int|
                write <= a < write + len ==> #[trigger] w[a] == v[read + (a - write)]
            &&& ok ==> forall|a: int|
                0 <= a < v.len() && !(write <= a < write + len) ==> #[trigger] w[a] == v[a]
        }),
{
    lemma_first_owned(ps, caller, 0, from);
    let s = t[caller as int];
    let read = ps[from].vram_offset + src;
    let write = ps[target].vram_offset + dst;
    let has_cap = exists|c: int|
        0 <= c < 16 && (#[trigger] s.caps@[c]).valid && s.caps@[c].cap_type == 4
            && s.caps@[c].resource_id == target as u32 && s.caps@[c].rights & 1 == 1;
    assert(has_cap == holds(s, 4, target as u32, 1)) by {
        if has_cap {
            let c = choose|c: int|
                0 <= c < 16 && (#[trigger] s.caps@[c]).valid && s.caps@[c].cap_type == 4
                    && s.caps@[c].resource_id == target as u32 && s.caps@[c].rights & 1 == 1;
            assert(crate::capability::permits(s.caps@[c], 4, target as u32, 1));
        }
        if holds(s, 4, target as u32, 1) {
            let c = choose|c: int|
                0 <= c < 16 && crate::capability::permits(
                    #[trigger] s.caps@[c],
                    4,
                    target as u32,
                    1,
                );
            assert(s.caps@[c].valid);
        }
    }
    if len > 0 {
        let reads = forall|a: int|
            read <= a < read + len ==> #[trigger] open_byte(ps[from], s, a);
        if reads {
            assert(open_byte(ps[from], s, read) && open_byte(ps[from], s, read + len - 1));
        }
        let writes = forall|a: int|
            write <= a < write + len ==> #[trigger] ps[target].has(a) && (
            ps[target].owner_shard matches Some(o) ==> open_byte(ps[target], t[o as int], a));
        if writes {
            assert(ps[target].has(write) && ps[target].has(write + len - 1));
        }
    }
}

/// A range is unveiled exactly where nothing was unveiled before, it is not empty, and each
/// of its bytes lies in the partition of the shard.
pub proof fn law_unveil_by_bytes(
    ps: Seq<GpuPartition>,
    t: Seq<ShardDescriptor>,
    id: usize,
    own: int,
    offset: u64,
    size: u64,
)
    requires
        0 <= own < ps.len(),
        ps[own].owner_shard == Some(id),
        forall|j: int| 0 <= j < own ==> (#[trigger] ps[j]).owner_shard != Some(id),
    ensures
        unveil_ok(ps, t, id as int, offset, size) <==> {
            &&& t[id as int].vram_unveil_size == 0
            &&& size > 0
            &&& forall|a: int|
                ps[own].vram_offset + offset <= a < ps[own].vram_offset + offset + size
                    ==> #[trigger] ps[own].has(a)
        },
{
    lemma_first_owned(ps, id, 0, own);
    let start = ps[own].vram_offset + offset;
    if size > 0 && (forall|a: int| start <= a < start + size ==> #[trigger] ps[own].has(a)) {
        assert(ps[own].has(start + size - 1));
    }
}

/// A shard without a partition can neither unveil nor copy.
pub proof fn law_no_partition_no_copy(
    ps: Seq<GpuPartition>,
    t: Seq<ShardDescriptor>,
    vram_len: int,
    id: usize,
    target: int,
    src: int,
    dst: int,
    len: int,
)
    requires
        forall|j: int| 0 <= j < ps.len() ==> (#[trigger] ps[j]).owner_shard != Some(id),
    ensures
        !dma_ok(ps, t, vram_len, id, target, src, dst, len),
        forall|offset: u64, size: u64| !unveil_ok(ps, t, id as int, offset, size),
{
    lemma_first_owned(ps, id, 0, ps.len() as int);
}

/// The two partitions are the lower and the upper half of video memory, with four compute
/// units each and numbers 0 and 1.
pub proof fn law_partition_halves(vram_size: u64)
    ensures
        partition(vram_size, 0).vram_offset == 0,
        partition(vram_size, 1).vram_offset == vram_size / 2,
        forall|i: int|
            0 <= i < 2 ==> (#[trigger] partition(vram_size, i)).vram_size == vram_size / 2
                && partition(vram_size, i).cu_count == 4 && partition(vram_size, i).id == i
                && partition(vram_size, i).owner_shard is None,
{
    let share = vram_size as int / 2;
    assert forall|i: int| 0 <= i < 2 implies (#[trigger] partition(vram_size, i)).vram_size
        == vram_size / 2 && partition(vram_size, i).cu_count == 4 && partition(vram_size, i).id == i
        && partition(vram_size, i).owner_shard is None by {
        assert(i == 0 || i == 1);
        assert(MAX_GPU_PARTITIONS as u32 == 2);
        assert(partition(vram_size, i).vram_size == share);
    }
}

} // verus!
