//! What user code can reach: the pages that the page tables of a shard lead to.

use vstd::prelude::*;

use crate::frame::FrameView;
use crate::gpu::{same_pages, GpuPartition};
use crate::hal::{device_entry, hal_shard, law_hal_pages, DeviceRange};
use crate::kernel::{kernel_ok, law_destroy_keeps_supervisor, law_growth_keeps_supervisor};
use crate::kernel::{law_supervisor_hidden, lemma_kernel_kept, lemma_kernel_made};
use crate::kernel::{lemma_kernel_table, lemma_kernel_window, lemma_root_table, lemma_shard_root};
use crate::kernel::{lemma_upper_kept, upper_hidden, upper_shared, user_page};
use crate::links::{lemma_way_open, way_open};
use crate::mem::{frame_ok, in_frame};
use crate::mmap::data_mapped;
use crate::scheduler::{exited_frames, swept};
use crate::shard::{data_frame, isolated, law_new_shard_pages, lemma_isolated_grown};
use crate::shard::{lemma_isolated_made, lemma_isolated_released, lemma_own_frame};
use crate::shard::{lemma_shard_flags, shard_leaf, shard_wf, space_made, ShardDescriptor};
use crate::shard::{ShardState, MAX_SHARD_FRAMES, STACK_FLAGS};
use crate::space::{claimed, cleared, lemma_claimed, lemma_cleared_other, lemma_space_kept};
use crate::space::{lemma_space_tables, lower_tables, released, same_frame, space_grown, space_wf};
use crate::vmm::{executable, half_lo, in_half, indices, is_table, leaf, pte_addr, same_leaves};
use crate::vmm::{slot, writable, Leaf, PARENT_FLAGS};
use crate::window::{apart, page, window_mapped, MMIO_FLAGS};

verus! {

/// Whether a shard may have a page: it lies in one of the shard's data frames or belongs to
/// one of its devices, and is not both writable and executable.
pub open spec fn page_allowed(frames: Seq<u64>, devices: Seq<DeviceRange>, l: Leaf) -> bool {
    match l {
        Leaf::Unmapped => true,
        Leaf::Page4K(e) => {
            &&& !(writable(e) && executable(e))
            &&& data_frame(frames, pte_addr(e)) || exists|k: int|
                0 <= k < devices.len() && device_entry(#[trigger] devices[k], e)
        },
        Leaf::Page2M(_) => false,
    }
}

/// User code of the shard reaches its data frames and its devices, and nothing else: every
/// page of the lower half is one that it may have, and none of the upper half is for user
/// mode.
#[verifier::opaque]
pub open spec fn confined(s: ShardDescriptor, m: Seq<u64>, devices: Seq<DeviceRange>) -> bool {
    &&& forall|x: u64|
        in_half(x, 0, 256) ==> page_allowed(
            s.frames(),
            devices,
            #[trigger] leaf(m, s.pml4_phys, x),
        )
    &&& upper_hidden(m, s.pml4_phys)
}

/// Every shard with memory is confined to its frames and its devices.
pub open spec fn all_confined(
    t: Seq<ShardDescriptor>,
    m: Seq<u64>,
    devices: Seq<Seq<DeviceRange>>,
) -> bool {
    &&& devices.len() == t.len()
    &&& forall|i: int|
        0 <= i < t.len() && (#[trigger] t[i]).live() ==> confined(t[i], m, devices[i])
}

/// A shard stays confined where its pages stay.
proof fn lemma_confined_kept(
    t: Seq<ShardDescriptor>,
    m: Seq<u64>,
    m2: Seq<u64>,
    v2: FrameView,
    sup: u64,
    i: int,
    s: ShardDescriptor,
    devices: Seq<DeviceRange>,
)
    requires
        isolated(t, m2, v2),
        kernel_ok(t, m2, v2, sup),
        0 <= i < t.len(),
        t[i].live(),
        s.pml4_phys == t[i].pml4_phys,
        s.frames() == t[i].frames(),
        confined(s, m, devices),
        same_leaves(m, m2, s.pml4_phys, 0, 256),
    ensures
        confined(t[i], m2, devices),
{
    law_supervisor_hidden(t, m2, v2, sup, i);
    reveal(confined);
    reveal(same_leaves);
}

// ---------------------------------------------------------------------------
// Laws
// ---------------------------------------------------------------------------

/// Spatial isolation: a page that user code of a shard can reach belongs to one of the
/// shard's devices, or lies in a frame that is neither free nor a page table nor any other
/// shard's. None of the supervisor's half can be reached at all.
pub proof fn law_no_foreign_page(
    t: Seq<ShardDescriptor>,
    m: Seq<u64>,
    v: FrameView,
    sup: u64,
    devices: Seq<Seq<DeviceRange>>,
    i: int,
    j: int,
    x: u64,
)
    requires
        isolated(t, m, v),
        kernel_ok(t, m, v, sup),
        all_confined(t, m, devices),
        0 <= i < t.len(),
        0 <= j < t.len(),
        t[i].live(),
        in_half(x, 0, 256),
    ensures
        !(leaf(m, t[i].pml4_phys, x) is Page2M),
        leaf(m, t[i].pml4_phys, x) matches Leaf::Page4K(e) ==> {
            ||| exists|k: int|
                0 <= k < devices[i].len() && device_entry(#[trigger] devices[i][k], e)
            ||| {
                &&& data_frame(t[i].frames(), pte_addr(e))
                &&& !v.avail(pte_addr(e))
                &&& pte_addr(e) != t[i].pml4_phys
                &&& !lower_tables(m, t[i].pml4_phys).contains(pte_addr(e))
                &&& i != j && t[j].live() ==> !claimed(m, t[j].frames()).contains(pte_addr(e))
                &&& !is_table(m, sup, 256, 512, pte_addr(e))
            }
        },
        forall|y: u64|
            in_half(y, 256, 512) ==> !user_page(#[trigger] leaf(m, t[i].pml4_phys, y)),
{
    let f = t[i].frames();
    assert(shard_wf(t[i], m, v) && (i != j && t[j].live() ==> claimed(m, f).disjoint(
        claimed(m, t[j].frames()),
    ))) by {
        reveal(isolated);
    }
    lemma_claimed(m, v, f);
    reveal(confined);
    assert(page_allowed(f, devices[i], leaf(m, t[i].pml4_phys, x)));
    if let Leaf::Page4K(e) = leaf(m, t[i].pml4_phys, x) {
        if data_frame(f, pte_addr(e)) {
            let k = choose|k: int| 1 <= k < f.len() && #[trigger] f[k] == pte_addr(e);
            assert(claimed(m, f).contains(f[k]));
            reveal(space_wf);
            assert(f.contains(f[k]));
            assert(f[0] != f[k]);
            if is_table(m, sup, 256, 512, f[k]) {
                lemma_kernel_table(t, m, v, sup, f[k]);
            }
        }
    }
    reveal(upper_hidden);
}

/// No shard has a page that is both writable and executable.
pub proof fn law_write_xor_execute_everywhere(
    t: Seq<ShardDescriptor>,
    m: Seq<u64>,
    devices: Seq<Seq<DeviceRange>>,
    i: int,
    x: u64,
)
    requires
        all_confined(t, m, devices),
        0 <= i < t.len(),
        t[i].live(),
        in_half(x, 0, 256),
    ensures
        leaf(m, t[i].pml4_phys, x) matches Leaf::Page4K(e) ==> !(writable(e) && executable(e)),
        !(leaf(m, t[i].pml4_phys, x) is Page2M),
{
    reveal(confined);
    assert(page_allowed(t[i].frames(), devices[i], leaf(m, t[i].pml4_phys, x)));
}

/// A page of a shard has the rights that its own entry gives it: the entries on the way to
/// it are present, writable and for user mode.
pub proof fn law_pages_in_reach(
    t: Seq<ShardDescriptor>,
    m: Seq<u64>,
    v: FrameView,
    i: int,
    x: u64,
)
    requires
        isolated(t, m, v),
        0 <= i < t.len(),
        t[i].live(),
        in_half(x, 0, 256),
        leaf(m, t[i].pml4_phys, x) is Page4K,
    ensures
        way_open(m, t[i].pml4_phys, x, PARENT_FLAGS),
{
    assert(shard_wf(t[i], m, v)) by {
        reveal(isolated);
    }
    lemma_space_tables(m, v, t[i].frames());
    lemma_way_open(m, t[i].pml4_phys, 0, 256, PARENT_FLAGS, x);
}

/// Creating a shard confines it to its own frames, and keeps all others confined.
pub proof fn law_create_confines(
    t: Seq<ShardDescriptor>,
    m: Seq<u64>,
    m2: Seq<u64>,
    v: FrameView,
    v2: FrameView,
    sup: u64,
    id: int,
    s: ShardDescriptor,
    pages: int,
    devices: Seq<Seq<DeviceRange>>,
)
    requires
        isolated(t, m, v),
        kernel_ok(t, m, v, sup),
        all_confined(t, m, devices),
        0 <= id < t.len(),
        !t[id].live(),
        s.live(),
        v2.wf(),
        0 <= pages,
        s.frame_count == pages + 2,
        s.frame_count <= MAX_SHARD_FRAMES,
        s.pml4_phys == s.frames()[0],
        space_made(m, m2, v, v2, s.frames(), sup),
        forall|x: u64|
            in_half(x, 0, 256) ==> #[trigger] leaf(m2, s.pml4_phys, x) == shard_leaf(
                s.frames(),
                pages,
                x,
            ),
    ensures
        isolated(t.update(id, s), m2, v2),
        kernel_ok(t.update(id, s), m2, v2, sup),
        all_confined(t.update(id, s), m2, devices.update(id, Seq::empty())),
{
    let t2 = t.update(id, s);
    lemma_made_others(t, m, m2, v, v2, sup, id, s, devices, Seq::empty());
    assert(shard_wf(s, m2, v2)) by {
        reveal(space_made);
    }
    law_new_shard_pages(m2, v2, s, pages);
    law_supervisor_hidden(t2, m2, v2, sup, id);
    assert(confined(s, m2, Seq::empty())) by {
        reveal(confined);
        assert forall|x: u64| in_half(x, 0, 256) implies page_allowed(
            s.frames(),
            Seq::<DeviceRange>::empty(),
            #[trigger] leaf(m2, s.pml4_phys, x),
        ) by {}
    }
}

/// A new shard leaves the others confined.
proof fn lemma_made_others(
    t: Seq<ShardDescriptor>,
    m: Seq<u64>,
    m2: Seq<u64>,
    v: FrameView,
    v2: FrameView,
    sup: u64,
    id: int,
    s: ShardDescriptor,
    devices: Seq<Seq<DeviceRange>>,
    d: Seq<DeviceRange>,
)
    requires
        isolated(t, m, v),
        kernel_ok(t, m, v, sup),
        all_confined(t, m, devices),
        0 <= id < t.len(),
        !t[id].live(),
        s.live(),
        1 <= s.frame_count <= MAX_SHARD_FRAMES,
        s.pml4_phys == s.frames()[0],
        space_made(m, m2, v, v2, s.frames(), sup),
    ensures
        isolated(t.update(id, s), m2, v2),
        kernel_ok(t.update(id, s), m2, v2, sup),
        confined(s, m2, d) ==> all_confined(t.update(id, s), m2, devices.update(id, d)),
{
    let t2 = t.update(id, s);
    let d2 = devices.update(id, d);
    lemma_isolated_made(t, m, m2, v, v2, id, s, sup);
    lemma_kernel_made(t, m, m2, v, v2, sup, id, s);
    assert forall|i: int| 0 <= i < t2.len() && (#[trigger] t2[i]).live() && i != id implies confined(
        t2[i],
        m2,
        d2[i],
    ) by {
        assert(t2[i] == t[i] && d2[i] == devices[i]);
        assert(t[i].live());
        lemma_confined_kept(t2, m, m2, v2, sup, i, t[i], devices[i]);
    }
}

/// Creating the shard of a partition confines it to its own frames, the registers and its
/// share of video memory, and keeps all others confined.
pub proof fn law_hal_confines(
    t: Seq<ShardDescriptor>,
    m: Seq<u64>,
    m2: Seq<u64>,
    v: FrameView,
    v2: FrameView,
    sup: u64,
    id: int,
    s: ShardDescriptor,
    code: Seq<u8>,
    p: GpuPartition,
    mmio: DeviceRange,
    vram: DeviceRange,
    devices: Seq<Seq<DeviceRange>>,
)
    requires
        isolated(t, m, v),
        kernel_ok(t, m, v, sup),
        all_confined(t, m, devices),
        0 <= id < t.len(),
        !t[id].live(),
        s.live(),
        v2.wf(),
        s.frame_count <= MAX_SHARD_FRAMES,
        space_made(m, m2, v, v2, s.frames(), sup),
        hal_shard(s, m2, code, p, mmio, vram),
    ensures
        isolated(t.update(id, s), m2, v2),
        kernel_ok(t.update(id, s), m2, v2, sup),
        all_confined(t.update(id, s), m2, devices.update(id, seq![mmio, vram])),
{
    let t2 = t.update(id, s);
    let d = seq![mmio, vram];
    assert(s.pml4_phys == s.frames()[0] && s.frame_count >= 1) by {
        reveal(hal_shard);
    }
    lemma_made_others(t, m, m2, v, v2, sup, id, s, devices, d);
    assert(shard_wf(s, m2, v2)) by {
        reveal(space_made);
    }
    lemma_hal_confined(t2, m2, v2, sup, id, code, p, mmio, vram);
}

/// The shard of a partition is confined.
proof fn lemma_hal_confined(
    t: Seq<ShardDescriptor>,
    m: Seq<u64>,
    v: FrameView,
    sup: u64,
    i: int,
    code: Seq<u8>,
    p: GpuPartition,
    mmio: DeviceRange,
    vram: DeviceRange,
)
    requires
        isolated(t, m, v),
        kernel_ok(t, m, v, sup),
        v.wf(),
        0 <= i < t.len(),
        t[i].live(),
        hal_shard(t[i], m, code, p, mmio, vram),
    ensures
        confined(t[i], m, seq![mmio, vram]),
{
    let s = t[i];
    let d = seq![mmio, vram];
    assert(shard_wf(s, m, v)) by {
        reveal(isolated);
    }
    law_supervisor_hidden(t, m, v, sup, i);
    reveal(confined);
    assert forall|x: u64| in_half(x, 0, 256) implies page_allowed(
        s.frames(),
        d,
        #[trigger] leaf(m, s.pml4_phys, x),
    ) by {
        law_hal_pages(s, m, v, code, p, mmio, vram, x);
        assert(d[0] == mmio && d[1] == vram);
    }
}

/// Mapping data pages keeps every shard confined: the new pages lie in frames that have
/// joined the shard.
pub proof fn law_data_confined(
    t: Seq<ShardDescriptor>,
    m: Seq<u64>,
    m2: Seq<u64>,
    v: FrameView,
    v2: FrameView,
    sup: u64,
    id: int,
    s: ShardDescriptor,
    va: u64,
    n: int,
    devices: Seq<Seq<DeviceRange>>,
)
    requires
        isolated(t, m, v),
        kernel_ok(t, m, v, sup),
        all_confined(t, m, devices),
        0 <= id < t.len(),
        t[id].live(),
        v2.wf(),
        0 <= n,
        s.frame_count == t[id].frame_count + n,
        s.frame_count <= MAX_SHARD_FRAMES,
        s.pml4_phys == t[id].pml4_phys,
        s.live(),
        space_grown(m, m2, v, v2, t[id].frames(), s.frames()),
        data_mapped(m, m2, s.pml4_phys, s.frames(), t[id].frame_count as int, va, n),
    ensures
        isolated(t.update(id, s), m2, v2),
        kernel_ok(t.update(id, s), m2, v2, sup),
        all_confined(t.update(id, s), m2, devices),
{
    let t2 = t.update(id, s);
    let f = t[id].frames();
    let f2 = s.frames();
    let fc = t[id].frame_count as int;
    assert(shard_wf(t[id], m, v)) by {
        reveal(isolated);
    }
    lemma_isolated_grown(t, m, m2, v, v2, id, s);
    law_growth_keeps_supervisor(t, m, m2, v, v2, sup, id, s);
    assert forall|i: int| 0 <= i < t2.len() && (#[trigger] t2[i]).live() && i != id implies confined(
        t2[i],
        m2,
        devices[i],
    ) by {
        assert(t2[i] == t[i]);
        assert(t[i].live());
        lemma_confined_kept(t2, m, m2, v2, sup, i, t[i], devices[i]);
    }
    law_supervisor_hidden(t2, m2, v2, sup, id);
    assert(space_wf(m2, v2, f2) && f2.take(fc) == f) by {
        reveal(space_grown);
    }
    assert(confined(t[id], m, devices[id]));
    assert(confined(s, m2, devices[id])) by {
        reveal(confined);
        assert forall|x: u64| in_half(x, 0, 256) implies page_allowed(
            f2,
            devices[id],
            #[trigger] leaf(m2, s.pml4_phys, x),
        ) by {
            reveal(data_mapped);
            if apart(x, va, n) {
                assert(page_allowed(f, devices[id], leaf(m, s.pml4_phys, x)));
                if let Leaf::Page4K(e) = leaf(m, s.pml4_phys, x) {
                    if data_frame(f, pte_addr(e)) {
                        let k = choose|k: int| 1 <= k < f.len() && #[trigger] f[k] == pte_addr(e);
                        assert(f2.take(fc)[k] == f2[k]);
                    }
                }
            } else {
                let j = choose|j: int| 0 <= j < n && indices(x) == #[trigger] indices(page(va, j));
                assert(leaf(m2, s.pml4_phys, x) == leaf(m2, s.pml4_phys, page(va, j)));
                lemma_shard_flags();
                lemma_own_frame(m2, v2, f2, fc + j, STACK_FLAGS);
            }
        }
    }
}

/// Mapping device registers for the supervisor keeps every shard confined.
pub proof fn law_window_confined(
    t: Seq<ShardDescriptor>,
    m: Seq<u64>,
    m2: Seq<u64>,
    v: FrameView,
    v2: FrameView,
    sup: u64,
    virt: u64,
    phys: u64,
    n: int,
    devices: Seq<Seq<DeviceRange>>,
)
    requires
        isolated(t, m, v),
        kernel_ok(t, m, v, sup),
        all_confined(t, m, devices),
        half_lo(virt) == 256,
        window_mapped(m, m2, v, v2, sup, virt, phys, n, MMIO_FLAGS),
    ensures
        isolated(t, m2, v2),
        kernel_ok(t, m2, v2, sup),
        all_confined(t, m2, devices),
{
    lemma_kernel_window(t, m, m2, v, v2, sup, virt, phys, n, MMIO_FLAGS);
    assert forall|i: int| 0 <= i < t.len() && (#[trigger] t[i]).live() implies confined(
        t[i],
        m2,
        devices[i],
    ) by {
        lemma_confined_kept(t, m, m2, v2, sup, i, t[i], devices[i]);
    }
}

/// Destroying a shard keeps all others confined.
pub proof fn law_destroy_confined(
    t: Seq<ShardDescriptor>,
    m: Seq<u64>,
    m2: Seq<u64>,
    v: FrameView,
    v2: FrameView,
    sup: u64,
    id: int,
    s: ShardDescriptor,
    devices: Seq<Seq<DeviceRange>>,
)
    requires
        isolated(t, m, v),
        kernel_ok(t, m, v, sup),
        all_confined(t, m, devices),
        0 <= id < t.len(),
        t[id].live(),
        !s.live(),
        released(m, m2, v, v2, claimed(m, t[id].frames())),
    ensures
        isolated(t.update(id, s), m2, v2),
        kernel_ok(t.update(id, s), m2, v2, sup),
        all_confined(t.update(id, s), m2, devices),
{
    let t2 = t.update(id, s);
    lemma_isolated_released(t, m, m2, v, v2, id, s);
    law_destroy_keeps_supervisor(t, m, m2, v, v2, sup, id, s);
    assert forall|i: int| 0 <= i < t2.len() && (#[trigger] t2[i]).live() implies confined(
        t2[i],
        m2,
        devices[i],
    ) by {
        assert(i != id);
        assert(t2[i] == t[i]);
        assert(t[i].live());
        lemma_confined_kept(t2, m, m2, v2, sup, i, t[i], devices[i]);
    }
}

/// Destroying all shards that have exited keeps the others confined.
pub proof fn law_sweep_confined(
    t: Seq<ShardDescriptor>,
    t2: Seq<ShardDescriptor>,
    m: Seq<u64>,
    m2: Seq<u64>,
    v: FrameView,
    v2: FrameView,
    sup: u64,
    devices: Seq<Seq<DeviceRange>>,
)
    requires
        isolated(t, m, v),
        kernel_ok(t, m, v, sup),
        all_confined(t, m, devices),
        t2.len() == t.len(),
        isolated(t2, m2, v2),
        forall|i: int| 0 <= i < t.len() ==> swept(#[trigger] t[i], t2[i]),
        released(m, m2, v, v2, exited_frames(t, m, t.len() as int)),
    ensures
        kernel_ok(t2, m2, v2, sup),
        all_confined(t2, m2, devices),
{
    let gone = exited_frames(t, m, t.len() as int);
    reveal(released);
    assert(m2.len() == m.len()) by {
        reveal(cleared);
    }
    assert forall|f: u64| #[trigger] gone.contains(f) implies frame_ok(m, f) by {
        let k = choose|k: int|
            0 <= k < t.len() && (#[trigger] t[k]).state == ShardState::Exited && claimed(
                m,
                t[k].frames(),
            ).contains(f);
        lemma_shard_root(t, m, v, sup, k);
        lemma_claimed(m, v, t[k].frames());
    }
    assert forall|f: u64| #[trigger] is_table(m, sup, 256, 512, f) implies same_frame(m, m2, f)
        && !v2.avail(f) by {
        lemma_kernel_table(t, m, v, sup, f);
        assert(!gone.contains(f));
        lemma_cleared_other(m, gone, f);
    }
    lemma_root_table(m, sup);
    assert(same_frame(m, m2, sup));
    assert forall|i: int| 0 <= i < t2.len() && (#[trigger] t2[i]).live() implies t2[i] == t[i]
        && claimed(m2, t[i].frames()) == claimed(m, t[i].frames()) && same_leaves(
        m,
        m2,
        t[i].pml4_phys,
        0,
        256,
    ) && upper_shared(m2, sup, t2[i].frames()[0]) by {
        assert(swept(t[i], t2[i]));
        assert(t2[i] == t[i]);
        lemma_sweep_other(t, m, m2, v, v2, sup, i);
    }
    assert forall|i: int, f: u64|
        0 <= i < t2.len() && (#[trigger] t2[i]).live() && (#[trigger] is_table(
            m,
            sup,
            256,
            512,
            f,
        )) implies !claimed(m2, t2[i].frames()).contains(f) by {
        lemma_kernel_table(t, m, v, sup, f);
        assert(t2[i] == t[i]);
    }
    lemma_kernel_kept(t, t2, m, m2, v, v2, sup);
    assert forall|i: int| 0 <= i < t2.len() && (#[trigger] t2[i]).live() implies confined(
        t2[i],
        m2,
        devices[i],
    ) by {
        assert(t[i].live());
        lemma_confined_kept(t2, m, m2, v2, sup, i, t[i], devices[i]);
    }
}

proof fn lemma_sweep_other(
    t: Seq<ShardDescriptor>,
    m: Seq<u64>,
    m2: Seq<u64>,
    v: FrameView,
    v2: FrameView,
    sup: u64,
    i: int,
)
    requires
        isolated(t, m, v),
        kernel_ok(t, m, v, sup),
        0 <= i < t.len(),
        t[i].live(),
        t[i].state != ShardState::Exited,
        released(m, m2, v, v2, exited_frames(t, m, t.len() as int)),
        m2.len() == m.len(),
        same_frame(m, m2, sup),
        forall|f: u64| #[trigger]
            exited_frames(t, m, t.len() as int).contains(f) ==> frame_ok(m, f),
    ensures
        claimed(m2, t[i].frames()) == claimed(m, t[i].frames()),
        same_leaves(m, m2, t[i].pml4_phys, 0, 256),
        upper_shared(m2, sup, t[i].frames()[0]),
{
    let gone = exited_frames(t, m, t.len() as int);
    let f = t[i].frames();
    lemma_shard_root(t, m, v, sup, i);
    lemma_claimed(m, v, f);
    assert(t[i].pml4_phys == f[0]) by {
        reveal(isolated);
        assert(shard_wf(t[i], m, v));
    }
    assert forall|x: u64| #[trigger] claimed(m, f).contains(x) implies same_frame(m, m2, x)
        && !v2.avail(x) && v2.owns(x) by {
        reveal(released);
        if gone.contains(x) {
            let k = choose|k: int|
                0 <= k < t.len() && (#[trigger] t[k]).state == ShardState::Exited && claimed(
                    m,
                    t[k].frames(),
                ).contains(x);
            reveal(isolated);
            assert(claimed(m, t[i].frames()).disjoint(claimed(m, t[k].frames())));
        }
        lemma_cleared_other(m, gone, x);
    }
    lemma_space_kept(m, m2, v, v2, f);
    assert(same_frame(m, m2, f[0]));
    assert forall|k: int| 256 <= k < 512 implies #[trigger] m2[slot(f[0], k)] == m[slot(f[0], k)] by {
        assert(in_frame(slot(f[0], k), f[0]));
    }
    lemma_upper_kept(m, m2, sup, f[0]);
}

/// Initializing the GPU confines the shards of the two partitions, and keeps all others
/// confined.
pub proof fn law_gpu_confines(
    t: Seq<ShardDescriptor>,
    t2: Seq<ShardDescriptor>,
    m: Seq<u64>,
    m2: Seq<u64>,
    v2: FrameView,
    sup: u64,
    s0: int,
    s1: int,
    code: Seq<u8>,
    parts: Seq<GpuPartition>,
    mmio: Seq<DeviceRange>,
    vram: Seq<DeviceRange>,
    devices: Seq<Seq<DeviceRange>>,
)
    requires
        all_confined(t, m, devices),
        t2.len() == t.len(),
        isolated(t2, m2, v2),
        kernel_ok(t2, m2, v2, sup),
        v2.wf(),
        same_pages(t, m, m2),
        0 <= s0 < t.len(),
        0 <= s1 < t.len(),
        s0 != s1,
        forall|i: int| 0 <= i < t.len() && i != s0 && i != s1 ==> #[trigger] t2[i] == t[i],
        t2[s0].live(),
        t2[s1].live(),
        hal_shard(t2[s0], m2, code, parts[0], mmio[0], vram[0]),
        hal_shard(t2[s1], m2, code, parts[1], mmio[1], vram[1]),
    ensures
        all_confined(
            t2,
            m2,
            devices.update(s0, seq![mmio[0], vram[0]]).update(s1, seq![mmio[1], vram[1]]),
        ),
{
    let d = devices.update(s0, seq![mmio[0], vram[0]]).update(s1, seq![mmio[1], vram[1]]);
    lemma_hal_confined(t2, m2, v2, sup, s0, code, parts[0], mmio[0], vram[0]);
    lemma_hal_confined(t2, m2, v2, sup, s1, code, parts[1], mmio[1], vram[1]);
    assert forall|i: int| 0 <= i < t2.len() && (#[trigger] t2[i]).live() implies confined(
        t2[i],
        m2,
        d[i],
    ) by {
        if i != s0 && i != s1 {
            assert(t2[i] == t[i]);
            assert(t[i].live());
            reveal(same_pages);
            lemma_confined_kept(t2, m, m2, v2, sup, i, t[i], devices[i]);
        }
    }
}

/// What the supervisor keeps of a shard beside its memory does not matter to what it
/// reaches.
pub proof fn lemma_confined_same(
    t: Seq<ShardDescriptor>,
    t2: Seq<ShardDescriptor>,
    m: Seq<u64>,
    devices: Seq<Seq<DeviceRange>>,
)
    requires
        all_confined(t, m, devices),
        t2.len() == t.len(),
        forall|i: int|
            0 <= i < t.len() ==> (#[trigger] t2[i]).live() == t[i].live() && t2[i].frames()
                == t[i].frames() && t2[i].pml4_phys == t[i].pml4_phys,
    ensures
        all_confined(t2, m, devices),
{
    assert forall|i: int| 0 <= i < t2.len() && (#[trigger] t2[i]).live() implies confined(
        t2[i],
        m,
        devices[i],
    ) by {
        assert(t[i].live());
        reveal(confined);
    }
}

} // verus!
