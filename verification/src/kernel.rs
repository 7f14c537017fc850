//! The supervisor's half of the address space, beside the address spaces of the shards.

use vstd::prelude::*;

use crate::frame::FrameView;
use crate::links::{lemma_links_same, lemma_user_bits, lemma_ways_grown, link, links_grown};
use crate::links::ways_open;
use crate::mem::{frame_ok, in_frame, zeroed};
use crate::shard::{isolated, lemma_isolated_grown, shard_wf, space_made, ShardDescriptor};
use crate::shard::MAX_SHARD_FRAMES;
use crate::space::{claimed, cleared, in_frames, lemma_claimed, lemma_cleared_other};
use crate::space::{lemma_free_frame_apart, lemma_space_kept, released, same_frame, space_grown};
use crate::space::space_wf;
use crate::vmm::{half_lo, in_half, indices, is_table, leaf, lemma_frames_apart, lemma_indices_ok};
use crate::vmm::{lemma_root, lemma_same_tree, lemma_step, path_ok, present, same_leaves, slot};
use crate::vmm::{pte_value, table_at, tables_taken, tree_wf, user, Leaf, PARENT_FLAGS_2M};
use crate::vmm::PTE_PRESENT;
use crate::window::{apart, page, window_mapped, MMIO_FLAGS, MMIO_VIRT_BASE};

verus! {

/// Whether user mode may use the page.
pub open spec fn user_page(l: Leaf) -> bool {
    match l {
        Leaf::Unmapped => false,
        Leaf::Page4K(e) => user(e),
        Leaf::Page2M(e) => user(e),
    }
}

/// No page of the upper half is for user mode.
#[verifier::opaque]
pub open spec fn upper_hidden(m: Seq<u64>, root: u64) -> bool {
    forall|x: u64| in_half(x, 256, 512) ==> !user_page(#[trigger] leaf(m, root, x))
}

/// The table at `root` has no entries for the upper half but those of the table at `sup`.
#[verifier::opaque]
pub open spec fn upper_shared(m: Seq<u64>, sup: u64, root: u64) -> bool {
    forall|k: int|
        256 <= k < 512 && present(#[trigger] m[slot(root, k)]) ==> m[slot(root, k)] == m[slot(
            sup,
            k,
        )]
}

/// The supervisor's page tables are in order: none of them is free or belongs to a shard,
/// the entries that lead to them allow writing, no page is for user mode, the window for
/// device registers has no large pages, and the upper half of each shard is the
/// supervisor's.
#[verifier::opaque]
pub open spec fn kernel_ok(t: Seq<ShardDescriptor>, m: Seq<u64>, v: FrameView, sup: u64) -> bool {
    &&& tree_wf(m, sup, 256, 512)
    &&& tables_taken(m, sup, 256, 512, v)
    &&& ways_open(m, sup, 256, 512, PARENT_FLAGS_2M)
    &&& upper_hidden(m, sup)
    &&& forall|x: u64| x >= MMIO_VIRT_BASE ==> !(#[trigger] leaf(m, sup, x) is Page2M)
    &&& forall|i: int|
        0 <= i < t.len() && (#[trigger] t[i]).live() ==> upper_shared(m, sup, t[i].frames()[0])
    &&& forall|i: int, q: Seq<int>|
        0 <= i < t.len() && (#[trigger] t[i]).live() && path_ok(q, 256, 512) ==> (
        #[trigger] table_at(m, sup, q) matches Some(f) ==> !claimed(m, t[i].frames()).contains(f))
}

/// The supervisor's root table lies in memory and is not free.
pub proof fn lemma_kernel_root(t: Seq<ShardDescriptor>, m: Seq<u64>, v: FrameView, sup: u64)
    requires
        kernel_ok(t, m, v, sup),
    ensures
        frame_ok(m, sup),
        !v.avail(sup),
        tree_wf(m, sup, 256, 512),
        tables_taken(m, sup, 256, 512, v),
        ways_open(m, sup, 256, 512, PARENT_FLAGS_2M),
        forall|x: u64| x >= MMIO_VIRT_BASE ==> !(#[trigger] leaf(m, sup, x) is Page2M),
{
    reveal(kernel_ok);
    reveal_with_fuel(table_at, 1);
    let none = Seq::<int>::empty();
    assert(path_ok(none, 256, 512));
    assert(table_at(m, sup, none) == Some(sup));
}

/// A root table keeps the supervisor's upper half where neither of the two changes.
pub proof fn lemma_upper_kept(m: Seq<u64>, m2: Seq<u64>, sup: u64, root: u64)
    requires
        upper_shared(m, sup, root),
        same_frame(m, m2, sup),
        forall|k: int| 256 <= k < 512 ==> #[trigger] m2[slot(root, k)] == m[slot(root, k)],
    ensures
        upper_shared(m2, sup, root),
{
    reveal(upper_shared);
    assert forall|k: int|
        256 <= k < 512 && present(#[trigger] m2[slot(root, k)]) implies m2[slot(root, k)] == m2[slot(
        sup,
        k,
    )] by {
        assert(in_frame(slot(sup, k), sup));
        assert(m[slot(root, k)] == m2[slot(root, k)]);
    }
}

/// The supervisor's page tables stay in order where none of their words changes.
pub proof fn lemma_kernel_kept(
    t: Seq<ShardDescriptor>,
    t2: Seq<ShardDescriptor>,
    m: Seq<u64>,
    m2: Seq<u64>,
    v: FrameView,
    v2: FrameView,
    sup: u64,
)
    requires
        kernel_ok(t, m, v, sup),
        m2.len() == m.len(),
        forall|f: u64| #[trigger] is_table(m, sup, 256, 512, f) ==> same_frame(m, m2, f)
            && !v2.avail(f),
        forall|i: int|
            0 <= i < t2.len() && (#[trigger] t2[i]).live() ==> upper_shared(
                m2,
                sup,
                t2[i].frames()[0],
            ),
        forall|i: int, f: u64|
            0 <= i < t2.len() && (#[trigger] t2[i]).live() && (#[trigger] is_table(
                m,
                sup,
                256,
                512,
                f,
            )) ==> !claimed(m2, t2[i].frames()).contains(f),
    ensures
        kernel_ok(t2, m2, v2, sup),
        same_leaves(m, m2, sup, 256, 512),
{
    reveal(kernel_ok);
    assert forall|f: u64, w: int|
        is_table(m, sup, 256, 512, f) && #[trigger] in_frame(w, f) implies m2[w] == m[w] by {
        assert(same_frame(m, m2, f));
    }
    lemma_same_tree(m, m2, sup, 256, 512);
    lemma_links_same(m, m2, sup, 256, 512);
    lemma_ways_grown(m, m2, sup, 256, 512, PARENT_FLAGS_2M);
    assert(upper_hidden(m2, sup)) by {
        reveal(upper_hidden);
        reveal(same_leaves);
    }
    assert forall|x: u64| x >= MMIO_VIRT_BASE implies !(#[trigger] leaf(m2, sup, x) is Page2M) by {
        assert(in_half(x, 256, 512));
        reveal(same_leaves);
        assert(leaf(m2, sup, x) == leaf(m, sup, x));
    }
    assert forall|q: Seq<int>| path_ok(q, 256, 512) implies (#[trigger] table_at(
        m2,
        sup,
        q,
    ) matches Some(f) ==> !v2.avail(f)) by {
        assert(table_at(m2, sup, q) == table_at(m, sup, q));
        if let Some(f) = table_at(m, sup, q) {
            assert(is_table(m, sup, 256, 512, f));
        }
    }
    assert forall|i: int, q: Seq<int>|
        0 <= i < t2.len() && (#[trigger] t2[i]).live() && path_ok(q, 256, 512) implies (
    #[trigger] table_at(m2, sup, q) matches Some(f) ==> !claimed(m2, t2[i].frames()).contains(f)) by {
        assert(table_at(m2, sup, q) == table_at(m, sup, q));
        if let Some(f) = table_at(m, sup, q) {
            assert(is_table(m, sup, 256, 512, f));
        }
    }
}

/// What holds of each of the supervisor's page tables.
pub proof fn lemma_kernel_table(
    t: Seq<ShardDescriptor>,
    m: Seq<u64>,
    v: FrameView,
    sup: u64,
    f: u64,
)
    requires
        kernel_ok(t, m, v, sup),
        is_table(m, sup, 256, 512, f),
    ensures
        frame_ok(m, f),
        !v.avail(f),
        forall|i: int|
            0 <= i < t.len() && (#[trigger] t[i]).live() ==> !claimed(m, t[i].frames()).contains(f),
{
    reveal(kernel_ok);
    let q = choose|q: Seq<int>| path_ok(q, 256, 512) && #[trigger] table_at(m, sup, q) == Some(f);
    assert(table_at(m, sup, q) == Some(f));
}

/// What holds of the root table of a shard.
pub proof fn lemma_shard_root(
    t: Seq<ShardDescriptor>,
    m: Seq<u64>,
    v: FrameView,
    sup: u64,
    i: int,
)
    requires
        isolated(t, m, v),
        kernel_ok(t, m, v, sup),
        0 <= i < t.len(),
        t[i].live(),
    ensures
        space_wf(m, v, t[i].frames()),
        upper_shared(m, sup, t[i].frames()[0]),
        claimed(m, t[i].frames()).contains(t[i].frames()[0]),
        frame_ok(m, t[i].frames()[0]),
        !v.avail(t[i].frames()[0]),
{
    reveal(kernel_ok);
    assert(space_wf(m, v, t[i].frames())) by {
        reveal(isolated);
    }
    lemma_claimed(m, v, t[i].frames());
    assert(claimed(m, t[i].frames()).contains(t[i].frames()[0]));
}

/// Mapping device registers changes no word of a shard's frames.
proof fn lemma_window_frame(
    t: Seq<ShardDescriptor>,
    m: Seq<u64>,
    m2: Seq<u64>,
    v: FrameView,
    v2: FrameView,
    sup: u64,
    virt: u64,
    phys: u64,
    n: int,
    flags: u64,
    i: int,
    x: u64,
)
    requires
        kernel_ok(t, m, v, sup),
        half_lo(virt) == 256,
        window_mapped(m, m2, v, v2, sup, virt, phys, n, flags),
        0 <= i < t.len(),
        t[i].live(),
        claimed(m, t[i].frames()).contains(x),
        frame_ok(m, x),
        !v.avail(x),
        v.owns(x),
    ensures
        same_frame(m, m2, x),
        !v2.avail(x),
        v2.owns(x),
{
    reveal(window_mapped);
    assert forall|w: int| in_frame(w, x) implies #[trigger] m2[w] == m[w] by {
        lemma_free_frame_apart(m, v, x, w);
        if m2[w] != m[w] {
            let q = choose|q: Seq<int>|
                path_ok(q, 256, 512) && (#[trigger] table_at(m, sup, q) matches Some(y)
                    && in_frame(w, y));
            let y = table_at(m, sup, q)->0;
            reveal(kernel_ok);
            lemma_frames_apart(m, x, y, w);
        }
    }
}

/// Mapping device registers leaves the shards as they are.
#[verifier::rlimit(30)]
pub proof fn lemma_kernel_window(
    t: Seq<ShardDescriptor>,
    m: Seq<u64>,
    m2: Seq<u64>,
    v: FrameView,
    v2: FrameView,
    sup: u64,
    virt: u64,
    phys: u64,
    n: int,
    flags: u64,
)
    requires
        isolated(t, m, v),
        kernel_ok(t, m, v, sup),
        half_lo(virt) == 256,
        window_mapped(m, m2, v, v2, sup, virt, phys, n, flags),
        flags == MMIO_FLAGS,
    ensures
        isolated(t, m2, v2),
        kernel_ok(t, m2, v2, sup),
        forall|i: int|
            0 <= i < t.len() && (#[trigger] t[i]).live() ==> claimed(m2, t[i].frames()) == claimed(
                m,
                t[i].frames(),
            ) && same_leaves(m, m2, t[i].pml4_phys, 0, 256),
{
    assert(m2.len() == m.len()) by {
        reveal(window_mapped);
    }
    assert forall|i: int| 0 <= i < t.len() && (#[trigger] t[i]).live() implies space_wf(
        m2,
        v2,
        t[i].frames(),
    ) && claimed(m2, t[i].frames()) == claimed(m, t[i].frames()) && same_leaves(
        m,
        m2,
        t[i].pml4_phys,
        0,
        256,
    ) by {
        let f = t[i].frames();
        assert(shard_wf(t[i], m, v)) by {
            reveal(isolated);
        }
        lemma_claimed(m, v, f);
        assert forall|x: u64| #[trigger] claimed(m, f).contains(x) implies same_frame(m, m2, x)
            && !v2.avail(x) && v2.owns(x) by {
            lemma_window_frame(t, m, m2, v, v2, sup, virt, phys, n, flags, i, x);
        }
        lemma_space_kept(m, m2, v, v2, f);
    }
    assert(isolated(t, m2, v2)) by {
        reveal(isolated);
        assert forall|i: int| 0 <= i < t.len() && (#[trigger] t[i]).live() implies shard_wf(
            t[i],
            m2,
            v2,
        ) by {
            assert(shard_wf(t[i], m, v));
        }
    }
    lemma_window_tables(t, m, m2, v, v2, sup, virt, phys, n, flags);
}

/// A root table keeps the supervisor's upper half where device registers are mapped there.
proof fn lemma_window_upper(
    m: Seq<u64>,
    m2: Seq<u64>,
    v: FrameView,
    v2: FrameView,
    sup: u64,
    virt: u64,
    phys: u64,
    n: int,
    flags: u64,
    root: u64,
)
    requires
        tree_wf(m, sup, 256, 512),
        half_lo(virt) == 256,
        window_mapped(m, m2, v, v2, sup, virt, phys, n, flags),
        upper_shared(m, sup, root),
        same_frame(m, m2, root),
    ensures
        upper_shared(m2, sup, root),
{
    reveal(upper_shared);
    reveal(window_mapped);
    assert forall|k: int|
        256 <= k < 512 && present(#[trigger] m2[slot(root, k)]) implies m2[slot(root, k)] == m2[slot(
        sup,
        k,
    )] by {
        assert(in_frame(slot(root, k), root));
        assert(m[slot(root, k)] == m2[slot(root, k)]);
        let q = seq![k];
        assert(q.take(0) =~= Seq::<int>::empty() && q.take(1) =~= q && q.drop_last() =~= q.take(0));
        lemma_root(m, sup, q);
        lemma_root(m2, sup, q);
        lemma_step(m, sup, q, 0);
        assert(path_ok(q, 256, 512));
        assert(table_at(m, sup, q) is Some);
        reveal(links_grown);
        assert(table_at(m2, sup, q) is Some);
        assert(link(m2, sup, q) == link(m, sup, q));
    }
}

/// No page of the upper half is for user mode after mapping device registers.
proof fn lemma_window_hidden(
    m: Seq<u64>,
    m2: Seq<u64>,
    v: FrameView,
    v2: FrameView,
    sup: u64,
    virt: u64,
    phys: u64,
    n: int,
    flags: u64,
)
    requires
        half_lo(virt) == 256,
        window_mapped(m, m2, v, v2, sup, virt, phys, n, flags),
        flags == MMIO_FLAGS,
        upper_hidden(m, sup),
        forall|x: u64| x >= MMIO_VIRT_BASE ==> !(#[trigger] leaf(m, sup, x) is Page2M),
    ensures
        upper_hidden(m2, sup),
        forall|x: u64| x >= MMIO_VIRT_BASE ==> !(#[trigger] leaf(m2, sup, x) is Page2M),
{
    assert(!user(flags)) by {
        assert(0x8000_0000_0000_001Bu64 & 4 == 0) by (bit_vector);
    }
    assert forall|x: u64| in_half(x, 256, 512) implies !user_page(#[trigger] leaf(m2, sup, x)) by {
        lemma_window_leaf(m, m2, v, v2, sup, virt, phys, n, flags, x);
        reveal(upper_hidden);
        assert(!user_page(leaf(m, sup, x)));
    }
    assert(upper_hidden(m2, sup)) by {
        reveal(upper_hidden);
    }
    assert forall|x: u64| x >= MMIO_VIRT_BASE implies !(#[trigger] leaf(m2, sup, x) is Page2M) by {
        assert(in_half(x, 256, 512));
        lemma_window_leaf(m, m2, v, v2, sup, virt, phys, n, flags, x);
    }
}

/// An address of the upper half is mapped as before, or by an entry with the given flags.
proof fn lemma_window_leaf(
    m: Seq<u64>,
    m2: Seq<u64>,
    v: FrameView,
    v2: FrameView,
    sup: u64,
    virt: u64,
    phys: u64,
    n: int,
    flags: u64,
    x: u64,
)
    requires
        half_lo(virt) == 256,
        window_mapped(m, m2, v, v2, sup, virt, phys, n, flags),
        in_half(x, 256, 512),
    ensures
        leaf(m2, sup, x) == leaf(m, sup, x) || (leaf(m2, sup, x) matches Leaf::Page4K(e) && user(e)
            == user(flags)),
{
    if apart(x, virt, n) {
        assert(leaf(m2, sup, x) == leaf(m, sup, x)) by {
            reveal(window_mapped);
        }
    } else {
        let j = choose|j: int| 0 <= j < n && indices(x) == #[trigger] indices(page(virt, j));
        assert(leaf(m2, sup, page(virt, j)) == Leaf::Page4K(
            pte_value(page(phys, j), flags | PTE_PRESENT),
        )) by {
            reveal(window_mapped);
        }
        assert(leaf(m2, sup, x) == leaf(m2, sup, page(virt, j)));
        lemma_user_bits(page(phys, j), flags);
    }
}

/// Mapping device registers leaves the supervisor's page tables in order.
#[verifier::rlimit(30)]
proof fn lemma_window_tables(
    t: Seq<ShardDescriptor>,
    m: Seq<u64>,
    m2: Seq<u64>,
    v: FrameView,
    v2: FrameView,
    sup: u64,
    virt: u64,
    phys: u64,
    n: int,
    flags: u64,
)
    requires
        isolated(t, m, v),
        kernel_ok(t, m, v, sup),
        half_lo(virt) == 256,
        window_mapped(m, m2, v, v2, sup, virt, phys, n, flags),
        flags == MMIO_FLAGS,
        forall|i: int|
            0 <= i < t.len() && (#[trigger] t[i]).live() ==> claimed(m2, t[i].frames()) == claimed(
                m,
                t[i].frames(),
            ),
    ensures
        kernel_ok(t, m2, v2, sup),
{
    lemma_kernel_root(t, m, v, sup);
    assert forall|i: int| 0 <= i < t.len() && (#[trigger] t[i]).live() implies upper_shared(
        m2,
        sup,
        t[i].frames()[0],
    ) by {
        let r = t[i].frames()[0];
        lemma_shard_root(t, m, v, sup, i);
        lemma_claimed(m, v, t[i].frames());
        lemma_window_frame(t, m, m2, v, v2, sup, virt, phys, n, flags, i, r);
        lemma_window_upper(m, m2, v, v2, sup, virt, phys, n, flags, r);
    }
    assert(upper_hidden(m2, sup) && forall|x: u64|
        x >= MMIO_VIRT_BASE ==> !(#[trigger] leaf(m2, sup, x) is Page2M)) by {
        assert(upper_hidden(m, sup)) by {
            reveal(kernel_ok);
        }
        lemma_window_hidden(m, m2, v, v2, sup, virt, phys, n, flags);
    }
    assert(ways_open(m2, sup, 256, 512, PARENT_FLAGS_2M)) by {
        assert(links_grown(m, m2, sup, 256, 512)) by {
            reveal(window_mapped);
        }
        lemma_ways_grown(m, m2, sup, 256, 512, PARENT_FLAGS_2M);
    }
    assert forall|i: int, q: Seq<int>|
        0 <= i < t.len() && (#[trigger] t[i]).live() && path_ok(q, 256, 512) implies (
    #[trigger] table_at(m2, sup, q) matches Some(f) ==> !claimed(m2, t[i].frames()).contains(f)) by {
        assert(space_wf(m, v, t[i].frames())) by {
            reveal(isolated);
        }
        lemma_claimed(m, v, t[i].frames());
        reveal(window_mapped);
        if table_at(m, sup, q) is Some {
            reveal(kernel_ok);
            assert(table_at(m2, sup, q) == table_at(m, sup, q));
        }
    }
    assert(tree_wf(m2, sup, 256, 512) && tables_taken(m2, sup, 256, 512, v2)) by {
        reveal(window_mapped);
    }
    reveal(kernel_ok);
}

/// A new shard leaves the supervisor's page tables as they are.
pub proof fn lemma_kernel_made(
    t: Seq<ShardDescriptor>,
    m: Seq<u64>,
    m2: Seq<u64>,
    v: FrameView,
    v2: FrameView,
    sup: u64,
    id: int,
    s: ShardDescriptor,
)
    requires
        0 <= id < t.len(),
        isolated(t, m, v),
        kernel_ok(t, m, v, sup),
        space_made(m, m2, v, v2, s.frames(), sup),
        forall|i: int|
            0 <= i < t.len() && i != id && (#[trigger] t[i]).live() ==> claimed(m2, t[i].frames())
                == claimed(m, t[i].frames()),
    ensures
        kernel_ok(t.update(id, s), m2, v2, sup),
        same_leaves(m, m2, sup, 256, 512),
{
    let t2 = t.update(id, s);
    lemma_kernel_root(t, m, v, sup);
    assert(m2.len() == m.len()) by {
        reveal(space_made);
    }
    assert forall|f: u64| #[trigger] is_table(m, sup, 256, 512, f) implies same_frame(m, m2, f)
        && !v2.avail(f) && !claimed(m2, s.frames()).contains(f) by {
        lemma_kernel_table(t, m, v, sup, f);
        reveal(space_made);
        assert forall|w: int| in_frame(w, f) implies #[trigger] m2[w] == m[w] by {
            lemma_free_frame_apart(m, v, f, w);
        }
    }
    lemma_root_table(m, sup);
    assert(same_frame(m, m2, sup));
    assert forall|i: int| 0 <= i < t2.len() && (#[trigger] t2[i]).live() implies upper_shared(
        m2,
        sup,
        t2[i].frames()[0],
    ) by {
        let r = t2[i].frames()[0];
        if i == id {
            reveal(upper_shared);
            reveal(space_made);
            assert forall|k: int| 256 <= k < 512 implies #[trigger] m2[slot(r, k)] == m2[slot(
                sup,
                k,
            )] by {
                assert(in_frame(slot(sup, k), sup));
            }
        } else {
            assert(t2[i] == t[i]);
            lemma_shard_root(t, m, v, sup, i);
            assert forall|k: int| 256 <= k < 512 implies #[trigger] m2[slot(r, k)] == m[slot(
                r,
                k,
            )] by {
                let w = slot(r, k);
                assert(in_frame(w, r));
                lemma_free_frame_apart(m, v, r, w);
                reveal(space_made);
            }
            lemma_upper_kept(m, m2, sup, r);
        }
    }
    assert forall|i: int, f: u64|
        0 <= i < t2.len() && (#[trigger] t2[i]).live() && (#[trigger] is_table(
            m,
            sup,
            256,
            512,
            f,
        )) implies !claimed(m2, t2[i].frames()).contains(f) by {
        lemma_kernel_table(t, m, v, sup, f);
        if i != id {
            assert(t2[i] == t[i]);
        }
    }
    lemma_kernel_kept(t, t2, m, m2, v, v2, sup);
}

/// The root table is a table.
pub proof fn lemma_root_table(m: Seq<u64>, sup: u64)
    ensures
        is_table(m, sup, 256, 512, sup),
{
    let none = Seq::<int>::empty();
    lemma_root(m, sup, none);
    assert(none.take(0) =~= none);
    assert(path_ok(none, 256, 512));
}

/// Taking a free frame for the supervisor leaves the shards and its page tables as they are.
#[verifier::rlimit(30)]
pub proof fn lemma_kernel_alloc(t: Seq<ShardDescriptor>, m: Seq<u64>, v: FrameView, sup: u64)
    requires
        v.wf(),
        isolated(t, m, v),
        kernel_ok(t, m, v, sup),
        v.next() is Some,
        frame_ok(m, v.next()->0),
    ensures
        isolated(t, zeroed(m, v.next()->0), v.after_alloc()),
        kernel_ok(t, zeroed(m, v.next()->0), v.after_alloc(), sup),
        same_leaves(m, zeroed(m, v.next()->0), sup, 256, 512),
{
    let p = v.next()->0;
    let m2 = zeroed(m, p);
    let v2 = v.after_alloc();
    v.lemma_alloc();
    assert forall|i: int| 0 <= i < t.len() && (#[trigger] t[i]).live() implies space_wf(
        m2,
        v2,
        t[i].frames(),
    ) && claimed(m2, t[i].frames()) == claimed(m, t[i].frames()) by {
        let f = t[i].frames();
        assert(space_wf(m, v, f)) by {
            reveal(isolated);
        }
        lemma_claimed(m, v, f);
        assert forall|x: u64| #[trigger] claimed(m, f).contains(x) implies same_frame(m, m2, x)
            && !v2.avail(x) && v2.owns(x) by {
            assert forall|w: int| in_frame(w, x) implies #[trigger] m2[w] == m[w] by {
                if in_frame(w, p) {
                    lemma_frames_apart(m, x, p, w);
                }
            }
        }
        lemma_space_kept(m, m2, v, v2, f);
    }
    assert(isolated(t, m2, v2)) by {
        reveal(isolated);
        assert forall|i: int| 0 <= i < t.len() && (#[trigger] t[i]).live() implies shard_wf(
            t[i],
            m2,
            v2,
        ) by {
            assert(shard_wf(t[i], m, v));
        }
    }
    assert forall|f: u64| #[trigger] is_table(m, sup, 256, 512, f) implies same_frame(m, m2, f)
        && !v2.avail(f) by {
        lemma_kernel_table(t, m, v, sup, f);
        assert forall|w: int| in_frame(w, f) implies #[trigger] m2[w] == m[w] by {
            if in_frame(w, p) {
                lemma_frames_apart(m, f, p, w);
            }
        }
    }
    lemma_root_table(m, sup);
    assert(same_frame(m, m2, sup));
    assert forall|i: int| 0 <= i < t.len() && (#[trigger] t[i]).live() implies upper_shared(
        m2,
        sup,
        t[i].frames()[0],
    ) by {
        let r = t[i].frames()[0];
        lemma_shard_root(t, m, v, sup, i);
        assert forall|k: int| 256 <= k < 512 implies #[trigger] m2[slot(r, k)] == m[slot(r, k)] by {
            let w = slot(r, k);
            assert(in_frame(w, r));
            if in_frame(w, p) {
                lemma_frames_apart(m, r, p, w);
            }
        }
        lemma_upper_kept(m, m2, sup, r);
    }
    assert forall|i: int, f: u64|
        0 <= i < t.len() && (#[trigger] t[i]).live() && (#[trigger] is_table(
            m,
            sup,
            256,
            512,
            f,
        )) implies !claimed(m2, t[i].frames()).contains(f) by {
        lemma_kernel_table(t, m, v, sup, f);
    }
    lemma_kernel_kept(t, t, m, m2, v, v2, sup);
}

/// What the supervisor keeps of a shard beside its memory does not matter to its page
/// tables.
pub proof fn lemma_kernel_same(
    t: Seq<ShardDescriptor>,
    t2: Seq<ShardDescriptor>,
    m: Seq<u64>,
    v: FrameView,
    sup: u64,
)
    requires
        kernel_ok(t, m, v, sup),
        t2.len() == t.len(),
        forall|i: int|
            0 <= i < t.len() ==> (#[trigger] t2[i]).live() == t[i].live() && t2[i].frames()
                == t[i].frames(),
    ensures
        kernel_ok(t2, m, v, sup),
{
    reveal(kernel_ok);
    assert forall|i: int, q: Seq<int>|
        0 <= i < t2.len() && (#[trigger] t2[i]).live() && path_ok(q, 256, 512) implies (
    #[trigger] table_at(m, sup, q) matches Some(f) ==> !claimed(m, t2[i].frames()).contains(f)) by {
        assert(t[i].live());
    }
}

// ---------------------------------------------------------------------------
// Laws
// ---------------------------------------------------------------------------

/// A shard that maps more memory changes nothing of what the supervisor maps.
pub proof fn law_growth_keeps_supervisor(
    t: Seq<ShardDescriptor>,
    m: Seq<u64>,
    m2: Seq<u64>,
    v: FrameView,
    v2: FrameView,
    sup: u64,
    id: int,
    s: ShardDescriptor,
)
    requires
        0 <= id < t.len(),
        t[id].live(),
        isolated(t, m, v),
        kernel_ok(t, m, v, sup),
        1 <= s.frame_count <= MAX_SHARD_FRAMES,
        s.pml4_phys == t[id].pml4_phys,
        space_grown(m, m2, v, v2, t[id].frames(), s.frames()),
    ensures
        kernel_ok(t.update(id, s), m2, v2, sup),
        same_leaves(m, m2, sup, 256, 512),
{
    let t2 = t.update(id, s);
    let mine = claimed(m, t[id].frames());
    lemma_isolated_grown(t, m, m2, v, v2, id, s);
    assert(m2.len() == m.len()) by {
        reveal(space_grown);
    }
    lemma_shard_root(t, m, v, sup, id);
    lemma_claimed(m, v, t[id].frames());
    assert forall|f: u64| #[trigger] is_table(m, sup, 256, 512, f) implies same_frame(m, m2, f)
        && !v2.avail(f) && !claimed(m2, s.frames()).contains(f) by {
        lemma_kernel_table(t, m, v, sup, f);
        reveal(space_grown);
        assert(!mine.contains(f));
        assert forall|w: int| in_frame(w, f) implies #[trigger] m2[w] == m[w] by {
            lemma_free_frame_apart(m, v, f, w);
            if in_frames(mine, w) {
                let y = choose|y: u64| mine.contains(y) && #[trigger] in_frame(w, y);
                lemma_frames_apart(m, f, y, w);
            }
        }
    }
    lemma_root_table(m, sup);
    assert(same_frame(m, m2, sup));
    assert forall|i: int| 0 <= i < t2.len() && (#[trigger] t2[i]).live() implies upper_shared(
        m2,
        sup,
        t2[i].frames()[0],
    ) by {
        let r = t2[i].frames()[0];
        if i == id {
            reveal(space_grown);
            assert(s.frames().take(t[id].frames().len() as int)[0] == t[id].frames()[0]);
            assert(r == t[id].frames()[0]);
            lemma_upper_kept(m, m2, sup, r);
        } else {
            assert(t2[i] == t[i]);
            lemma_shard_root(t, m, v, sup, i);
            assert(!mine.contains(r)) by {
                reveal(isolated);
                assert(claimed(m, t[i].frames()).disjoint(mine));
            }
            assert forall|k: int| 256 <= k < 512 implies #[trigger] m2[slot(r, k)] == m[slot(
                r,
                k,
            )] by {
                let w = slot(r, k);
                assert(in_frame(w, r));
                lemma_free_frame_apart(m, v, r, w);
                reveal(space_grown);
                if in_frames(mine, w) {
                    let y = choose|y: u64| mine.contains(y) && #[trigger] in_frame(w, y);
                    lemma_frames_apart(m, r, y, w);
                }
            }
            lemma_upper_kept(m, m2, sup, r);
        }
    }
    assert forall|i: int, f: u64|
        0 <= i < t2.len() && (#[trigger] t2[i]).live() && (#[trigger] is_table(
            m,
            sup,
            256,
            512,
            f,
        )) implies !claimed(m2, t2[i].frames()).contains(f) by {
        lemma_kernel_table(t, m, v, sup, f);
        if i != id {
            assert(t2[i] == t[i]);
        }
    }
    lemma_kernel_kept(t, t2, m, m2, v, v2, sup);
}

/// Destroying a shard changes nothing of what the supervisor maps.
pub proof fn law_destroy_keeps_supervisor(
    t: Seq<ShardDescriptor>,
    m: Seq<u64>,
    m2: Seq<u64>,
    v: FrameView,
    v2: FrameView,
    sup: u64,
    id: int,
    s: ShardDescriptor,
)
    requires
        0 <= id < t.len(),
        t[id].live(),
        !s.live(),
        isolated(t, m, v),
        kernel_ok(t, m, v, sup),
        released(m, m2, v, v2, claimed(m, t[id].frames())),
        forall|i: int|
            0 <= i < t.len() && i != id && (#[trigger] t[i]).live() ==> claimed(m2, t[i].frames())
                == claimed(m, t[i].frames()),
    ensures
        kernel_ok(t.update(id, s), m2, v2, sup),
        same_leaves(m, m2, sup, 256, 512),
{
    let t2 = t.update(id, s);
    let mine = claimed(m, t[id].frames());
    reveal(released);
    assert(m2.len() == m.len()) by {
        reveal(cleared);
    }
    lemma_shard_root(t, m, v, sup, id);
    lemma_claimed(m, v, t[id].frames());
    assert forall|f: u64| #[trigger] is_table(m, sup, 256, 512, f) implies same_frame(m, m2, f)
        && !v2.avail(f) by {
        lemma_kernel_table(t, m, v, sup, f);
        assert(!mine.contains(f));
        lemma_cleared_other(m, mine, f);
    }
    lemma_root_table(m, sup);
    assert(same_frame(m, m2, sup));
    assert forall|i: int| 0 <= i < t2.len() && (#[trigger] t2[i]).live() implies upper_shared(
        m2,
        sup,
        t2[i].frames()[0],
    ) by {
        let r = t2[i].frames()[0];
        assert(i != id);
        assert(t2[i] == t[i]);
        lemma_shard_root(t, m, v, sup, i);
        assert(!mine.contains(r)) by {
            reveal(isolated);
            assert(claimed(m, t[i].frames()).disjoint(mine));
        }
        lemma_cleared_other(m, mine, r);
        assert forall|k: int| 256 <= k < 512 implies #[trigger] m2[slot(r, k)] == m[slot(r, k)] by {
            assert(in_frame(slot(r, k), r));
        }
        lemma_upper_kept(m, m2, sup, r);
    }
    assert forall|i: int, f: u64|
        0 <= i < t2.len() && (#[trigger] t2[i]).live() && (#[trigger] is_table(
            m,
            sup,
            256,
            512,
            f,
        )) implies !claimed(m2, t2[i].frames()).contains(f) by {
        lemma_kernel_table(t, m, v, sup, f);
        assert(i != id);
        assert(t2[i] == t[i]);
    }
    lemma_kernel_kept(t, t2, m, m2, v, v2, sup);
}

/// No page of the upper half is for user mode, whatever shard runs: the supervisor's memory
/// is out of reach for all of them.
pub proof fn law_supervisor_hidden(
    t: Seq<ShardDescriptor>,
    m: Seq<u64>,
    v: FrameView,
    sup: u64,
    i: int,
)
    requires
        isolated(t, m, v),
        kernel_ok(t, m, v, sup),
        0 <= i < t.len(),
        t[i].live(),
    ensures
        upper_hidden(m, t[i].pml4_phys),
{
    let root = t[i].pml4_phys;
    assert(root == t[i].frames()[0]) by {
        reveal(isolated);
        assert(shard_wf(t[i], m, v));
    }
    lemma_shard_root(t, m, v, sup, i);
    reveal(kernel_ok);
    reveal(upper_hidden);
    assert forall|x: u64| in_half(x, 256, 512) implies !user_page(#[trigger] leaf(m, root, x)) by {
        lemma_leaf_shared(m, sup, root, x);
        assert(!user_page(leaf(m, sup, x)));
    }
}

/// An address of the upper half is mapped as for the supervisor, or not at all.
proof fn lemma_leaf_shared(m: Seq<u64>, sup: u64, root: u64, x: u64)
    requires
        upper_shared(m, sup, root),
        in_half(x, 256, 512),
    ensures
        leaf(m, root, x) is Unmapped || leaf(m, root, x) == leaf(m, sup, x),
{
    reveal(upper_shared);
    let path = indices(x);
    lemma_indices_ok(x, 3, 256, 512);
    lemma_root(m, root, path);
    lemma_root(m, sup, path);
    lemma_step(m, root, path, 0);
    lemma_step(m, root, path, 1);
    lemma_step(m, root, path, 2);
    lemma_step(m, sup, path, 0);
    lemma_step(m, sup, path, 1);
    lemma_step(m, sup, path, 2);
    assert(256 <= path[0] < 512);
}

} // verus!
