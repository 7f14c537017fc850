//! The entries that lead from one page table to the next. The rights of a page are what all
//! entries on the way to it allow, so these have to allow what the page is to allow.

use vstd::prelude::*;

use crate::frame::FrameView;
use crate::mem::{frame_ok, in_frame};
use crate::space::lemma_free_frame_apart;
use crate::vmm::{entry_at, half_hi, half_lo, in_half, indices, is_table, leaf, lemma_frames_apart};
use crate::vmm::{lemma_indices_ok, lemma_step, link_slot, mapped_4k, on_way, path_ok};
use crate::vmm::{pte_value, slot, table_at, tables_added, tables_taken, tree_wf, user};
use crate::vmm::{PARENT_FLAGS, PARENT_FLAGS_2M, PTE_PRESENT, PTE_USER, PTE_WRITABLE};

verus! {

/// The entry that leads to the table at the end of the path.
pub open spec fn link(m: Seq<u64>, root: u64, path: Seq<int>) -> u64 {
    m[slot(table_at(m, root, path.drop_last())->0, path.last())]
}

/// Every entry that leads to a table of the half has the given flags.
#[verifier::opaque]
pub open spec fn ways_open(m: Seq<u64>, root: u64, lo: int, hi: int, flags: u64) -> bool {
    forall|q: Seq<int>|
        path_ok(q, lo, hi) && q.len() > 0 && (#[trigger] table_at(m, root, q)) is Some ==> link(
            m,
            root,
            q,
        ) & flags == flags
}

/// The three entries on the way to the table that maps `virt` are there and have the given
/// flags.
pub open spec fn way_open(m: Seq<u64>, root: u64, virt: u64, flags: u64) -> bool {
    forall|l: int|
        0 <= l < 3 ==> ((#[trigger] entry_at(m, root, virt, l)) matches Some(e) && e & flags
            == flags)
}

/// Tables that were there are linked as they were, and all others with [`PARENT_FLAGS`].
#[verifier::opaque]
pub open spec fn links_grown(m: Seq<u64>, m2: Seq<u64>, root: u64, lo: int, hi: int) -> bool {
    forall|q: Seq<int>|
        path_ok(q, lo, hi) && q.len() > 0 && (#[trigger] table_at(m2, root, q)) is Some ==> link(
            m2,
            root,
            q,
        ) == (if table_at(m, root, q) is Some {
            link(m, root, q)
        } else {
            pte_value(table_at(m2, root, q)->0, PARENT_FLAGS | PTE_PRESENT)
        })
}

/// What the flags of entries that lead to tables say.
pub proof fn lemma_link_flags(phys: u64)
    ensures
        PARENT_FLAGS == PTE_PRESENT | PTE_WRITABLE | PTE_USER,
        PARENT_FLAGS_2M == PTE_PRESENT | PTE_WRITABLE,
        pte_value(phys, PARENT_FLAGS | PTE_PRESENT) & PARENT_FLAGS == PARENT_FLAGS,
        pte_value(phys, PARENT_FLAGS | PTE_PRESENT) & PARENT_FLAGS_2M == PARENT_FLAGS_2M,
        pte_value(phys, PARENT_FLAGS_2M | PTE_PRESENT) & PARENT_FLAGS == PARENT_FLAGS_2M,
{
    assert(7u64 == 1u64 | 2 | 4 && 3u64 == 1u64 | 2 && ((phys & 0x000F_FFFF_FFFF_F000) | (7u64
        | 1)) & 7 == 7 && ((phys & 0x000F_FFFF_FFFF_F000) | (7u64 | 1)) & 3 == 3 && ((phys
        & 0x000F_FFFF_FFFF_F000) | (3u64 | 1)) & 7 == 3) by (bit_vector);
}

/// Whether an entry is for user mode is what its flags say.
pub proof fn lemma_user_bits(phys: u64, flags: u64)
    ensures
        user(pte_value(phys, flags | PTE_PRESENT)) == user(flags),
{
    assert(((phys & 0x000F_FFFF_FFFF_F000) | (flags | 1)) & 4 == flags & 4) by (bit_vector);
}

/// All ways stay open where tables are added.
pub proof fn lemma_ways_grown(
    m: Seq<u64>,
    m2: Seq<u64>,
    root: u64,
    lo: int,
    hi: int,
    flags: u64,
)
    requires
        ways_open(m, root, lo, hi, flags),
        links_grown(m, m2, root, lo, hi),
        flags == PARENT_FLAGS || flags == PARENT_FLAGS_2M,
    ensures
        ways_open(m2, root, lo, hi, flags),
{
    reveal(ways_open);
    reveal(links_grown);
    assert forall|q: Seq<int>|
        path_ok(q, lo, hi) && q.len() > 0 && (#[trigger] table_at(m2, root, q)) is Some implies link(
        m2,
        root,
        q,
    ) & flags == flags by {
        lemma_link_flags(table_at(m2, root, q)->0);
        if table_at(m, root, q) is Some {
            assert(link(m, root, q) & flags == flags);
        }
    }
}

/// Adding tables twice is adding tables.
pub proof fn lemma_links_twice(
    m: Seq<u64>,
    m1: Seq<u64>,
    m2: Seq<u64>,
    root: u64,
    lo: int,
    hi: int,
)
    requires
        links_grown(m, m1, root, lo, hi),
        links_grown(m1, m2, root, lo, hi),
        forall|q: Seq<int>|
            path_ok(q, lo, hi) && table_at(m, root, q) is Some ==> #[trigger] table_at(m1, root, q)
                == table_at(m, root, q),
        forall|q: Seq<int>|
            path_ok(q, lo, hi) && table_at(m1, root, q) is Some ==> #[trigger] table_at(m2, root, q)
                == table_at(m1, root, q),
    ensures
        links_grown(m, m2, root, lo, hi),
{
    reveal(links_grown);
    assert forall|q: Seq<int>|
        path_ok(q, lo, hi) && q.len() > 0 && (#[trigger] table_at(m2, root, q)) is Some implies link(
        m2,
        root,
        q,
    ) == (if table_at(m, root, q) is Some {
        link(m, root, q)
    } else {
        pte_value(table_at(m2, root, q)->0, PARENT_FLAGS | PTE_PRESENT)
    }) by {
        if table_at(m, root, q) is Some {
            assert(table_at(m1, root, q) is Some);
        }
    }
}

/// Where no word of a table changes, neither do the entries that lead to tables.
pub proof fn lemma_links_same(m: Seq<u64>, m2: Seq<u64>, root: u64, lo: int, hi: int)
    requires
        tree_wf(m, root, lo, hi),
        forall|t: u64, w: int|
            is_table(m, root, lo, hi, t) && #[trigger] in_frame(w, t) ==> m2[w] == m[w],
        forall|q: Seq<int>|
            path_ok(q, lo, hi) ==> #[trigger] table_at(m2, root, q) == table_at(m, root, q),
    ensures
        links_grown(m, m2, root, lo, hi),
{
    reveal(links_grown);
    assert forall|q: Seq<int>|
        path_ok(q, lo, hi) && q.len() > 0 && (#[trigger] table_at(m2, root, q)) is Some implies link(
        m2,
        root,
        q,
    ) == link(m, root, q) by {
        lemma_parent(m, root, lo, hi, q);
        let p = q.drop_last();
        let t = table_at(m, root, p)->0;
        assert(is_table(m, root, lo, hi, t));
        assert(in_frame(slot(t, q.last()), t));
    }
}

/// A table that is reached is reached through a table.
proof fn lemma_parent(m: Seq<u64>, root: u64, lo: int, hi: int, q: Seq<int>)
    requires
        tree_wf(m, root, lo, hi),
        path_ok(q, lo, hi),
        q.len() > 0,
        table_at(m, root, q) is Some,
    ensures
        path_ok(q.drop_last(), lo, hi),
        table_at(m, root, q.drop_last()) matches Some(t) && frame_ok(m, t) && in_frame(
            slot(t, q.last()),
            t,
        ),
{
    reveal_with_fuel(table_at, 1);
    let p = q.drop_last();
    assert forall|i: int| 0 <= i < p.len() implies 0 <= #[trigger] p[i] < 512 by {
        assert(p[i] == q[i]);
    }
    assert(p.len() > 0 ==> p[0] == q[0]);
    assert(path_ok(p, lo, hi));
    assert(0 <= q.last() < 512);
}

/// Mapping a page links the tables that it adds with [`PARENT_FLAGS`], and changes no other
/// entry that leads to a table.
pub proof fn lemma_links_map(
    m: Seq<u64>,
    m2: Seq<u64>,
    v: FrameView,
    v2: FrameView,
    root: u64,
    virt: u64,
    e: u64,
)
    requires
        tree_wf(m, root, half_lo(virt), half_hi(virt)),
        tables_taken(m, root, half_lo(virt), half_hi(virt), v),
        mapped_4k(m, m2, v, v2, root, virt, e),
    ensures
        links_grown(m, m2, root, half_lo(virt), half_hi(virt)),
{
    reveal(links_grown);
    let lo = half_lo(virt);
    let hi = half_hi(virt);
    assert forall|q: Seq<int>|
        path_ok(q, lo, hi) && q.len() > 0 && (#[trigger] table_at(m2, root, q)) is Some implies link(
        m2,
        root,
        q,
    ) == (if table_at(m, root, q) is Some {
        link(m, root, q)
    } else {
        pte_value(table_at(m2, root, q)->0, PARENT_FLAGS | PTE_PRESENT)
    }) by {
        if table_at(m, root, q) is Some {
            lemma_link_kept(m, m2, v, v2, root, virt, e, q);
        } else {
            lemma_link_new(m, m2, v, v2, root, virt, e, q);
        }
    }
}

proof fn lemma_link_new(
    m: Seq<u64>,
    m2: Seq<u64>,
    v: FrameView,
    v2: FrameView,
    root: u64,
    virt: u64,
    e: u64,
    q: Seq<int>,
)
    requires
        mapped_4k(m, m2, v, v2, root, virt, e),
        path_ok(q, half_lo(virt), half_hi(virt)),
        q.len() > 0,
        table_at(m, root, q) is None,
        table_at(m2, root, q) is Some,
    ensures
        link(m2, root, q) == pte_value(table_at(m2, root, q)->0, PARENT_FLAGS | PTE_PRESENT),
{
    reveal(mapped_4k);
    reveal(tables_added);
    let path = indices(virt);
    let l = q.len() - 1;
    assert(on_way(q, virt, 3));
    assert(q == path.take(l + 1));
    assert(q.drop_last() =~= path.take(l));
    assert(q.last() == path[l]);
}

proof fn lemma_link_kept(
    m: Seq<u64>,
    m2: Seq<u64>,
    v: FrameView,
    v2: FrameView,
    root: u64,
    virt: u64,
    e: u64,
    q: Seq<int>,
)
    requires
        tree_wf(m, root, half_lo(virt), half_hi(virt)),
        tables_taken(m, root, half_lo(virt), half_hi(virt), v),
        mapped_4k(m, m2, v, v2, root, virt, e),
        path_ok(q, half_lo(virt), half_hi(virt)),
        q.len() > 0,
        table_at(m, root, q) is Some,
    ensures
        link(m2, root, q) == link(m, root, q),
{
    let lo = half_lo(virt);
    let hi = half_hi(virt);
    let path = indices(virt);
    let p = q.drop_last();
    lemma_parent(m, root, lo, hi, q);
    let t = table_at(m, root, p)->0;
    let w = slot(t, q.last());
    assert(table_at(m2, root, p) == Some(t)) by {
        reveal(mapped_4k);
        reveal(tables_added);
    }
    lemma_free_frame_apart(m, v, t, w);
    if m2[w] != m[w] {
        reveal(mapped_4k);
        if link_slot(m, root, virt, 3, w) {
            reveal(link_slot);
            let l = choose|l: int|
                0 <= l < 3 && (#[trigger] table_at(m, root, path.take(l)) matches Some(s) && w
                    == slot(s, path[l])) && table_at(m, root, path.take(l + 1)) is None;
            let s = table_at(m, root, path.take(l))->0;
            lemma_indices_ok(virt, l, lo, hi);
            assert(in_frame(w, s));
            lemma_frames_apart(m, s, t, w);
            assert(path.take(l) == p);
            assert(q =~= path.take(l + 1)) by {
                assert(path.take(l).len() == l);
                assert forall|i: int| 0 <= i < l implies q[i] == path[i] by {
                    assert(p[i] == path.take(l)[i]);
                }
            }
        } else {
            let s = table_at(m, root, path.take(3))->0;
            lemma_indices_ok(virt, 3, lo, hi);
            assert(in_frame(w, s));
            lemma_frames_apart(m, s, t, w);
            assert(path.take(3) == p);
            assert(path.take(3).len() == 3);
        }
    }
}

/// Where all ways are open, the way to each page is.
pub proof fn lemma_way_open(m: Seq<u64>, root: u64, lo: int, hi: int, flags: u64, virt: u64)
    requires
        ways_open(m, root, lo, hi, flags),
        in_half(virt, lo, hi),
        leaf(m, root, virt) is Page4K,
    ensures
        way_open(m, root, virt, flags),
{
    reveal(ways_open);
    let path = indices(virt);
    assert forall|l: int| 0 <= l < 3 implies ((#[trigger] entry_at(m, root, virt, l)) matches Some(e)
        && e & flags == flags) by {
        lemma_indices_ok(virt, l + 1, lo, hi);
        lemma_step(m, root, path, 2);
        lemma_step(m, root, path, 1);
        lemma_step(m, root, path, 0);
        let q = path.take(l + 1);
        assert(table_at(m, root, q) is Some);
        assert(q.drop_last() =~= path.take(l));
        assert(q.last() == path[l]);
        assert(link(m, root, q) & flags == flags);
    }
}

} // verus!
