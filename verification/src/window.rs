//! Mapping consecutive pages, and the window of virtual addresses for device registers.

use vstd::prelude::*;

use crate::frame::{has_frames, FrameAllocator, FrameView};
use crate::links::{lemma_links_map, lemma_links_same, lemma_links_twice, lemma_ways_grown};
use crate::links::{links_grown, ways_open};
use crate::mem::{frame_ok, in_frame, Memory};
use crate::vmm::{count_missing, executable, half_hi, half_lo, in_free_frame, in_half, in_table};
use crate::vmm::{indices, is_table, leaf, lemma_changed_in_root, lemma_changed_in_table};
use crate::vmm::{lemma_indices_ok, lemma_missing_last, lemma_missing_monotone, lemma_missing_same};
use crate::vmm::{lemma_none_missing, lemma_root, link_slot, map_4k, mapped_4k, missing_tables};
use crate::vmm::{on_way, path_ok, pte_value, slot, table_at, tables_added, tables_taken, tree_wf};
use crate::vmm::{way_table, writable, Leaf, PAGE_2M, PAGE_4K, PARENT_FLAGS_2M, PTE_PRESENT};

verus! {

/// The address of page number `k` from `base` on.
pub open spec fn page(base: u64, k: int) -> u64 {
    (base + k * PAGE_4K) as u64
}

/// Number of tables that are missing for `n` pages of the device window from `virt` on.
pub open spec fn window_missing(m: Seq<u64>, root: u64, virt: u64, n: int) -> int
    decreases n,
{
    if n <= 0 {
        0
    } else {
        window_missing(m, root, virt, n - 1) + (if n == 1 {
            missing_tables(m, root, virt, 3)
        } else if page(virt, n - 1) % PAGE_2M == 0 && table_at(
            m,
            root,
            indices(page(virt, n - 1)).take(3),
        ) is None {
            1int
        } else {
            0
        })
    }
}

/// Whether `x` is none of the `n` pages from `virt` on.
pub open spec fn apart(x: u64, virt: u64, n: int) -> bool {
    forall|j: int| 0 <= j < n ==> indices(x) != #[trigger] indices(page(virt, j))
}

/// The memory `m2` is `m` with `n` device pages from `virt` on mapped to those from `phys`
/// on: every other page is mapped as before, tables are kept and those added are linked with
/// rights that restrict nothing, and only words of tables and of free frames change.
#[verifier::opaque]
pub open spec fn window_mapped(
    m: Seq<u64>,
    m2: Seq<u64>,
    v: FrameView,
    v2: FrameView,
    root: u64,
    virt: u64,
    phys: u64,
    n: int,
    flags: u64,
) -> bool {
    &&& m2.len() == m.len()
    &&& tree_wf(m2, root, half_lo(virt), half_hi(virt))
    &&& tables_taken(m2, root, half_lo(virt), half_hi(virt), v2)
    &&& forall|j: int|
        0 <= j < n ==> #[trigger] leaf(m2, root, page(virt, j)) == Leaf::Page4K(
            pte_value(page(phys, j), flags | PTE_PRESENT),
        )
    &&& forall|x: u64|
        in_half(x, half_lo(virt), half_hi(virt)) && apart(x, virt, n) ==> #[trigger] leaf(m2, root, x) == leaf(
            m,
            root,
            x,
        )
    &&& forall|q: Seq<int>|
        path_ok(q, half_lo(virt), half_hi(virt)) && table_at(m, root, q) is Some ==> #[trigger] table_at(m2, root, q)
            == table_at(m, root, q)
    &&& forall|q: Seq<int>|
        path_ok(q, half_lo(virt), half_hi(virt)) && table_at(m, root, q) is None ==> (#[trigger] table_at(
            m2,
            root,
            q,
        ) matches Some(t) ==> v.avail(t) && v2.owns(t))
    &&& links_grown(m, m2, root, half_lo(virt), half_hi(virt))
    &&& forall|t: u64|
        v.avail(t) && !(#[trigger] v2.avail(t)) ==> is_table(m2, root, half_lo(virt), half_hi(virt), t)
    &&& forall|i: int|
        0 <= i < 512 && !(half_lo(virt) <= i < half_hi(virt)) ==> #[trigger] m2[slot(root, i)]
            == m[slot(root, i)]
    &&& v2.capacity() == v.capacity() - window_missing(m, root, virt, n)
    &&& forall|t: u64| #[trigger] v2.avail(t) ==> v.avail(t)
    &&& forall|t: u64| #[trigger] v.owns(t) ==> v2.owns(t)
    &&& forall|w: int|
        0 <= w < m.len() ==> #[trigger] m2[w] == m[w] || in_table(m, root, half_lo(virt), half_hi(virt), w)
            || in_free_frame(v, w)
}

/// Which tables `n` pages from `virt` on have brought: none but those on the way to them.
#[verifier::opaque]
pub open spec fn window_tables(m: Seq<u64>, m2: Seq<u64>, root: u64, virt: u64, n: int) -> bool {
    &&& forall|q: Seq<int>|
        path_ok(q, half_lo(virt), half_hi(virt)) && (forall|j: int|
            0 <= j < n ==> !on_way(q, #[trigger] page(virt, j), 3)) ==> #[trigger] table_at(
            m2,
            root,
            q,
        ) == table_at(m, root, q)
    &&& n > 0 ==> forall|l: int|
        0 <= l <= 3 ==> #[trigger] table_at(
            m2,
            root,
            indices(page(virt, n - 1)).take(l),
        ) is Some
}

/// Whether `n` pages from `virt` on lie in one aligned gigabyte.
pub open spec fn one_gib(virt: u64, n: int) -> bool {
    &&& virt % PAGE_4K == 0
    &&& n > 0 ==> virt + (n - 1) * PAGE_4K <= u64::MAX && (virt + (n - 1) * PAGE_4K) / 0x4000_0000
        == virt as int / 0x4000_0000
}

/// The pages of one gigabyte share the first two tables, and differ in the rest.
pub proof fn lemma_window_indices(a: u64, b: u64)
    requires
        a as int / 0x4000_0000 == b as int / 0x4000_0000,
        a % PAGE_4K == 0,
        b % PAGE_4K == 0,
    ensures
        a != b ==> indices(a) != indices(b),
        indices(a).take(2) == indices(b).take(2),
        indices(a).take(3) == indices(b).take(3) <==> a as int / 0x20_0000 == b as int / 0x20_0000,
        half_lo(a) == half_lo(b),
        in_half(a, half_lo(b), half_hi(b)),
{
    let x = indices(a);
    let y = indices(b);
    assert(a as int / 0x80_0000_0000 == b as int / 0x80_0000_0000);
    assert(x.take(2) =~= y.take(2));
    if a as int / 0x20_0000 == b as int / 0x20_0000 {
        assert(x.take(3) =~= y.take(3));
    }
    if x.take(3) == y.take(3) {
        assert(x.take(3)[2] == y.take(3)[2]);
        assert(a as int / 0x20_0000 == 512 * (a as int / 0x4000_0000) + x[2]);
        assert(b as int / 0x20_0000 == 512 * (b as int / 0x4000_0000) + y[2]);
    }
    if a != b && x == y {
        assert(x[2] == y[2] && x[3] == y[3]);
        assert(a as int / 0x1000 == 512 * (a as int / 0x20_0000) + x[3]);
        assert(b as int / 0x1000 == 512 * (b as int / 0x20_0000) + y[3]);
        assert(a as int / 0x20_0000 == 512 * (a as int / 0x4000_0000) + x[2]);
        assert(b as int / 0x20_0000 == 512 * (b as int / 0x4000_0000) + y[2]);
    }
}

/// Each of the pages lies in the same gigabyte as the first.
pub proof fn lemma_one_gib(virt: u64, n: int, j: int)
    requires
        one_gib(virt, n),
        0 <= j < n,
    ensures
        page(virt, j) == virt + j * PAGE_4K,
        page(virt, j) as int / 0x4000_0000 == virt as int / 0x4000_0000,
        page(virt, j) % PAGE_4K == 0,
        half_lo(page(virt, j)) == half_lo(virt),
        in_half(page(virt, j), half_lo(virt), half_hi(virt)),
        one_gib(virt, j + 1),
{
    assert(j * PAGE_4K <= (n - 1) * PAGE_4K);
    lemma_window_indices(page(virt, j), virt);
}

/// How many tables the next page is missing, and that it is none of those before.
pub proof fn lemma_window_count(m0: Seq<u64>, m: Seq<u64>, root: u64, virt: u64, k: int)
    requires
        0 <= k,
        one_gib(virt, k + 1),
        window_tables(m0, m, root, virt, k),
    ensures
        missing_tables(m, root, page(virt, k), 3) == window_missing(m0, root, virt, k + 1)
            - window_missing(m0, root, virt, k),
        apart(page(virt, k), virt, k),
{
    let x = page(virt, k);
    assert forall|j: int| 0 <= j < k implies indices(x) != #[trigger] indices(page(virt, j)) by {
        lemma_one_gib(virt, k + 1, j);
        lemma_one_gib(virt, k + 1, k);
        lemma_window_indices(x, page(virt, j));
    }
    if k == 0 {
        lemma_window_first(m0, m, root, virt);
    } else {
        lemma_window_more(m0, m, root, virt, k);
    }
}

/// How many tables the next page of the window is missing.
proof fn lemma_window_next(
    m0: Seq<u64>,
    m: Seq<u64>,
    v0: FrameView,
    v: FrameView,
    root: u64,
    virt: u64,
    phys: u64,
    k: int,
    flags: u64,
)
    requires
        0 <= k,
        one_gib(virt, k + 1),
        window_mapped(m0, m, v0, v, root, virt, phys, k, flags),
        window_tables(m0, m, root, virt, k),
    ensures
        missing_tables(m, root, page(virt, k), 3) == window_missing(m0, root, virt, k + 1)
            - window_missing(m0, root, virt, k),
        leaf(m, root, page(virt, k)) == leaf(m0, root, page(virt, k)),
        tree_wf(m, root, half_lo(virt), half_hi(virt)),
        tables_taken(m, root, half_lo(virt), half_hi(virt), v),
        v.capacity() == v0.capacity() - window_missing(m0, root, virt, k),
{
    lemma_window_count(m0, m, root, virt, k);
    lemma_one_gib(virt, k + 1, k);
    reveal(window_mapped);
}

proof fn lemma_window_first(m0: Seq<u64>, m: Seq<u64>, root: u64, virt: u64)
    requires
        virt % PAGE_4K == 0,
        window_tables(m0, m, root, virt, 0),
    ensures
        page(virt, 0) == virt,
        missing_tables(m, root, virt, 3) == window_missing(m0, root, virt, 1),
        window_missing(m0, root, virt, 0) == 0,
{
    reveal(window_tables);
    lemma_window_indices(virt, virt);
    assert forall|l: int| 1 <= l <= 3 implies #[trigger] table_at(m, root, indices(virt).take(l))
        == table_at(m0, root, indices(virt).take(l)) by {
        lemma_indices_ok(virt, l, half_lo(virt), half_hi(virt));
    }
    lemma_missing_same(m0, m, root, virt);
    assert(window_missing(m0, root, virt, 0) == 0);
}

#[verifier::rlimit(30)]
proof fn lemma_window_more(m0: Seq<u64>, m: Seq<u64>, root: u64, virt: u64, k: int)
    requires
        0 < k,
        one_gib(virt, k + 1),
        window_tables(m0, m, root, virt, k),
    ensures
        missing_tables(m, root, page(virt, k), 3) == window_missing(m0, root, virt, k + 1)
            - window_missing(m0, root, virt, k),
{
    let x = page(virt, k);
    let y = page(virt, k - 1);
    let path = indices(x);
    lemma_one_gib(virt, k + 1, k - 1);
    lemma_one_gib(virt, k + 1, k);
    assert(y == x - PAGE_4K);
    assert(table_at(m, root, path.take(1)) is Some && table_at(m, root, path.take(2)) is Some
        && table_at(m, root, indices(y).take(3)) is Some) by {
        lemma_window_indices(x, y);
        assert(path.take(1) =~= path.take(2).take(1));
        assert(indices(y).take(1) =~= indices(y).take(2).take(1));
        reveal(window_tables);
        assert(table_at(m, root, indices(y).take(1)) is Some);
        assert(table_at(m, root, indices(y).take(2)) is Some);
    }
    lemma_missing_last(m, root, x);
    if x % PAGE_2M != 0 {
        assert(x as int / 0x20_0000 == y as int / 0x20_0000);
        lemma_window_indices(x, y);
    } else {
        assert(table_at(m, root, path.take(3)) == table_at(m0, root, path.take(3))) by {
            lemma_window_new_region(m0, m, root, virt, k);
        }
    }
}

/// The table of a region that the pages so far do not reach is as it was.
proof fn lemma_window_new_region(m0: Seq<u64>, m: Seq<u64>, root: u64, virt: u64, k: int)
    requires
        0 < k,
        one_gib(virt, k + 1),
        window_tables(m0, m, root, virt, k),
        page(virt, k) % PAGE_2M == 0,
    ensures
        table_at(m, root, indices(page(virt, k)).take(3)) == table_at(
            m0,
            root,
            indices(page(virt, k)).take(3),
        ),
{
    let x = page(virt, k);
    let path = indices(x);
    lemma_one_gib(virt, k + 1, k);
    lemma_indices_ok(x, 3, half_lo(virt), half_hi(virt));
    assert forall|j: int| 0 <= j < k implies !on_way(path.take(3), #[trigger] page(virt, j), 3) by {
        lemma_one_gib(virt, k + 1, j);
        assert(page(virt, j) as int / 0x20_0000 < x as int / 0x20_0000);
        lemma_window_indices(x, page(virt, j));
    }
    reveal(window_tables);
}

/// Mapping the next page of the window keeps what holds of those before.
proof fn lemma_window_step(
    m0: Seq<u64>,
    m: Seq<u64>,
    m2: Seq<u64>,
    v0: FrameView,
    v: FrameView,
    v2: FrameView,
    root: u64,
    virt: u64,
    phys: u64,
    k: int,
    flags: u64,
)
    requires
        0 <= k,
        one_gib(virt, k + 1),
        phys + k * PAGE_4K <= u64::MAX,
        tree_wf(m0, root, half_lo(virt), half_hi(virt)),
        window_mapped(m0, m, v0, v, root, virt, phys, k, flags),
        window_tables(m0, m, root, virt, k),
        mapped_4k(
            m,
            m2,
            v,
            v2,
            root,
            page(virt, k),
            pte_value(page(phys, k), flags | PTE_PRESENT),
        ),
    ensures
        window_mapped(m0, m2, v0, v2, root, virt, phys, k + 1, flags),
        window_tables(m0, m2, root, virt, k + 1),
{
    lemma_window_next(m0, m, v0, v, root, virt, phys, k, flags);
    lemma_step_tables(m0, m, m2, v0, v, v2, root, virt, phys, k, flags);
    lemma_step_leaves(m0, m, m2, v0, v, v2, root, virt, phys, k, flags);
    lemma_step_kept(m0, m, m2, v0, v, v2, root, virt, phys, k, flags);
    lemma_step_words(m0, m, m2, v0, v, v2, root, virt, phys, k, flags);
    lemma_step_links(m0, m, m2, v0, v, v2, root, virt, phys, k, flags);
    reveal(window_mapped);
}

proof fn lemma_step_links(
    m0: Seq<u64>,
    m: Seq<u64>,
    m2: Seq<u64>,
    v0: FrameView,
    v: FrameView,
    v2: FrameView,
    root: u64,
    virt: u64,
    phys: u64,
    k: int,
    flags: u64,
)
    requires
        0 <= k,
        one_gib(virt, k + 1),
        window_mapped(m0, m, v0, v, root, virt, phys, k, flags),
        mapped_4k(
            m,
            m2,
            v,
            v2,
            root,
            page(virt, k),
            pte_value(page(phys, k), flags | PTE_PRESENT),
        ),
    ensures
        links_grown(m0, m2, root, half_lo(virt), half_hi(virt)),
{
    let x = page(virt, k);
    lemma_one_gib(virt, k + 1, k);
    reveal(window_mapped);
    lemma_links_map(m, m2, v, v2, root, x, pte_value(page(phys, k), flags | PTE_PRESENT));
    assert forall|q: Seq<int>|
        path_ok(q, half_lo(virt), half_hi(virt)) && table_at(m, root, q) is Some
            implies #[trigger] table_at(m2, root, q) == table_at(m, root, q) by {
        reveal(mapped_4k);
        reveal(tables_added);
    }
    lemma_links_twice(m0, m, m2, root, half_lo(virt), half_hi(virt));
}

proof fn lemma_step_tables(
    m0: Seq<u64>,
    m: Seq<u64>,
    m2: Seq<u64>,
    v0: FrameView,
    v: FrameView,
    v2: FrameView,
    root: u64,
    virt: u64,
    phys: u64,
    k: int,
    flags: u64,
)
    requires
        0 <= k,
        one_gib(virt, k + 1),
        phys + k * PAGE_4K <= u64::MAX,
        tree_wf(m0, root, half_lo(virt), half_hi(virt)),
        window_mapped(m0, m, v0, v, root, virt, phys, k, flags),
        window_tables(m0, m, root, virt, k),
        mapped_4k(
            m,
            m2,
            v,
            v2,
            root,
            page(virt, k),
            pte_value(page(phys, k), flags | PTE_PRESENT),
        ),
    ensures
        window_tables(m0, m2, root, virt, k + 1),
{
    let x = page(virt, k);
    let path = indices(x);
    lemma_one_gib(virt, k + 1, k);
    reveal(mapped_4k);
    reveal(window_tables);
    reveal(tables_added);
    assert forall|q: Seq<int>|
        path_ok(q, half_lo(virt), half_hi(virt)) && (forall|j: int|
            0 <= j < k + 1 ==> !on_way(q, #[trigger] page(virt, j), 3)) implies #[trigger] table_at(
        m2,
        root,
        q,
    ) == table_at(m0, root, q) by {
        assert(!on_way(q, page(virt, k), 3));
        assert(table_at(m2, root, q) == table_at(m, root, q));
    }
    assert forall|l: int| 0 <= l <= 3 implies #[trigger] table_at(
        m2,
        root,
        indices(page(virt, k + 1 - 1)).take(l),
    ) is Some by {
        if l == 0 {
            lemma_root(m2, root, path);
        }
    }
}

proof fn lemma_step_leaves(
    m0: Seq<u64>,
    m: Seq<u64>,
    m2: Seq<u64>,
    v0: FrameView,
    v: FrameView,
    v2: FrameView,
    root: u64,
    virt: u64,
    phys: u64,
    k: int,
    flags: u64,
)
    requires
        0 <= k,
        one_gib(virt, k + 1),
        phys + k * PAGE_4K <= u64::MAX,
        tree_wf(m0, root, half_lo(virt), half_hi(virt)),
        window_mapped(m0, m, v0, v, root, virt, phys, k, flags),
        window_tables(m0, m, root, virt, k),
        mapped_4k(
            m,
            m2,
            v,
            v2,
            root,
            page(virt, k),
            pte_value(page(phys, k), flags | PTE_PRESENT),
        ),
    ensures
        forall|j: int|
            0 <= j < k + 1 ==> #[trigger] leaf(m2, root, page(virt, j)) == Leaf::Page4K(
                pte_value(page(phys, j), flags | PTE_PRESENT),
            ),
        forall|y: u64|
            in_half(y, half_lo(virt), half_hi(virt)) && apart(y, virt, k + 1) ==> #[trigger] leaf(m2, root, y) == leaf(
                m0,
                root,
                y,
            ),
{
    let x = page(virt, k);
    lemma_one_gib(virt, k + 1, k);
    reveal(mapped_4k);
    reveal(window_mapped);
    assert forall|j: int| 0 <= j < k + 1 implies #[trigger] leaf(m2, root, page(virt, j))
        == Leaf::Page4K(pte_value(page(phys, j), flags | PTE_PRESENT)) by {
        if j < k {
            lemma_one_gib(virt, k + 1, j);
            lemma_window_indices(page(virt, j), x);
            assert(leaf(m, root, page(virt, j)) == Leaf::Page4K(
                pte_value(page(phys, j), flags | PTE_PRESENT),
            ));
        }
    }
    assert forall|y: u64| in_half(y, half_lo(virt), half_hi(virt)) && apart(y, virt, k + 1) implies #[trigger] leaf(
        m2,
        root,
        y,
    ) == leaf(m0, root, y) by {
        assert(indices(y) != indices(page(virt, k)));
        assert(apart(y, virt, k));
        assert(leaf(m2, root, y) == leaf(m, root, y));
    }
}

proof fn lemma_step_kept(
    m0: Seq<u64>,
    m: Seq<u64>,
    m2: Seq<u64>,
    v0: FrameView,
    v: FrameView,
    v2: FrameView,
    root: u64,
    virt: u64,
    phys: u64,
    k: int,
    flags: u64,
)
    requires
        0 <= k,
        one_gib(virt, k + 1),
        phys + k * PAGE_4K <= u64::MAX,
        tree_wf(m0, root, half_lo(virt), half_hi(virt)),
        window_mapped(m0, m, v0, v, root, virt, phys, k, flags),
        window_tables(m0, m, root, virt, k),
        mapped_4k(
            m,
            m2,
            v,
            v2,
            root,
            page(virt, k),
            pte_value(page(phys, k), flags | PTE_PRESENT),
        ),
    ensures
        m2.len() == m0.len(),
        tree_wf(m2, root, half_lo(virt), half_hi(virt)),
        tables_taken(m2, root, half_lo(virt), half_hi(virt), v2),
        forall|q: Seq<int>|
            path_ok(q, half_lo(virt), half_hi(virt)) && table_at(m0, root, q) is Some ==> #[trigger] table_at(
                m2,
                root,
                q,
            ) == table_at(m0, root, q),
        forall|q: Seq<int>|
            path_ok(q, half_lo(virt), half_hi(virt)) && table_at(m0, root, q) is None ==> (#[trigger] table_at(
                m2,
                root,
                q,
            ) matches Some(t) ==> v0.avail(t) && v2.owns(t)),
        forall|t: u64|
            v0.avail(t) && !(#[trigger] v2.avail(t)) ==> is_table(
                m2,
                root,
                half_lo(virt),
                half_hi(virt),
                t,
            ),
        v2.capacity() == v.capacity() - missing_tables(m, root, page(virt, k), 3),
        forall|t: u64| #[trigger] v2.avail(t) ==> v0.avail(t),
        forall|t: u64| #[trigger] v0.owns(t) ==> v2.owns(t),
{
    let x = page(virt, k);
    let path = indices(x);
    lemma_one_gib(virt, k + 1, k);
    reveal(mapped_4k);
    reveal(window_mapped);
    reveal(tables_added);
    assert forall|q: Seq<int>|
        path_ok(q, half_lo(virt), half_hi(virt)) && table_at(m0, root, q) is Some implies #[trigger] table_at(
        m2,
        root,
        q,
    ) == table_at(m0, root, q) by {
        assert(table_at(m, root, q) == table_at(m0, root, q));
    }
    assert forall|q: Seq<int>|
        path_ok(q, half_lo(virt), half_hi(virt)) && table_at(m0, root, q) is None implies (#[trigger] table_at(
        m2,
        root,
        q,
    ) matches Some(t) ==> v0.avail(t) && v2.owns(t)) by {
        if table_at(m, root, q) is Some || !on_way(q, x, 3) {
            assert(table_at(m2, root, q) == table_at(m, root, q));
        } else {
            let l = q.len() as int;
            assert(q == path.take(l));
            assert(table_at(m2, root, path.take(l)) is Some);
            assert(v.avail(table_at(m2, root, path.take(l))->0));
        }
    }
    assert forall|t: u64| v0.avail(t) && !(#[trigger] v2.avail(t)) implies is_table(
        m2,
        root,
        half_lo(virt),
        half_hi(virt),
        t,
    ) by {
        if v.avail(t) {
            reveal(way_table);
            let l = choose|l: int|
                1 <= l <= 3 && #[trigger] table_at(m2, root, path.take(l)) == Some(t);
            lemma_indices_ok(x, l, half_lo(virt), half_hi(virt));
            assert(table_at(m2, root, path.take(l)) == Some(t));
        } else {
            let q = choose|q: Seq<int>|
                path_ok(q, half_lo(virt), half_hi(virt)) && #[trigger] table_at(m, root, q) == Some(
                    t,
                );
            assert(table_at(m2, root, q) == Some(t));
        }
    }
}

proof fn lemma_step_words(
    m0: Seq<u64>,
    m: Seq<u64>,
    m2: Seq<u64>,
    v0: FrameView,
    v: FrameView,
    v2: FrameView,
    root: u64,
    virt: u64,
    phys: u64,
    k: int,
    flags: u64,
)
    requires
        0 <= k,
        one_gib(virt, k + 1),
        phys + k * PAGE_4K <= u64::MAX,
        tree_wf(m0, root, half_lo(virt), half_hi(virt)),
        window_mapped(m0, m, v0, v, root, virt, phys, k, flags),
        window_tables(m0, m, root, virt, k),
        mapped_4k(
            m,
            m2,
            v,
            v2,
            root,
            page(virt, k),
            pte_value(page(phys, k), flags | PTE_PRESENT),
        ),
    ensures
        forall|w: int|
            0 <= w < m0.len() ==> #[trigger] m2[w] == m0[w] || in_table(m0, root, half_lo(virt), half_hi(virt), w)
                || in_free_frame(v0, w),
        forall|i: int|
            0 <= i < 512 && !(half_lo(virt) <= i < half_hi(virt)) ==> #[trigger] m2[slot(root, i)]
                == m0[slot(root, i)],
{
    assert forall|w: int| 0 <= w < m0.len() implies #[trigger] m2[w] == m0[w] || in_table(
        m0,
        root,
        half_lo(virt),
        half_hi(virt),
        w,
    ) || in_free_frame(v0, w) by {
        lemma_step_word(m0, m, m2, v0, v, v2, root, virt, phys, k, flags, w);
    }
    assert forall|i: int|
        0 <= i < 512 && !(half_lo(virt) <= i < half_hi(virt)) implies #[trigger] m2[slot(root, i)]
        == m0[slot(root, i)] by {
        lemma_step_root(m0, m, m2, v0, v, v2, root, virt, phys, k, flags, i);
    }
}

/// Which words the next page may change.
proof fn lemma_page_word(
    m: Seq<u64>,
    m2: Seq<u64>,
    v: FrameView,
    v2: FrameView,
    root: u64,
    x: u64,
    e: u64,
    w: int,
)
    requires
        mapped_4k(m, m2, v, v2, root, x, e),
        0 <= w < m.len(),
        m2[w] != m[w],
    ensures
        in_free_frame(v, w) || link_slot(m, root, x, 3, w) || (table_at(
            m,
            root,
            indices(x).take(3),
        ) matches Some(t) && w == slot(t, indices(x)[3])),
{
    reveal(mapped_4k);
}

proof fn lemma_step_word(
    m0: Seq<u64>,
    m: Seq<u64>,
    m2: Seq<u64>,
    v0: FrameView,
    v: FrameView,
    v2: FrameView,
    root: u64,
    virt: u64,
    phys: u64,
    k: int,
    flags: u64,
    w: int,
)
    requires
        0 <= k,
        one_gib(virt, k + 1),
        tree_wf(m0, root, half_lo(virt), half_hi(virt)),
        window_mapped(m0, m, v0, v, root, virt, phys, k, flags),
        mapped_4k(
            m,
            m2,
            v,
            v2,
            root,
            page(virt, k),
            pte_value(page(phys, k), flags | PTE_PRESENT),
        ),
        0 <= w < m0.len(),
    ensures
        m2[w] == m0[w] || in_table(m0, root, half_lo(virt), half_hi(virt), w) || in_free_frame(
            v0,
            w,
        ),
{
    let x = page(virt, k);
    let lo = half_lo(virt);
    let hi = half_hi(virt);
    lemma_one_gib(virt, k + 1, k);
    lemma_window_word(m0, m, v0, v, root, virt, phys, k, w, flags);
    assert(m[w] == m0[w] || in_table(m0, root, lo, hi, w) || in_free_frame(v0, w)) by {
        reveal(window_mapped);
    }
    if m2[w] != m[w] {
        assert(m.len() == m0.len() && tree_wf(m, root, lo, hi)) by {
            reveal(window_mapped);
        }
        lemma_page_word(m, m2, v, v2, root, x, pte_value(page(phys, k), flags | PTE_PRESENT), w);
        if in_free_frame(v, w) {
            reveal(in_free_frame);
            let t = choose|t: u64| v.avail(t) && #[trigger] in_frame(w, t);
            assert(v0.avail(t)) by {
                reveal(window_mapped);
            }
        } else {
            lemma_changed_in_table(m, root, lo, hi, x, w);
        }
    }
}

proof fn lemma_step_root(
    m0: Seq<u64>,
    m: Seq<u64>,
    m2: Seq<u64>,
    v0: FrameView,
    v: FrameView,
    v2: FrameView,
    root: u64,
    virt: u64,
    phys: u64,
    k: int,
    flags: u64,
    i: int,
)
    requires
        0 <= k,
        one_gib(virt, k + 1),
        tree_wf(m0, root, half_lo(virt), half_hi(virt)),
        window_mapped(m0, m, v0, v, root, virt, phys, k, flags),
        mapped_4k(
            m,
            m2,
            v,
            v2,
            root,
            page(virt, k),
            pte_value(page(phys, k), flags | PTE_PRESENT),
        ),
        0 <= i < 512,
        !(half_lo(virt) <= i < half_hi(virt)),
    ensures
        m2[slot(root, i)] == m0[slot(root, i)],
{
    let x = page(virt, k);
    let lo = half_lo(virt);
    let hi = half_hi(virt);
    let w = slot(root, i);
    lemma_one_gib(virt, k + 1, k);
    assert(m[w] == m0[w] && m.len() == m0.len() && tree_wf(m, root, lo, hi) && tables_taken(
        m,
        root,
        lo,
        hi,
        v,
    )) by {
        reveal(window_mapped);
    }
    if m2[w] != m[w] {
        lemma_root(m, root, indices(x));
        lemma_indices_ok(x, 0, lo, hi);
        assert(frame_ok(m, root) && !v.avail(root));
        assert(in_frame(w, root));
        lemma_page_word(m, m2, v, v2, root, x, pte_value(page(phys, k), flags | PTE_PRESENT), w);
        if in_free_frame(v, w) {
            reveal(in_free_frame);
            let t = choose|t: u64| v.avail(t) && #[trigger] in_frame(w, t);
            v.lemma_avail_aligned(t);
            assert(t == root);
        } else {
            lemma_changed_in_root(m, root, lo, hi, x, w);
        }
    }
}

/// A table that the window has now was there before, or was a free frame.
proof fn lemma_window_word(
    m0: Seq<u64>,
    m: Seq<u64>,
    v0: FrameView,
    v: FrameView,
    root: u64,
    virt: u64,
    phys: u64,
    k: int,
    w: int,
    flags: u64,
)
    requires
        tree_wf(m0, root, half_lo(virt), half_hi(virt)),
        window_mapped(m0, m, v0, v, root, virt, phys, k, flags),
    ensures
        in_table(m, root, half_lo(virt), half_hi(virt), w) ==> in_table(m0, root, half_lo(virt), half_hi(virt), w) || in_free_frame(v0, w),
{
    reveal(window_mapped);
    if in_table(m, root, half_lo(virt), half_hi(virt), w) {
        let q = choose|q: Seq<int>|
            path_ok(q, half_lo(virt), half_hi(virt)) && (#[trigger] table_at(m, root, q) matches Some(t) && in_frame(
                w,
                t,
            ));
        if table_at(m0, root, q) is Some {
            assert(table_at(m, root, q) == table_at(m0, root, q));
        } else {
            reveal(in_free_frame);
            assert(v0.avail(table_at(m, root, q)->0));
        }
    }
}

pub proof fn lemma_window_missing_bound(m: Seq<u64>, root: u64, virt: u64, a: int, b: int)
    requires
        0 <= a <= b,
    ensures
        0 <= window_missing(m, root, virt, a) <= window_missing(m, root, virt, b) <= b + 3,
    decreases b,
{
    if b > 0 {
        lemma_missing_monotone(m, root, virt, 0, 3);
        reveal_with_fuel(missing_tables, 4);
        if a < b {
            lemma_window_missing_bound(m, root, virt, a, b - 1);
        } else {
            lemma_window_missing_bound(m, root, virt, a - 1, b - 1);
        }
    }
}

/// Whether none of the `n` pages from `virt` on lies in a 2 MiB page.
pub open spec fn no_huge(m: Seq<u64>, root: u64, virt: u64, n: int) -> bool {
    forall|j: int| 0 <= j < n ==> !(#[trigger] leaf(m, root, page(virt, j)) is Page2M)
}

/// Count the tables that are missing for `n` pages.
pub fn count_window(mem: &Memory, root: u64, virt: u64, n: u64) -> (c: u64)
    requires
        one_gib(virt, n as int),
        tree_wf(mem@, root, half_lo(virt), half_hi(virt)),
        no_huge(mem@, root, virt, n as int),
    ensures
        c == window_missing(mem@, root, virt, n as int),
{
    let mut c: u64 = 0;
    let mut k: u64 = 0;
    while k < n
        invariant
            k <= n,
            one_gib(virt, n as int),
            tree_wf(mem@, root, half_lo(virt), half_hi(virt)),
            no_huge(mem@, root, virt, n as int),
            c == window_missing(mem@, root, virt, k as int),
        decreases n - k,
    {
        proof {
            lemma_one_gib(virt, n as int, k as int);
        }
        let x: u64 = virt + k * PAGE_4K;
        proof {
            lemma_window_missing_bound(mem@, root, virt, k as int, k as int);
            assert(x == page(virt, k as int));
            lemma_none_missing(mem@, root, x);
            lemma_missing_monotone(mem@, root, x, 0, 3);
            reveal_with_fuel(missing_tables, 4);
        }
        if k == 0 {
            c = count_missing(mem, root, x, 3);
        } else if x % PAGE_2M == 0 {
            if count_missing(mem, root, x, 3) > 0 {
                c += 1;
            }
        }
        k += 1;
    }
    c
}

/// Map `n` pages from `virt` on to those from `phys` on, with the given flags. Where there
/// are not enough frames for page tables the result is false and nothing changes.
pub fn map_pages(
    fa: &mut FrameAllocator,
    mem: &mut Memory,
    root: u64,
    virt: u64,
    phys: u64,
    n: u64,
    flags: u64,
) -> (ok: bool)
    requires
        old(fa).wf(),
        old(fa)@.within(old(mem)@.len()),
        one_gib(virt, n as int),
        n > 0 ==> phys + (n - 1) * PAGE_4K <= u64::MAX,
        tree_wf(old(mem)@, root, half_lo(virt), half_hi(virt)),
        tables_taken(old(mem)@, root, half_lo(virt), half_hi(virt), old(fa)@),
        no_huge(old(mem)@, root, virt, n as int),
        !(writable(flags) && executable(flags)),
    ensures
        final(fa).wf(),
        final(fa)@.within(final(mem)@.len()),
        ok == (old(fa)@.capacity() >= window_missing(old(mem)@, root, virt, n as int)),
        !ok ==> final(fa)@ == old(fa)@ && final(mem)@ == old(mem)@,
        ok ==> window_mapped(
            old(mem)@,
            final(mem)@,
            old(fa)@,
            final(fa)@,
            root,
            virt,
            phys,
            n as int,
            flags,
        ),
        ok ==> window_tables(old(mem)@, final(mem)@, root, virt, n as int),
{
    let needed: u64 = count_window(mem, root, virt, n);
    if !has_frames(fa, needed) {
        return false;
    }
    let ghost m0 = mem@;
    let ghost v0 = fa@;
    proof {
        lemma_links_same(m0, m0, root, half_lo(virt), half_hi(virt));
        reveal(window_mapped);
        reveal(window_tables);
    }
    let mut k: u64 = 0;
    while k < n
        invariant
            k <= n,
            one_gib(virt, n as int),
            n > 0 ==> phys + (n - 1) * PAGE_4K <= u64::MAX,
            fa.wf(),
            fa@.within(mem@.len()),
            tree_wf(m0, root, half_lo(virt), half_hi(virt)),
            no_huge(m0, root, virt, n as int),
            v0.capacity() >= window_missing(m0, root, virt, n as int),
            window_mapped(m0, mem@, v0, fa@, root, virt, phys, k as int, flags),
            window_tables(m0, mem@, root, virt, k as int),
            !(writable(flags) && executable(flags)),
        decreases n - k,
    {
        let ghost m = mem@;
        let ghost v = fa@;
        proof {
            lemma_one_gib(virt, n as int, k as int);
            assert(k * PAGE_4K <= (n - 1) * PAGE_4K);
        }
        let x: u64 = virt + k * PAGE_4K;
        let target: u64 = phys + k * PAGE_4K;
        proof {
            assert(x == page(virt, k as int));
            assert(target == page(phys, k as int));
            lemma_window_next(m0, m, v0, v, root, virt, phys, k as int, flags);
            lemma_window_missing_bound(m0, root, virt, k + 1, n as int);
            assert(!(leaf(m0, root, page(virt, k as int)) is Page2M));
        }
        let ok = map_4k(fa, mem, root, x, target, flags);
        assert(ok);
        proof {
            lemma_window_step(m0, m, mem@, v0, v, fa@, root, virt, phys, k as int, flags);
        }
        k += 1;
    }
    true
}

// ---------------------------------------------------------------------------
// Counting the tables for pages of the first gigabyte
// ---------------------------------------------------------------------------

/// The entries on the way to the table of a 2 MiB region of the first gigabyte.
pub open spec fn region_path(r: int) -> Seq<int> {
    seq![0int, 0, r]
}

/// Number of 2 MiB regions from number `a` to `b` of the first gigabyte without a table.
pub open spec fn missing_regions(m: Seq<u64>, root: u64, a: int, b: int) -> int
    decreases b - a,
{
    if b <= a {
        0
    } else {
        missing_regions(m, root, a, b - 1) + (if table_at(m, root, region_path(b - 1)) is None {
            1int
        } else {
            0
        })
    }
}

/// The 2 MiB region of an address.
pub open spec fn region_of(virt: int) -> int {
    virt / PAGE_2M as int
}

/// The first 2 MiB region after `n` pages from `virt` on.
pub open spec fn region_end(virt: int, n: int) -> int {
    if n <= 0 {
        region_of(virt)
    } else {
        region_of(virt + (n - 1) * PAGE_4K) + 1
    }
}

/// How many numbers the ranges from `a` to `b` and from `c` to `d` have in common.
pub open spec fn common(a: int, b: int, c: int, d: int) -> int {
    let lo = if a > c {
        a
    } else {
        c
    };
    let hi = if b < d {
        b
    } else {
        d
    };
    if hi > lo {
        hi - lo
    } else {
        0
    }
}

/// The entries on the way to an address in the first gigabyte.
pub proof fn lemma_low_indices(virt: u64)
    requires
        virt < 0x4000_0000,
    ensures
        indices(virt) == seq![0int, 0, region_of(virt as int), virt as int / 0x1000 % 512],
        indices(virt).take(1) == seq![0int],
        indices(virt).take(2) == seq![0int, 0],
        indices(virt).take(3) == region_path(region_of(virt as int)),
        half_lo(virt) == 0,
        in_half(virt, 0, 256),
{
    assert(virt as int / 0x4000_0000 == 0);
    assert(virt as int / 0x80_0000_0000 == 0);
    assert(indices(virt) =~= seq![0int, 0, region_of(virt as int), virt as int / 0x1000 % 512]);
    assert(indices(virt).take(1) =~= seq![0int]);
    assert(indices(virt).take(2) =~= seq![0int, 0]);
    assert(indices(virt).take(3) =~= region_path(region_of(virt as int)));
}

/// The tables that consecutive pages of the first gigabyte are missing are those of the
/// regions that they touch.
pub proof fn lemma_window_regions(m: Seq<u64>, root: u64, virt: u64, n: int)
    requires
        0 <= n,
        one_gib(virt, n),
        virt < 0x4000_0000,
        table_at(m, root, seq![0int]) is Some,
        table_at(m, root, seq![0int, 0]) is Some,
    ensures
        window_missing(m, root, virt, n) == missing_regions(
            m,
            root,
            region_of(virt as int),
            region_end(virt as int, n),
        ),
    decreases n,
{
    let a = region_of(virt as int);
    if n == 1 {
        lemma_low_indices(virt);
        lemma_missing_last(m, root, virt);
        reveal_with_fuel(window_missing, 2);
        reveal_with_fuel(missing_regions, 2);
    } else if n > 1 {
        lemma_one_gib(virt, n, n - 1);
        lemma_one_gib(virt, n, n - 2);
        lemma_window_regions(m, root, virt, n - 1);
        let x = page(virt, n - 1);
        lemma_low_indices(x);
        if x % PAGE_2M == 0 {
            assert(region_of(x as int) == region_of(x - PAGE_4K) + 1);
        } else {
            assert(region_of(x as int) == region_of(x - PAGE_4K));
        }
        assert(a <= region_of(x as int));
    }
}

/// Counting the regions without a table, where those from `c` to `d` have one.
pub proof fn lemma_regions_count(m: Seq<u64>, root: u64, a: int, b: int, c: int, d: int)
    requires
        a <= b,
        forall|r: int|
            a <= r < b ==> ((#[trigger] table_at(m, root, region_path(r))) is Some <==> c <= r
                < d),
    ensures
        missing_regions(m, root, a, b) == (b - a) - common(a, b, c, d),
    decreases b - a,
{
    if a < b {
        lemma_regions_count(m, root, a, b - 1, c, d);
        assert(table_at(m, root, region_path(b - 1)) is Some <==> c <= b - 1 < d);
    }
}

// ---------------------------------------------------------------------------
// Device registers
// ---------------------------------------------------------------------------

/// Virtual base for device registers: the last gigabyte of the address space, beside the
/// window for the kernel's own code and data.
pub const MMIO_VIRT_BASE: u64 = 0xFFFF_FFFF_C000_0000;

/// Flags of device pages: writable, not executable, not cached.
pub const MMIO_FLAGS: u64 = 0x8000_0000_0000_001B;

/// The next virtual address for device registers.
#[derive(Debug, Clone, Copy, PartialEq, Eq, Structural)]
pub struct MmioWindow {
    next: u64,
}

impl MmioWindow {
    pub closed spec fn next(&self) -> u64 {
        self.next
    }

    pub open spec fn wf(&self) -> bool {
        self.next() >= MMIO_VIRT_BASE && self.next() % PAGE_4K == 0
    }

    pub fn new() -> (w: MmioWindow)
        ensures
            w.wf(),
            w.next() == MMIO_VIRT_BASE,
            w.next() == 0xFFFF_FFFF_C000_0000,
    {
        MmioWindow { next: MMIO_VIRT_BASE }
    }
}

/// Number of whole pages that `size` bytes from `phys_base` on take up.
pub open spec fn pages_for(phys_base: u64, size: u64) -> int {
    (phys_base % PAGE_4K + size + PAGE_4K - 1) / PAGE_4K as int
}

/// Whether the device region ends in the 64-bit address space, and so do the addresses that
/// it is mapped at.
pub open spec fn mmio_fits(next: u64, phys_base: u64, size: u64) -> bool {
    &&& phys_base % PAGE_4K + size + PAGE_4K - 1 <= u64::MAX
    &&& next + pages_for(phys_base, size) * PAGE_4K <= u64::MAX
    &&& phys_base + size <= 0x1_0000_0000_0000_0000
}

proof fn lemma_mmio_flags()
    ensures
        MMIO_FLAGS | PTE_PRESENT == MMIO_FLAGS,
        !executable(MMIO_FLAGS),
{
    assert(0x8000_0000_0000_001Bu64 | 1 == 0x8000_0000_0000_001B && 0x8000_0000_0000_001Bu64
        & 0x8000_0000_0000_0000 != 0) by (bit_vector);
}

/// The device window is the last gigabyte of the address space.
pub proof fn lemma_top_gib(virt: u64, n: int)
    requires
        virt >= MMIO_VIRT_BASE,
        virt % PAGE_4K == 0,
        0 <= n,
        virt + n * PAGE_4K <= u64::MAX,
    ensures
        one_gib(virt, n),
        half_lo(virt) == 256,
        forall|j: int| 0 <= j < n ==> #[trigger] page(virt, j) >= MMIO_VIRT_BASE,
{
    assert(virt as int / 0x4000_0000 == 0x3_FFFF_FFFF);
    assert(virt as int / 0x80_0000_0000 == 0x1FF_FFFF);
    if n > 0 {
        assert((virt + (n - 1) * PAGE_4K) / 0x4000_0000 == 0x3_FFFF_FFFF);
    }
    assert forall|j: int| 0 <= j < n implies #[trigger] page(virt, j) >= MMIO_VIRT_BASE by {
        lemma_one_gib(virt, n, j);
    }
}

/// How many frames for page tables it takes to map a device region. There is no result
/// where the addresses run out.
pub fn mmio_needs(
    window: &MmioWindow,
    mem: &Memory,
    pml4_phys: u64,
    phys_base: u64,
    size: u64,
) -> (r: Option<u64>)
    requires
        window.wf(),
        tree_wf(mem@, pml4_phys, 256, 512),
        forall|x: u64| x >= MMIO_VIRT_BASE ==> !(#[trigger] leaf(mem@, pml4_phys, x) is Page2M),
    ensures
        r is Some <==> mmio_fits(window.next(), phys_base, size),
        r matches Some(c) ==> c == window_missing(
            mem@,
            pml4_phys,
            window.next(),
            pages_for(phys_base, size),
        ) && c <= 0x10_0000_0000_0003,
{
    let offset_in_page: u64 = phys_base % PAGE_4K;
    let total: u128 = offset_in_page as u128 + size as u128 + (PAGE_4K - 1) as u128;
    if total > u64::MAX as u128 {
        return None;
    }
    let n: u64 = total as u64 / PAGE_4K;
    if window.next as u128 + n as u128 * PAGE_4K as u128 > u64::MAX as u128 {
        return None;
    }
    if phys_base as u128 + size as u128 > 0x1_0000_0000_0000_0000 {
        return None;
    }
    proof {
        lemma_top_gib(window.next, n as int);
        lemma_window_missing_bound(mem@, pml4_phys, window.next, n as int, n as int);
    }
    Some(count_window(mem, pml4_phys, window.next, n))
}

/// Map a physical device region into kernel virtual address space.
///
/// The result is the virtual address of the first byte, at the same offset in its page
/// as `phys_base` has. Pages are writable, not cached and not executable. There is no
/// result, and nothing changes, where the addresses run out or the frames for tables do.
pub fn map_mmio(
    window: &mut MmioWindow,
    fa: &mut FrameAllocator,
    mem: &mut Memory,
    pml4_phys: u64,
    phys_base: u64,
    size: u64,
) -> (r: Option<u64>)
    requires
        old(window).wf(),
        old(fa).wf(),
        old(fa)@.within(old(mem)@.len()),
        tree_wf(old(mem)@, pml4_phys, 256, 512),
        tables_taken(old(mem)@, pml4_phys, 256, 512, old(fa)@),
        forall|x: u64|
            x >= MMIO_VIRT_BASE ==> !(#[trigger] leaf(old(mem)@, pml4_phys, x) is Page2M),
    ensures
        final(window).wf(),
        final(fa).wf(),
        final(fa)@.within(final(mem)@.len()),
        r is Some <==> mmio_fits(old(window).next(), phys_base, size) && old(fa)@.capacity()
            >= window_missing(
            old(mem)@,
            pml4_phys,
            old(window).next(),
            pages_for(phys_base, size),
        ),
        match r {
            None => *final(window) == *old(window) && final(fa)@ == old(fa)@ && final(mem)@ == old(
                mem,
            )@,
            Some(virt) => {
                &&& virt == old(window).next() + phys_base % PAGE_4K
                &&& final(window).next() == old(window).next() + pages_for(phys_base, size)
                    * PAGE_4K
                &&& window_mapped(
                    old(mem)@,
                    final(mem)@,
                    old(fa)@,
                    final(fa)@,
                    pml4_phys,
                    old(window).next(),
                    (phys_base - phys_base % PAGE_4K) as u64,
                    pages_for(phys_base, size),
                    MMIO_FLAGS,
                )
                &&& half_lo(old(window).next()) == 256
                &&& ways_open(old(mem)@, pml4_phys, 256, 512, PARENT_FLAGS_2M) ==> ways_open(
                    final(mem)@,
                    pml4_phys,
                    256,
                    512,
                    PARENT_FLAGS_2M,
                )
                &&& MMIO_FLAGS | PTE_PRESENT == MMIO_FLAGS
            },
        },
{
    let ghost m0 = mem@;
    let offset_in_page: u64 = phys_base % PAGE_4K;
    let aligned_phys: u64 = phys_base - offset_in_page;
    let virt_base: u64 = window.next;
    let total: u128 = offset_in_page as u128 + size as u128 + (PAGE_4K - 1) as u128;
    if total > u64::MAX as u128 {
        return None;
    }
    let n: u64 = total as u64 / PAGE_4K;
    if virt_base as u128 + n as u128 * PAGE_4K as u128 > u64::MAX as u128 {
        return None;
    }
    if phys_base as u128 + size as u128 > 0x1_0000_0000_0000_0000 {
        return None;
    }
    proof {
        lemma_top_gib(virt_base, n as int);
        lemma_mmio_flags();
    }
    if !map_pages(fa, mem, pml4_phys, virt_base, aligned_phys, n, MMIO_FLAGS) {
        return None;
    }
    proof {
        if ways_open(m0, pml4_phys, 256, 512, PARENT_FLAGS_2M) {
            assert(links_grown(m0, mem@, pml4_phys, 256, 512)) by {
                reveal(window_mapped);
            }
            lemma_ways_grown(m0, mem@, pml4_phys, 256, 512, PARENT_FLAGS_2M);
        }
    }
    window.next = virt_base + n * PAGE_4K;
    Some(virt_base + offset_in_page)
}

} // verus!
