//! What an address space owns: its root table, the frames allocated for it, and the page
//! tables of its lower half. Freeing those tables.

use vstd::prelude::*;

use crate::frame::{alloc_frame_zeroed, free_frame, FrameAllocator, FrameView};
use crate::links::{lemma_links_map, lemma_links_same, lemma_ways_grown, ways_open};
use crate::mem::{bytes_at, frame_ok, in_frame, page_of, zeroed, Memory};
use crate::vmm::{executable, half_lo, huge, in_free_frame, in_half, in_table, indices, is_table};
use crate::vmm::{leaf, lemma_changed_in_root, lemma_changed_in_table, lemma_entry_bits};
use crate::vmm::{lemma_frames_apart, lemma_indices_ok, lemma_missing_monotone, lemma_missing_same};
use crate::vmm::{lemma_next_table, lemma_same_tree, link_slot, map_4k, mapped_4k, missing_tables};
use crate::vmm::{on_way, path_ok, present, pte_addr, pte_value, same_leaves, slot, table_at};
use crate::vmm::{tables_added, tables_taken, tree_wf, way_table, writable, Leaf, PageTableEntry};
use crate::vmm::{PARENT_FLAGS, PTE_PRESENT};
use crate::window::window_mapped;

verus! {

/// The memory `m` with the frames in `s` set to zero.
#[verifier::opaque]
pub open spec fn cleared(m: Seq<u64>, s: Set<u64>) -> Seq<u64> {
    Seq::new(
        m.len(),
        |w: int|
            if exists|t: u64| s.contains(t) && #[trigger] in_frame(w, t) {
                0
            } else {
                m[w]
            },
    )
}

/// The frames in `s` are zeroed and given back, and nothing else changes.
#[verifier::opaque]
pub open spec fn released(
    m: Seq<u64>,
    m2: Seq<u64>,
    v: FrameView,
    v2: FrameView,
    s: Set<u64>,
) -> bool {
    &&& m2 == cleared(m, s)
    &&& s.finite()
    &&& forall|t: u64| #[trigger] v2.avail(t) <==> v.avail(t) || s.contains(t)
    &&& forall|t: u64| #[trigger] v2.owns(t) == v.owns(t)
    &&& v2.capacity() == v.capacity() + s.len()
    &&& v.within(m.len()) ==> v2.within(m.len())
}

/// Whether the frame at `t` is the same in both memories.
pub open spec fn same_frame(m: Seq<u64>, m2: Seq<u64>, t: u64) -> bool {
    forall|w: int| in_frame(w, t) ==> #[trigger] m2[w] == m[w]
}

/// Whether `q` continues the path `p` with an entry below `n`.
pub open spec fn continues(q: Seq<int>, p: Seq<int>, n: int) -> bool {
    &&& q.len() > p.len()
    &&& q.take(p.len() as int) == p
    &&& q[p.len() as int] < n
}

/// The tables behind the first `n` entries of the table that the path `p` leads to.
pub open spec fn below(m: Seq<u64>, root: u64, p: Seq<int>, n: int) -> Set<u64> {
    Set::new(
        |t: u64|
            exists|q: Seq<int>|
                path_ok(q, 0, 256) && continues(q, p, n) && #[trigger] table_at(m, root, q) == Some(
                    t,
                ),
    )
}

/// Zeroing no frame changes nothing.
pub proof fn lemma_released_none(m: Seq<u64>, v: FrameView, s: Set<u64>)
    requires
        s == Set::<u64>::empty(),
    ensures
        released(m, m, v, v, s),
{
    reveal(released);
    reveal(cleared);
    assert(cleared(m, s) =~= m);
}

/// Releasing two disjoint sets of frames is releasing all of them.
pub proof fn lemma_released_both(
    m: Seq<u64>,
    m1: Seq<u64>,
    m2: Seq<u64>,
    v: FrameView,
    v1: FrameView,
    v2: FrameView,
    s: Set<u64>,
    t: Set<u64>,
)
    requires
        released(m, m1, v, v1, s),
        released(m1, m2, v1, v2, t),
        s.disjoint(t),
    ensures
        released(m, m2, v, v2, s.union(t)),
{
    reveal(released);
    assert(cleared(cleared(m, s), t) =~= cleared(m, s.union(t))) by {
        reveal(cleared);
        let u = s.union(t);
        assert forall|w: int| 0 <= w < m.len() implies cleared(cleared(m, s), t)[w] == cleared(
            m,
            u,
        )[w] by {
            if exists|x: u64| s.contains(x) && #[trigger] in_frame(w, x) {
                let x = choose|x: u64| s.contains(x) && #[trigger] in_frame(w, x);
                assert(u.contains(x) && in_frame(w, x));
            }
            if exists|x: u64| t.contains(x) && #[trigger] in_frame(w, x) {
                let x = choose|x: u64| t.contains(x) && #[trigger] in_frame(w, x);
                assert(u.contains(x) && in_frame(w, x));
            }
            if exists|x: u64| u.contains(x) && #[trigger] in_frame(w, x) {
                let x = choose|x: u64| u.contains(x) && #[trigger] in_frame(w, x);
                assert(s.contains(x) || t.contains(x));
            }
        }
    }
    assert(m1.len() == m.len()) by {
        reveal(cleared);
    }
    vstd::set_lib::lemma_set_disjoint_lens(s, t);
}

/// A frame that is not among those released is the same.
pub proof fn lemma_cleared_other(m: Seq<u64>, s: Set<u64>, t: u64)
    requires
        frame_ok(m, t),
        forall|x: u64| #[trigger] s.contains(x) ==> frame_ok(m, x),
        !s.contains(t),
    ensures
        same_frame(m, cleared(m, s), t),
{
    reveal(cleared);
    assert forall|w: int| in_frame(w, t) implies #[trigger] cleared(m, s)[w] == m[w] by {
        if exists|x: u64| s.contains(x) && #[trigger] in_frame(w, x) {
            let x = choose|x: u64| s.contains(x) && #[trigger] in_frame(w, x);
            lemma_frames_apart(m, t, x, w);
        }
    }
}

/// Zero one frame and give it back.
pub fn release_frame(fa: &mut FrameAllocator, mem: &mut Memory, phys: u64)
    requires
        old(fa).wf(),
        frame_ok(old(mem)@, phys),
        !old(fa)@.avail(phys),
        old(fa)@.owns(phys),
    ensures
        final(fa).wf(),
        released(
            old(mem)@,
            final(mem)@,
            old(fa)@,
            final(fa)@,
            Set::<u64>::empty().insert(phys),
        ),
{
    let ghost m = mem@;
    let ghost v = fa@;
    proof {
        fa.lemma_wf();
        v.lemma_free(phys);
    }
    mem.zero_frame(phys);
    free_frame(fa, phys);
    proof {
        let s = Set::<u64>::empty().insert(phys);
        assert(zeroed(m, phys) =~= cleared(m, s)) by {
            reveal(cleared);
            assert forall|w: int| 0 <= w < m.len() implies zeroed(m, phys)[w] == cleared(m, s)[w] by {
                if in_frame(w, phys) {
                    assert(s.contains(phys));
                }
            }
        }
        reveal(released);
        if v.within(m.len()) {
            v.lemma_within_kept(m.len(), phys);
        }
    }
}

/// What is behind one more entry: the table it leads to and what is below that.
proof fn lemma_below_step(m: Seq<u64>, root: u64, p: Seq<int>, i: int)
    requires
        p.len() <= 2,
        path_ok(p, 0, 256),
        path_ok(p.push(i), 0, 256),
    ensures
        below(m, root, p, i + 1) == (match table_at(m, root, p.push(i)) {
            None => below(m, root, p, i),
            Some(c) => below(m, root, p, i).union(
                below(m, root, p.push(i), 512).union(Set::<u64>::empty().insert(c)),
            ),
        }),
        table_at(m, root, p.push(i)) is None ==> below(m, root, p.push(i), 512) == Set::<
            u64,
        >::empty(),
{
    let c = p.push(i);
    let n = p.len() as int;
    assert(c.take(n) =~= p);
    assert forall|q: Seq<int>| path_ok(q, 0, 256) && continues(q, c, 512) implies #[trigger] continues(
        q,
        p,
        i + 1,
    ) by {
        assert(q.take(n) =~= p) by {
            assert(q.take(n + 1).take(n) =~= q.take(n));
        }
        assert(q[n] == i) by {
            assert(q.take(n + 1)[n] == c[n]);
        }
    }
    if table_at(m, root, c) is None {
        assert forall|q: Seq<int>| path_ok(q, 0, 256) && continues(q, c, 512) implies #[trigger] table_at(
            m,
            root,
            q,
        ) is None by {
            lemma_next_table(m, root, c, q);
        }
        assert(below(m, root, c, 512) =~= Set::<u64>::empty());
    }
    let rhs = match table_at(m, root, c) {
        None => below(m, root, p, i),
        Some(t) => below(m, root, p, i).union(
            below(m, root, c, 512).union(Set::<u64>::empty().insert(t)),
        ),
    };
    assert forall|t: u64| below(m, root, p, i + 1).contains(t) == rhs.contains(t) by {
        if below(m, root, p, i + 1).contains(t) {
            let q = choose|q: Seq<int>|
                path_ok(q, 0, 256) && continues(q, p, i + 1) && #[trigger] table_at(m, root, q)
                    == Some(t);
            if q[n] < i {
                assert(continues(q, p, i));
            } else {
                assert(q.take(n + 1) =~= c) by {
                    assert forall|k: int| 0 <= k < n implies q[k] == p[k] by {
                        assert(q.take(n)[k] == p[k]);
                    }
                }
                if q.len() == n + 1 {
                    assert(q =~= c) by {
                        assert(q.take(n + 1) =~= q);
                    }
                } else {
                    assert(0 <= q[n + 1] < 512);
                    assert(continues(q, c, 512));
                    if table_at(m, root, c) is None {
                        lemma_next_table(m, root, c, q);
                    }
                }
            }
        }
        if below(m, root, p, i).contains(t) {
            let q = choose|q: Seq<int>|
                path_ok(q, 0, 256) && continues(q, p, i) && #[trigger] table_at(m, root, q) == Some(
                    t,
                );
            assert(continues(q, p, i + 1));
        }
        if below(m, root, c, 512).contains(t) {
            let q = choose|q: Seq<int>|
                path_ok(q, 0, 256) && continues(q, c, 512) && #[trigger] table_at(m, root, q)
                    == Some(t);
            assert(continues(q, p, i + 1));
        }
        if table_at(m, root, c) == Some(t) {
            assert(continues(c, p, i + 1));
        }
    }
    assert(below(m, root, p, i + 1) =~= rhs);
}

/// Tables reached by different paths are different.
proof fn lemma_below_disjoint(m: Seq<u64>, root: u64, p: Seq<int>, i: int)
    requires
        tree_wf(m, root, 0, 256),
        p.len() <= 2,
        path_ok(p, 0, 256),
        path_ok(p.push(i), 0, 256),
        table_at(m, root, p.push(i)) is Some,
        table_at(m, root, p) is Some,
    ensures
        below(m, root, p, i).disjoint(below(m, root, p.push(i), 512)),
        !below(m, root, p, i).contains(table_at(m, root, p.push(i))->0),
        !below(m, root, p.push(i), 512).contains(table_at(m, root, p.push(i))->0),
        forall|k: int| !(#[trigger] below(m, root, p, k)).contains(table_at(m, root, p)->0),
        forall|t: u64, k: int| #[trigger] below(m, root, p, k).contains(t) ==> frame_ok(m, t),
        forall|t: u64| #[trigger] below(m, root, p.push(i), 512).contains(t) ==> frame_ok(m, t),
{
    let c = p.push(i);
    let n = p.len() as int;
    assert forall|t: u64| !(below(m, root, p, i).contains(t) && below(m, root, c, 512).contains(t)) by {
        if below(m, root, p, i).contains(t) && below(m, root, c, 512).contains(t) {
            let q = choose|q: Seq<int>|
                path_ok(q, 0, 256) && continues(q, p, i) && #[trigger] table_at(m, root, q) == Some(
                    t,
                );
            let r = choose|r: Seq<int>|
                path_ok(r, 0, 256) && continues(r, c, 512) && #[trigger] table_at(m, root, r)
                    == Some(t);
            assert(q == r);
            assert(r.take(n + 1)[n] == c[n]);
        }
    }
    assert(below(m, root, p, i).disjoint(below(m, root, c, 512)));
    if below(m, root, p, i).contains(table_at(m, root, c)->0) {
        let q = choose|q: Seq<int>|
            path_ok(q, 0, 256) && continues(q, p, i) && #[trigger] table_at(m, root, q) == Some(
                table_at(m, root, c)->0,
            );
        assert(q == c);
    }
    if below(m, root, c, 512).contains(table_at(m, root, c)->0) {
        let q = choose|q: Seq<int>|
            path_ok(q, 0, 256) && continues(q, c, 512) && #[trigger] table_at(m, root, q) == Some(
                table_at(m, root, c)->0,
            );
        assert(q == c);
    }
    assert forall|k: int| !(#[trigger] below(m, root, p, k)).contains(table_at(m, root, p)->0) by {
        if below(m, root, p, k).contains(table_at(m, root, p)->0) {
            let q = choose|q: Seq<int>|
                path_ok(q, 0, 256) && continues(q, p, k) && #[trigger] table_at(m, root, q) == Some(
                    table_at(m, root, p)->0,
                );
            assert(q == p);
        }
    }
}

/// Zero and give back all tables behind the first `n` entries of a table.
fn free_below(
    fa: &mut FrameAllocator,
    mem: &mut Memory,
    table: u64,
    depth: u64,
    n: u64,
    Ghost(m0): Ghost<Seq<u64>>,
    Ghost(root): Ghost<u64>,
    Ghost(path): Ghost<Seq<int>>,
)
    requires
        depth == path.len(),
        depth <= 2,
        path_ok(path, 0, 256),
        n <= 512,
        depth == 0 ==> n <= 256,
        tree_wf(m0, root, 0, 256),
        table_at(m0, root, path) == Some(table),
        old(fa).wf(),
        old(mem)@.len() == m0.len(),
        same_frame(m0, old(mem)@, table),
        forall|t: u64| #[trigger]
            below(m0, root, path, n as int).contains(t) ==> same_frame(m0, old(mem)@, t)
                && !old(fa)@.avail(t) && old(fa)@.owns(t),
    ensures
        final(fa).wf(),
        released(
            old(mem)@,
            final(mem)@,
            old(fa)@,
            final(fa)@,
            below(m0, root, path, n as int),
        ),
    decreases 2 - depth,
{
    let ghost m1 = mem@;
    let ghost v1 = fa@;
    let mut i: u64 = 0;
    proof {
        assert(below(m0, root, path, 0) =~= Set::<u64>::empty()) by {
            assert forall|t: u64| !below(m0, root, path, 0).contains(t) by {
                if below(m0, root, path, 0).contains(t) {
                    let q = choose|q: Seq<int>|
                        path_ok(q, 0, 256) && continues(q, path, 0) && #[trigger] table_at(
                            m0,
                            root,
                            q,
                        ) == Some(t);
                    assert(q[path.len() as int] >= 0);
                }
            }
        }
        lemma_released_none(m1, v1, below(m0, root, path, 0));
    }
    while i < n
        invariant
            i <= n <= 512,
            depth == path.len(),
            depth <= 2,
            path_ok(path, 0, 256),
            depth == 0 ==> n <= 256,
            tree_wf(m0, root, 0, 256),
            table_at(m0, root, path) == Some(table),
            fa.wf(),
            m1.len() == m0.len(),
            same_frame(m0, m1, table),
            forall|t: u64| #[trigger]
                below(m0, root, path, n as int).contains(t) ==> same_frame(m0, m1, t) && !v1.avail(t)
                    && v1.owns(t),
            released(m1, mem@, v1, fa@, below(m0, root, path, i as int)),
        decreases n - i,
    {
        let ghost m = mem@;
        let ghost v = fa@;
        let ghost c = path.push(i as int);
        let ghost done = below(m0, root, path, i as int);
        proof {
            assert(path_ok(c, 0, 256));
            assert(m == cleared(m1, done)) by {
                reveal(released);
            }
            lemma_below_step(m0, root, path, i as int);
            lemma_subset(m0, root, path, i + 1, n as int);
            lemma_below_root(m0, root, path, i as int);
            lemma_cleared_other(m1, done, table);
            assert(m.len() == m0.len()) by {
                reveal(cleared);
            }
            assert(in_frame(slot(table, i as int), table));
            lemma_next_entry(m0, root, path, i as int);
        }
        let entry = PageTableEntry(mem.read(table + 8 * i));
        let skip = !entry.is_present() || (depth == 2 && entry.0 & 0x80 != 0);
        if !skip {
            let child: u64 = entry.phys_addr();
            let ghost inner = below(m0, root, c, 512);
            let ghost one = Set::<u64>::empty().insert(child);
            proof {
                assert(table_at(m0, root, c) == Some(child));
                lemma_below_disjoint(m0, root, path, i as int);
                assert forall|t: u64| #[trigger] inner.contains(t) implies same_frame(m0, m, t)
                    && !v.avail(t) && v.owns(t) by {
                    assert(below(m0, root, path, i + 1).contains(t));
                    lemma_cleared_other(m1, done, t);
                    reveal(released);
                }
                assert(below(m0, root, path, i + 1).contains(child));
                lemma_cleared_other(m1, done, child);
                assert(same_frame(m0, m, child));
            }
            if depth < 2 {
                free_below(fa, mem, child, depth + 1, 512, Ghost(m0), Ghost(root), Ghost(c));
            } else {
                proof {
                    assert(inner =~= Set::<u64>::empty()) by {
                        assert forall|t: u64| !inner.contains(t) by {
                            if inner.contains(t) {
                                let q = choose|q: Seq<int>|
                                    path_ok(q, 0, 256) && continues(q, c, 512)
                                        && #[trigger] table_at(m0, root, q) == Some(t);
                                assert(q.len() > 3);
                            }
                        }
                    }
                    lemma_released_none(m, v, inner);
                }
            }
            proof {
                assert(!fa@.avail(child) && fa@.owns(child)) by {
                    reveal(released);
                }
                assert(frame_ok(mem@, child)) by {
                    reveal(released);
                    reveal(cleared);
                }
            }
            let ghost m3 = mem@;
            let ghost v3 = fa@;
            release_frame(fa, mem, child);
            proof {
                lemma_released_both(m, m3, mem@, v, v3, fa@, inner, one);
                lemma_released_both(m1, m, mem@, v1, v, fa@, done, inner.union(one));
            }
        }
        i += 1;
    }
}

proof fn lemma_subset(m: Seq<u64>, root: u64, p: Seq<int>, a: int, b: int)
    requires
        a <= b,
    ensures
        below(m, root, p, a).subset_of(below(m, root, p, b)),
{
    assert forall|t: u64| #[trigger] below(m, root, p, a).contains(t) implies below(
        m,
        root,
        p,
        b,
    ).contains(t) by {
        let q = choose|q: Seq<int>|
            path_ok(q, 0, 256) && continues(q, p, a) && #[trigger] table_at(m, root, q) == Some(t);
        assert(continues(q, p, b));
    }
}

/// The tables below a table are frames in memory, and it is not one of them.
proof fn lemma_below_root(m: Seq<u64>, root: u64, p: Seq<int>, n: int)
    requires
        tree_wf(m, root, 0, 256),
        path_ok(p, 0, 256),
        table_at(m, root, p) is Some,
    ensures
        !below(m, root, p, n).contains(table_at(m, root, p)->0),
        forall|t: u64| #[trigger] below(m, root, p, n).contains(t) ==> frame_ok(m, t),
{
    if below(m, root, p, n).contains(table_at(m, root, p)->0) {
        let q = choose|q: Seq<int>|
            path_ok(q, 0, 256) && continues(q, p, n) && #[trigger] table_at(m, root, q) == Some(
                table_at(m, root, p)->0,
            );
        assert(q == p);
    }
}

/// The next table on a path, by its entry.
proof fn lemma_next_entry(m: Seq<u64>, root: u64, p: Seq<int>, i: int)
    requires
        table_at(m, root, p) is Some,
    ensures
        ({
            let e = m[slot(table_at(m, root, p)->0, i)];
            table_at(m, root, p.push(i)) == (if present(e) && !(p.len() == 2 && huge(e)) {
                Some(pte_addr(e))
            } else {
                None
            })
        }),
{
    reveal_with_fuel(table_at, 1);
    assert(p.push(i).drop_last() =~= p);
}

// ---------------------------------------------------------------------------
// Address spaces
// ---------------------------------------------------------------------------

/// The page tables of the lower half, without the root.
pub open spec fn lower_tables(m: Seq<u64>, root: u64) -> Set<u64> {
    below(m, root, Seq::<int>::empty(), 256)
}

/// All frames that belong to an address space: those allocated for it, of which the first
/// is its root table, and the page tables of its lower half.
pub open spec fn claimed(m: Seq<u64>, frames: Seq<u64>) -> Set<u64> {
    frames.to_set().union(lower_tables(m, frames[0]))
}

/// An address space: its frames are in memory, are taken, and are all different, and the
/// entries that lead to its page tables restrict nothing, so that each page has the rights
/// that its own entry gives it.
#[verifier::opaque]
pub open spec fn space_wf(m: Seq<u64>, v: FrameView, frames: Seq<u64>) -> bool {
    &&& frames.len() >= 1
    &&& tree_wf(m, frames[0], 0, 256)
    &&& ways_open(m, frames[0], 0, 256, PARENT_FLAGS)
    &&& frames.no_duplicates()
    &&& forall|t: u64| #[trigger]
        lower_tables(m, frames[0]).contains(t) ==> !frames.contains(t) && frame_ok(m, t)
            && !v.avail(t) && v.owns(t)
    &&& forall|i: int|
        0 <= i < frames.len() ==> frame_ok(m, #[trigger] frames[i]) && !v.avail(frames[i])
            && v.owns(frames[i])
}

/// What holds of each frame of an address space.
pub proof fn lemma_claimed(m: Seq<u64>, v: FrameView, frames: Seq<u64>)
    requires
        space_wf(m, v, frames),
    ensures
        frames.len() >= 1,
        tree_wf(m, frames[0], 0, 256),
        forall|t: u64| #[trigger]
            claimed(m, frames).contains(t) ==> frame_ok(m, t) && !v.avail(t) && v.owns(t),
        forall|i: int| 0 <= i < frames.len() ==> claimed(m, frames).contains(#[trigger] frames[i]),
{
    reveal(space_wf);
    assert forall|t: u64| #[trigger] claimed(m, frames).contains(t) implies frame_ok(m, t)
        && !v.avail(t) && v.owns(t) by {
        if frames.contains(t) {
            let i = choose|i: int| 0 <= i < frames.len() && frames[i] == t;
            assert(frames[i] == t);
        } else {
            assert(lower_tables(m, frames[0]).contains(t));
        }
    }
    assert forall|i: int| 0 <= i < frames.len() implies claimed(m, frames).contains(
        #[trigger] frames[i],
    ) by {
        assert(frames.contains(frames[i]));
    }
}

/// The tables of the lower half are the root and those behind it.
pub proof fn lemma_lower_tables(m: Seq<u64>, root: u64, q: Seq<int>)
    requires
        path_ok(q, 0, 256),
        table_at(m, root, q) is Some,
    ensures
        q.len() == 0 ==> table_at(m, root, q)->0 == root,
        q.len() > 0 ==> lower_tables(m, root).contains(table_at(m, root, q)->0),
{
    if q.len() == 0 {
        reveal_with_fuel(table_at, 1);
    } else {
        assert(q.take(0) =~= Seq::<int>::empty());
        assert(continues(q, Seq::<int>::empty(), 256));
    }
}

/// An address space is the same where its frames are.
pub proof fn lemma_space_kept(
    m: Seq<u64>,
    m2: Seq<u64>,
    v: FrameView,
    v2: FrameView,
    frames: Seq<u64>,
)
    requires
        space_wf(m, v, frames),
        m2.len() == m.len(),
        forall|t: u64| #[trigger]
            claimed(m, frames).contains(t) ==> same_frame(m, m2, t) && !v2.avail(t) && v2.owns(t),
    ensures
        space_wf(m2, v2, frames),
        claimed(m2, frames) == claimed(m, frames),
        lower_tables(m2, frames[0]) == lower_tables(m, frames[0]),
        forall|q: Seq<int>|
            path_ok(q, 0, 256) ==> #[trigger] table_at(m2, frames[0], q) == table_at(
                m,
                frames[0],
                q,
            ),
        same_leaves(m, m2, frames[0], 0, 256),
{
    let root = frames[0];
    lemma_claimed(m, v, frames);
    assert forall|t: u64, w: int|
        is_table(m, root, 0, 256, t) && #[trigger] in_frame(w, t) implies m2[w] == m[w] by {
        let q = choose|q: Seq<int>| path_ok(q, 0, 256) && #[trigger] table_at(m, root, q) == Some(t);
        lemma_lower_tables(m, root, q);
        assert(claimed(m, frames).contains(root)) by {
            assert(frames[0] == root);
        }
        assert(claimed(m, frames).contains(t));
        assert(same_frame(m, m2, t));
    }
    lemma_same_tree(m, m2, root, 0, 256);
    assert(ways_open(m2, root, 0, 256, PARENT_FLAGS)) by {
        reveal(space_wf);
        lemma_links_same(m, m2, root, 0, 256);
        lemma_ways_grown(m, m2, root, 0, 256, PARENT_FLAGS);
    }
    assert(lower_tables(m2, root) =~= lower_tables(m, root)) by {
        assert forall|t: u64| lower_tables(m2, root).contains(t) == lower_tables(m, root).contains(
            t,
        ) by {
            let e = Seq::<int>::empty();
            if lower_tables(m2, root).contains(t) {
                let q = choose|q: Seq<int>|
                    path_ok(q, 0, 256) && continues(q, e, 256) && #[trigger] table_at(m2, root, q)
                        == Some(t);
                assert(table_at(m, root, q) == Some(t));
            }
            if lower_tables(m, root).contains(t) {
                let q = choose|q: Seq<int>|
                    path_ok(q, 0, 256) && continues(q, e, 256) && #[trigger] table_at(m, root, q)
                        == Some(t);
                assert(table_at(m2, root, q) == Some(t));
            }
        }
    }
    assert(space_wf(m2, v2, frames)) by {
        reveal(space_wf);
        assert forall|i: int| 0 <= i < frames.len() implies frame_ok(m2, #[trigger] frames[i])
            && !v2.avail(frames[i]) && v2.owns(frames[i]) by {
            assert(claimed(m, frames).contains(frames[i]));
        }
        assert forall|t: u64| #[trigger] lower_tables(m2, root).contains(t) implies !frames.contains(
            t,
        ) && frame_ok(m2, t) && !v2.avail(t) && v2.owns(t) by {
            assert(lower_tables(m, root).contains(t));
            assert(claimed(m, frames).contains(t));
        }
    }
}

/// A newly allocated and zeroed frame joins an address space.
pub proof fn lemma_space_alloc(m: Seq<u64>, v: FrameView, frames: Seq<u64>, p: u64)
    requires
        space_wf(m, v, frames),
        v.wf(),
        v.next() == Some(p),
        frame_ok(m, p),
    ensures
        space_wf(zeroed(m, p), v.after_alloc(), frames.push(p)),
        claimed(zeroed(m, p), frames.push(p)) == claimed(m, frames).insert(p),
        lower_tables(zeroed(m, p), frames[0]) == lower_tables(m, frames[0]),
        !claimed(m, frames).contains(p),
        forall|q: Seq<int>|
            path_ok(q, 0, 256) ==> #[trigger] table_at(zeroed(m, p), frames[0], q) == table_at(
                m,
                frames[0],
                q,
            ),
        same_leaves(m, zeroed(m, p), frames[0], 0, 256),
        forall|t: u64| #[trigger]
            claimed(m, frames).contains(t) ==> same_frame(m, zeroed(m, p), t),
{
    let m2 = zeroed(m, p);
    let v2 = v.after_alloc();
    let more = frames.push(p);
    v.lemma_alloc();
    lemma_claimed(m, v, frames);
    assert forall|t: u64| #[trigger] claimed(m, frames).contains(t) implies same_frame(m, m2, t)
        && !v2.avail(t) && v2.owns(t) by {
        assert forall|w: int| in_frame(w, t) implies #[trigger] m2[w] == m[w] by {
            if in_frame(w, p) {
                lemma_frames_apart(m, t, p, w);
            }
        }
    }
    lemma_space_kept(m, m2, v, v2, frames);
    assert(more[0] == frames[0]);
    assert(more.to_set() =~= frames.to_set().insert(p)) by {
        assert forall|t: u64| more.to_set().contains(t) == frames.to_set().insert(p).contains(t) by {
            if frames.contains(t) {
                let i = choose|i: int| 0 <= i < frames.len() && frames[i] == t;
                assert(more[i] == t);
            }
            if t == p {
                assert(more[frames.len() as int] == p);
            }
            if more.contains(t) {
                let i = choose|i: int| 0 <= i < more.len() && more[i] == t;
                if i < frames.len() {
                    assert(frames[i] == t);
                }
            }
        }
    }
    assert(claimed(m2, more) =~= claimed(m, frames).insert(p));
    assert(space_wf(m2, v2, more)) by {
        reveal(space_wf);
        assert forall|i: int, j: int|
            0 <= i < more.len() && 0 <= j < more.len() && i != j implies more[i] != more[j] by {
            if i < frames.len() {
                assert(claimed(m, frames).contains(frames[i]));
            }
            if j < frames.len() {
                assert(claimed(m, frames).contains(frames[j]));
            }
        }
        assert forall|i: int| 0 <= i < more.len() implies frame_ok(m2, #[trigger] more[i])
            && !v2.avail(more[i]) && v2.owns(more[i]) by {
            if i < frames.len() {
                assert(more[i] == frames[i]);
            }
        }
        assert forall|t: u64| #[trigger] lower_tables(m2, more[0]).contains(t) implies !more.contains(
            t,
        ) && frame_ok(m2, t) && !v2.avail(t) && v2.owns(t) by {
            assert(lower_tables(m, frames[0]).contains(t));
            assert(!frames.contains(t));
            if more.contains(t) {
                let i = choose|i: int| 0 <= i < more.len() && more[i] == t;
                if i < frames.len() {
                    assert(frames[i] == t);
                }
                assert(claimed(m, frames).contains(t));
            }
        }
    }
}

/// Writing into a frame that is no table changes the address space's contents alone.
pub proof fn lemma_space_write(
    m: Seq<u64>,
    m2: Seq<u64>,
    v: FrameView,
    frames: Seq<u64>,
    i: int,
)
    requires
        space_wf(m, v, frames),
        1 <= i < frames.len(),
        m2.len() == m.len(),
        forall|w: int|
            0 <= w < m.len() && !in_frame(w, frames[i]) ==> #[trigger] m2[w] == m[w],
    ensures
        space_wf(m2, v, frames),
        claimed(m2, frames) == claimed(m, frames),
        lower_tables(m2, frames[0]) == lower_tables(m, frames[0]),
        forall|q: Seq<int>|
            path_ok(q, 0, 256) ==> #[trigger] table_at(m2, frames[0], q) == table_at(
                m,
                frames[0],
                q,
            ),
        same_leaves(m, m2, frames[0], 0, 256),
        forall|t: u64| #[trigger]
            claimed(m, frames).contains(t) && t != frames[i] ==> same_frame(m, m2, t),
{
    let root = frames[0];
    let f = frames[i];
    lemma_claimed(m, v, frames);
    assert forall|t: u64| #[trigger] claimed(m, frames).contains(t) && t != f implies same_frame(
        m,
        m2,
        t,
    ) by {
        assert forall|w: int| in_frame(w, t) implies #[trigger] m2[w] == m[w] by {
            if in_frame(w, f) {
                lemma_frames_apart(m, t, f, w);
            }
        }
    }
    assert forall|t: u64, w: int|
        is_table(m, root, 0, 256, t) && #[trigger] in_frame(w, t) implies m2[w] == m[w] by {
        let q = choose|q: Seq<int>| path_ok(q, 0, 256) && #[trigger] table_at(m, root, q) == Some(t);
        lemma_lower_tables(m, root, q);
        reveal(space_wf);
        assert(frames.contains(f));
        assert(frames[0] != frames[i]);
        assert(claimed(m, frames).contains(root)) by {
            assert(frames[0] == root);
        }
        assert(claimed(m, frames).contains(t) && t != f);
        assert(same_frame(m, m2, t));
    }
    lemma_same_tree(m, m2, root, 0, 256);
    assert(ways_open(m2, root, 0, 256, PARENT_FLAGS)) by {
        reveal(space_wf);
        lemma_links_same(m, m2, root, 0, 256);
        lemma_ways_grown(m, m2, root, 0, 256, PARENT_FLAGS);
    }
    assert(lower_tables(m2, root) =~= lower_tables(m, root)) by {
        lemma_same_below(m, m2, root);
    }
    assert(space_wf(m2, v, frames)) by {
        reveal(space_wf);
        assert forall|k: int| 0 <= k < frames.len() implies frame_ok(m2, #[trigger] frames[k])
            && !v.avail(frames[k]) && v.owns(frames[k]) by {
            assert(claimed(m, frames).contains(frames[k]));
        }
        assert forall|t: u64| #[trigger] lower_tables(m2, root).contains(t) implies !frames.contains(
            t,
        ) && frame_ok(m2, t) && !v.avail(t) && v.owns(t) by {
            assert(lower_tables(m, root).contains(t));
        }
    }
}

proof fn lemma_same_below(m: Seq<u64>, m2: Seq<u64>, root: u64)
    requires
        forall|q: Seq<int>|
            path_ok(q, 0, 256) ==> #[trigger] table_at(m2, root, q) == table_at(m, root, q),
    ensures
        lower_tables(m2, root) == lower_tables(m, root),
{
    let e = Seq::<int>::empty();
    assert forall|t: u64| lower_tables(m2, root).contains(t) == lower_tables(m, root).contains(t) by {
        if lower_tables(m2, root).contains(t) {
            let q = choose|q: Seq<int>|
                path_ok(q, 0, 256) && continues(q, e, 256) && #[trigger] table_at(m2, root, q)
                    == Some(t);
            assert(table_at(m, root, q) == Some(t));
        }
        if lower_tables(m, root).contains(t) {
            let q = choose|q: Seq<int>|
                path_ok(q, 0, 256) && continues(q, e, 256) && #[trigger] table_at(m, root, q)
                    == Some(t);
            assert(table_at(m2, root, q) == Some(t));
        }
    }
    assert(lower_tables(m2, root) =~= lower_tables(m, root));
}

/// Mapping a page in the lower half of an address space.
pub proof fn lemma_space_map(
    m: Seq<u64>,
    m2: Seq<u64>,
    v: FrameView,
    v2: FrameView,
    frames: Seq<u64>,
    virt: u64,
    e: u64,
)
    requires
        space_wf(m, v, frames),
        half_lo(virt) == 0,
        mapped_4k(m, m2, v, v2, frames[0], virt, e),
    ensures
        space_wf(m2, v2, frames),
        claimed(m, frames).subset_of(claimed(m2, frames)),
        forall|t: u64| #[trigger]
            claimed(m2, frames).contains(t) ==> claimed(m, frames).contains(t) || v.avail(t),
        forall|t: u64| #[trigger]
            v2.avail(t) <==> v.avail(t) && !claimed(m2, frames).contains(t),
        forall|i: int| 1 <= i < frames.len() ==> same_frame(m, m2, #[trigger] frames[i]),
        forall|i: int|
            256 <= i < 512 ==> #[trigger] m2[slot(frames[0], i)] == m[slot(frames[0], i)],
        forall|w: int|
            0 <= w < m.len() && !in_free_frame(v, w) && !(exists|t: u64|
                claimed(m, frames).contains(t) && #[trigger] in_frame(w, t)) ==> #[trigger] m2[w]
                == m[w],
        m2.len() == m.len(),
{
    let root = frames[0];
    let path = indices(virt);
    lemma_claimed(m, v, frames);
    assert(m2.len() == m.len() && tree_wf(m2, root, 0, 256)) by {
        reveal(mapped_4k);
        reveal(tables_added);
    }
    lemma_space_map_tables(m, m2, v, v2, frames, virt, e);
    assert forall|w: int|
        0 <= w < m.len() && !in_free_frame(v, w) && #[trigger] m2[w] != m[w] implies in_table(
        m,
        root,
        0,
        256,
        w,
    ) && (in_frame(w, root) ==> w < slot(root, 256)) by {
        assert(link_slot(m, root, virt, 3, w) || (table_at(m, root, path.take(3)) matches Some(t)
            && w == slot(t, path[3]))) by {
            reveal(mapped_4k);
        }
        lemma_changed_in_table(m, root, 0, 256, virt, w);
        if in_frame(w, root) {
            lemma_changed_in_root(m, root, 0, 256, virt, w);
        }
    }
    assert forall|i: int| 1 <= i < frames.len() implies same_frame(m, m2, #[trigger] frames[i]) by {
        let f = frames[i];
        assert forall|w: int| in_frame(w, f) implies #[trigger] m2[w] == m[w] by {
            if m2[w] != m[w] {
                assert(claimed(m, frames).contains(frames[i]));
                if in_free_frame(v, w) {
                    lemma_free_frame_apart(m, v, f, w);
                } else {
                    let q = choose|q: Seq<int>|
                        path_ok(q, 0, 256) && (#[trigger] table_at(m, root, q) matches Some(t)
                            && in_frame(w, t));
                    let t = table_at(m, root, q)->0;
                    lemma_lower_tables(m, root, q);
                    assert(claimed(m, frames).contains(frames[0]));
                    lemma_frames_apart(m, t, f, w);
                    reveal(space_wf);
                    assert(frames.contains(f));
                    assert(frames[0] != frames[i]);
                }
            }
        }
    }
    assert(claimed(m, frames).contains(frames[0]));
    assert forall|i: int| 256 <= i < 512 implies #[trigger] m2[slot(root, i)] == m[slot(root, i)] by {
        let w = slot(root, i);
        assert(in_frame(w, root));
        if m2[w] != m[w] {
            if in_free_frame(v, w) {
                lemma_free_frame_apart(m, v, root, w);
            }
        }
    }
    assert forall|w: int|
        0 <= w < m.len() && !in_free_frame(v, w) && !(exists|t: u64|
            claimed(m, frames).contains(t) && #[trigger] in_frame(w, t)) implies #[trigger] m2[w]
        == m[w] by {
        if m2[w] != m[w] {
            let q = choose|q: Seq<int>|
                path_ok(q, 0, 256) && (#[trigger] table_at(m, root, q) matches Some(t) && in_frame(
                    w,
                    t,
                ));
            let t = table_at(m, root, q)->0;
            lemma_lower_tables(m, root, q);
            assert(claimed(m, frames).contains(t) && in_frame(w, t));
        }
    }
}

/// A word of a taken frame lies in no free frame.
pub proof fn lemma_free_frame_apart(m: Seq<u64>, v: FrameView, t: u64, w: int)
    requires
        frame_ok(m, t),
        !v.avail(t),
        in_frame(w, t),
    ensures
        !in_free_frame(v, w),
{
    reveal(in_free_frame);
    if in_free_frame(v, w) {
        let x = choose|x: u64| v.avail(x) && #[trigger] in_frame(w, x);
        v.lemma_avail_aligned(x);
        assert(x == t);
    }
}

/// The tables of an address space after mapping a page.
proof fn lemma_space_map_tables(
    m: Seq<u64>,
    m2: Seq<u64>,
    v: FrameView,
    v2: FrameView,
    frames: Seq<u64>,
    virt: u64,
    e: u64,
)
    requires
        space_wf(m, v, frames),
        half_lo(virt) == 0,
        mapped_4k(m, m2, v, v2, frames[0], virt, e),
    ensures
        space_wf(m2, v2, frames),
        claimed(m, frames).subset_of(claimed(m2, frames)),
        forall|t: u64| #[trigger]
            claimed(m2, frames).contains(t) ==> claimed(m, frames).contains(t) || v.avail(t),
        forall|t: u64| #[trigger]
            v2.avail(t) <==> v.avail(t) && !claimed(m2, frames).contains(t),
{
    let root = frames[0];
    let path = indices(virt);
    let none = Seq::<int>::empty();
    lemma_claimed(m, v, frames);
    lemma_space_tables(m, v, frames);
    assert(ways_open(m2, root, 0, 256, PARENT_FLAGS)) by {
        lemma_links_map(m, m2, v, v2, root, virt, e);
        lemma_ways_grown(m, m2, root, 0, 256, PARENT_FLAGS);
    }
    reveal(mapped_4k);
    reveal(tables_added);
    assert forall|t: u64| #[trigger] lower_tables(m, root).contains(t) implies lower_tables(
        m2,
        root,
    ).contains(t) by {
        let q = choose|q: Seq<int>|
            path_ok(q, 0, 256) && continues(q, none, 256) && #[trigger] table_at(m, root, q) == Some(
                t,
            );
        assert(table_at(m2, root, q) == Some(t));
    }
    assert forall|t: u64| #[trigger] lower_tables(m2, root).contains(t) implies lower_tables(
        m,
        root,
    ).contains(t) || (v.avail(t) && v2.owns(t)) by {
        let q = choose|q: Seq<int>|
            path_ok(q, 0, 256) && continues(q, none, 256) && #[trigger] table_at(m2, root, q)
                == Some(t);
        if table_at(m, root, q) is Some || !on_way(q, virt, 3) {
            assert(table_at(m2, root, q) == table_at(m, root, q));
            assert(table_at(m, root, q) == Some(t));
        } else {
            let l = q.len() as int;
            assert(q == path.take(l));
            assert(table_at(m2, root, path.take(l)) is Some);
        }
    }
    assert forall|t: u64| #[trigger] lower_tables(m2, root).contains(t) implies !v2.avail(t)
        && frame_ok(m2, t) by {
        let q = choose|q: Seq<int>|
            path_ok(q, 0, 256) && continues(q, none, 256) && #[trigger] table_at(m2, root, q)
                == Some(t);
        assert(table_at(m2, root, q) == Some(t));
    }
    assert forall|t: u64| #[trigger]
        v2.avail(t) <==> v.avail(t) && !claimed(m2, frames).contains(t) by {
        if v.avail(t) {
            assert(!claimed(m, frames).contains(t));
            if way_table(m2, root, virt, 3, t) {
                reveal(way_table);
                let l = choose|l: int|
                    1 <= l <= 3 && #[trigger] table_at(m2, root, path.take(l)) == Some(t);
                lemma_indices_ok(virt, l, 0, 256);
                lemma_lower_tables(m2, root, path.take(l));
            }
            if v2.avail(t) && claimed(m2, frames).contains(t) {
                assert(!frames.contains(t));
                assert(lower_tables(m2, root).contains(t));
            }
        }
    }
    assert(space_wf(m2, v2, frames)) by {
        reveal(space_wf);
        assert forall|i: int| 0 <= i < frames.len() implies frame_ok(m2, #[trigger] frames[i])
            && !v2.avail(frames[i]) && v2.owns(frames[i]) by {}
        assert forall|t: u64| #[trigger] lower_tables(m2, root).contains(t) implies !frames.contains(
            t,
        ) && frame_ok(m2, t) && !v2.avail(t) && v2.owns(t) by {
            if lower_tables(m, root).contains(t) {
            } else if frames.contains(t) {
                let i = choose|i: int| 0 <= i < frames.len() && frames[i] == t;
                assert(!v.avail(frames[i]));
            }
        }
    }
}

/// Walk, zero and give back all page tables of the lower half, the root excepted. `m0` is
/// the memory in which the tables are known to be in order.
fn free_lower_half_tables(
    fa: &mut FrameAllocator,
    mem: &mut Memory,
    pml4_phys: u64,
    Ghost(m0): Ghost<Seq<u64>>,
)
    requires
        tree_wf(m0, pml4_phys, 0, 256),
        old(fa).wf(),
        old(mem)@.len() == m0.len(),
        same_frame(m0, old(mem)@, pml4_phys),
        forall|t: u64| #[trigger]
            lower_tables(m0, pml4_phys).contains(t) ==> same_frame(m0, old(mem)@, t) && !old(
                fa,
            )@.avail(t) && old(fa)@.owns(t),
    ensures
        final(fa).wf(),
        released(
            old(mem)@,
            final(mem)@,
            old(fa)@,
            final(fa)@,
            lower_tables(m0, pml4_phys),
        ),
{
    proof {
        let none = Seq::<int>::empty();
        assert(table_at(m0, pml4_phys, none) == Some(pml4_phys)) by {
            reveal_with_fuel(table_at, 1);
        }
        assert forall|t: u64| #[trigger] below(m0, pml4_phys, none, 256).contains(t) implies same_frame(
            m0,
            mem@,
            t,
        ) && !fa@.avail(t) && fa@.owns(t) by {
            assert(lower_tables(m0, pml4_phys).contains(t));
        }
    }
    free_below(
        fa,
        mem,
        pml4_phys,
        0,
        256,
        Ghost(m0),
        Ghost(pml4_phys),
        Ghost(Seq::<int>::empty()),
    );
}

/// Zero and give back everything that belongs to an address space: the frames allocated
/// for it, its page tables, and its root table last.
pub fn release_space(fa: &mut FrameAllocator, mem: &mut Memory, frames: &[u64], count: usize)
    requires
        old(fa).wf(),
        count <= frames@.len(),
        space_wf(old(mem)@, old(fa)@, frames@.take(count as int)),
    ensures
        final(fa).wf(),
        released(
            old(mem)@,
            final(mem)@,
            old(fa)@,
            final(fa)@,
            claimed(old(mem)@, frames@.take(count as int)),
        ),
{
    let ghost m = mem@;
    let ghost v = fa@;
    let ghost all = frames@.take(count as int);
    let ghost tables = lower_tables(m, all[0]);
    proof {
        lemma_claimed(m, v, all);
        assert(all.subrange(1, 1).to_set() =~= Set::<u64>::empty());
        lemma_released_none(m, v, all.subrange(1, 1).to_set());
    }
    let mut i: usize = 1;
    while i < count
        invariant
            1 <= i <= count,
            count <= frames@.len(),
            all == frames@.take(count as int),
            space_wf(m, v, all),
            fa.wf(),
            released(m, mem@, v, fa@, all.subrange(1, i as int).to_set()),
        decreases count - i,
    {
        let ghost done = all.subrange(1, i as int).to_set();
        let ghost m1 = mem@;
        let ghost v1 = fa@;
        let phys: u64 = frames[i];
        proof {
            lemma_claimed(m, v, all);
            assert(all[i as int] == phys);
            assert(claimed(m, all).contains(phys));
            lemma_data_frames(m, v, all, i as int);
            reveal(released);
            assert(m1.len() == m.len()) by {
                reveal(cleared);
            }
        }
        release_frame(fa, mem, phys);
        proof {
            let one = Set::<u64>::empty().insert(phys);
            assert(done.disjoint(one));
            lemma_released_both(m, m1, mem@, v, v1, fa@, done, one);
            assert(all.subrange(1, i + 1).to_set() =~= done.union(one)) by {
                lemma_subrange_set(all, i as int);
            }
        }
        i += 1;
    }
    let ghost data = all.subrange(1, count as int).to_set();
    let ghost m1 = mem@;
    let ghost v1 = fa@;
    let root: u64 = frames[0];
    proof {
        lemma_claimed(m, v, all);
        lemma_data_frames(m, v, all, count as int);
        assert(all[0] == root);
        assert(m1 == cleared(m, data)) by {
            reveal(released);
        }
        assert(m1.len() == m.len()) by {
            reveal(cleared);
        }
        assert forall|t: u64| #[trigger] data.contains(t) implies frame_ok(m, t) by {
            assert(claimed(m, all).contains(t));
        }
        assert(claimed(m, all).contains(all[0]));
        lemma_cleared_other(m, data, root);
        assert forall|t: u64| #[trigger] tables.contains(t) implies same_frame(m, m1, t)
            && !v1.avail(t) && v1.owns(t) by {
            assert(claimed(m, all).contains(t));
            lemma_cleared_other(m, data, t);
            reveal(released);
        }
    }
    free_lower_half_tables(fa, mem, root, Ghost(m));
    let ghost m2 = mem@;
    let ghost v2 = fa@;
    proof {
        assert(data.disjoint(tables));
        lemma_released_both(m, m1, m2, v, v1, v2, data, tables);
        reveal(released);
        assert(m2.len() == m.len()) by {
            reveal(cleared);
        }
        reveal(space_wf);
        assert(all.contains(all[0]));
    }
    release_frame(fa, mem, root);
    proof {
        let one = Set::<u64>::empty().insert(root);
        lemma_released_both(m, m2, mem@, v, v2, fa@, data.union(tables), one);
        assert(data.union(tables).union(one) =~= claimed(m, all)) by {
            lemma_whole_set(all);
        }
    }
}

/// The frames of an address space but for its root, up to number `n`, are no tables, and
/// the next one is not among them.
proof fn lemma_data_frames(m: Seq<u64>, v: FrameView, all: Seq<u64>, n: int)
    requires
        space_wf(m, v, all),
        1 <= n <= all.len(),
    ensures
        ({
            let done = all.subrange(1, n).to_set();
            &&& !done.contains(all[0])
            &&& n < all.len() ==> !done.contains(all[n])
            &&& forall|t: u64| #[trigger]
                lower_tables(m, all[0]).contains(t) ==> !done.contains(t)
            &&& forall|t: u64| #[trigger] done.contains(t) ==> claimed(m, all).contains(t)
        }),
{
    reveal(space_wf);
    let sub = all.subrange(1, n);
    let done = sub.to_set();
    assert forall|t: u64| #[trigger] done.contains(t) implies all.contains(t) && t != all[0] && (n
        < all.len() ==> t != all[n]) by {
        let i = choose|i: int| 0 <= i < sub.len() && sub[i] == t;
        assert(all[i + 1] == t);
    }
}

proof fn lemma_subrange_set(all: Seq<u64>, n: int)
    requires
        1 <= n < all.len(),
    ensures
        all.subrange(1, n + 1).to_set() == all.subrange(1, n).to_set().union(
            Set::<u64>::empty().insert(all[n]),
        ),
{
    let a = all.subrange(1, n);
    let b = all.subrange(1, n + 1);
    assert(b =~= a.push(all[n]));
    assert forall|t: u64| b.to_set().contains(t) == a.to_set().union(
        Set::<u64>::empty().insert(all[n]),
    ).contains(t) by {
        if a.contains(t) {
            let i = choose|i: int| 0 <= i < a.len() && a[i] == t;
            assert(b[i] == t);
        }
        if t == all[n] {
            assert(b[n - 1] == t);
        }
        if b.contains(t) {
            let i = choose|i: int| 0 <= i < b.len() && b[i] == t;
            if i < a.len() {
                assert(a[i] == t);
            }
        }
    }
    assert(b.to_set() =~= a.to_set().union(Set::<u64>::empty().insert(all[n])));
}

proof fn lemma_whole_set(all: Seq<u64>)
    requires
        all.len() >= 1,
    ensures
        all.to_set() == all.subrange(1, all.len() as int).to_set().union(
            Set::<u64>::empty().insert(all[0]),
        ),
{
    let a = all.subrange(1, all.len() as int);
    assert forall|t: u64| all.to_set().contains(t) == a.to_set().union(
        Set::<u64>::empty().insert(all[0]),
    ).contains(t) by {
        if all.contains(t) {
            let i = choose|i: int| 0 <= i < all.len() && all[i] == t;
            if i > 0 {
                assert(a[i - 1] == t);
            }
        }
        if a.contains(t) {
            let i = choose|i: int| 0 <= i < a.len() && a[i] == t;
            assert(all[i + 1] == t);
        }
        if t == all[0] {
            assert(all.contains(t));
        }
    }
    assert(all.to_set() =~= a.to_set().union(Set::<u64>::empty().insert(all[0])));
}

/// A root table without entries for the lower half is an address space without pages.
pub proof fn lemma_space_new(m: Seq<u64>, v: FrameView, root: u64)
    requires
        frame_ok(m, root),
        !v.avail(root),
        v.owns(root),
        forall|i: int| 0 <= i < 256 ==> #[trigger] m[slot(root, i)] == 0,
    ensures
        space_wf(m, v, seq![root]),
        claimed(m, seq![root]) == Set::<u64>::empty().insert(root),
        forall|q: Seq<int>|
            path_ok(q, 0, 256) && q.len() > 0 ==> #[trigger] table_at(m, root, q) is None,
        forall|x: u64| half_lo(x) == 0 ==> #[trigger] leaf(m, root, x) is Unmapped,
{
    let none = Seq::<int>::empty();
    assert forall|q: Seq<int>| path_ok(q, 0, 256) && q.len() > 0 implies #[trigger] table_at(
        m,
        root,
        q,
    ) is None by {
        reveal_with_fuel(table_at, 1);
        lemma_next_entry(m, root, none, q[0]);
        assert(m[slot(root, q[0])] == 0);
        lemma_entry_bits(0, 0);
        assert(q.take(1) =~= none.push(q[0]));
        lemma_next_table(m, root, q.take(1), q);
    }
    assert forall|q: Seq<int>| path_ok(q, 0, 256) implies (#[trigger] table_at(m, root, q) matches Some(t)
        ==> frame_ok(m, t)) by {
        if q.len() == 0 {
            reveal_with_fuel(table_at, 1);
        }
    }
    assert(tree_wf(m, root, 0, 256)) by {
        assert forall|p: Seq<int>, q: Seq<int>|
            path_ok(p, 0, 256) && path_ok(q, 0, 256) && table_at(m, root, p) is Some && (
            #[trigger] table_at(m, root, p)) == (#[trigger] table_at(m, root, q)) implies p == q by {
            assert(p.len() == 0 && q.len() == 0);
            assert(p =~= q);
        }
    }
    assert(lower_tables(m, root) =~= Set::<u64>::empty()) by {
        assert forall|t: u64| !lower_tables(m, root).contains(t) by {
            if lower_tables(m, root).contains(t) {
                let q = choose|q: Seq<int>|
                    path_ok(q, 0, 256) && continues(q, none, 256) && #[trigger] table_at(m, root, q)
                        == Some(t);
                assert(table_at(m, root, q) is None);
            }
        }
    }
    let frames = seq![root];
    assert(frames.to_set() =~= Set::<u64>::empty().insert(root)) by {
        assert(frames[0] == root);
    }
    assert(claimed(m, frames) =~= Set::<u64>::empty().insert(root));
    reveal(ways_open);
    reveal(space_wf);
    assert forall|x: u64| half_lo(x) == 0 implies #[trigger] leaf(m, root, x) is Unmapped by {
        lemma_indices_ok(x, 2, 0, 256);
        lemma_indices_ok(x, 3, 0, 256);
        assert(indices(x).take(2).len() == 2 && indices(x).take(3).len() == 3);
    }
}

/// Whether word `w` lies in one of the frames in `s`.
pub open spec fn in_frames(s: Set<u64>, w: int) -> bool {
    exists|t: u64| s.contains(t) && #[trigger] in_frame(w, t)
}

/// An address space grows: frames join it that were free, its own frames stay, what its
/// data frames hold stays, its root keeps the upper half, and no word outside its own and
/// the free frames changes.
#[verifier::opaque]
pub open spec fn space_grown(
    m: Seq<u64>,
    m2: Seq<u64>,
    v: FrameView,
    v2: FrameView,
    frames: Seq<u64>,
    frames2: Seq<u64>,
) -> bool {
    &&& m2.len() == m.len()
    &&& space_wf(m2, v2, frames2)
    &&& frames2.len() >= frames.len() >= 1
    &&& frames2.take(frames.len() as int) == frames
    &&& claimed(m, frames).subset_of(claimed(m2, frames2))
    &&& forall|t: u64| #[trigger]
        claimed(m2, frames2).contains(t) ==> claimed(m, frames).contains(t) || v.avail(t)
    &&& forall|t: u64| #[trigger] v2.avail(t) <==> v.avail(t) && !claimed(m2, frames2).contains(t)
    &&& forall|t: u64| #[trigger] v.owns(t) ==> v2.owns(t)
    &&& forall|i: int| 1 <= i < frames.len() ==> same_frame(m, m2, #[trigger] frames[i])
    &&& forall|i: int|
        256 <= i < 512 ==> #[trigger] m2[slot(frames[0], i)] == m[slot(frames[0], i)]
    &&& forall|w: int|
        0 <= w < m.len() ==> #[trigger] m2[w] == m[w] || in_free_frame(v, w) || in_frames(
            claimed(m, frames),
            w,
        )
}

/// An address space that stays as it is.
pub proof fn lemma_grown_none(m: Seq<u64>, v: FrameView, frames: Seq<u64>)
    requires
        space_wf(m, v, frames),
    ensures
        space_grown(m, m, v, v, frames, frames),
{
    reveal(space_grown);
    lemma_claimed(m, v, frames);
    assert(frames.take(frames.len() as int) =~= frames);
}

/// Growing twice is growing.
pub proof fn lemma_grown_twice(
    m: Seq<u64>,
    m1: Seq<u64>,
    m2: Seq<u64>,
    v: FrameView,
    v1: FrameView,
    v2: FrameView,
    f: Seq<u64>,
    f1: Seq<u64>,
    f2: Seq<u64>,
)
    requires
        space_grown(m, m1, v, v1, f, f1),
        space_grown(m1, m2, v1, v2, f1, f2),
    ensures
        space_grown(m, m2, v, v2, f, f2),
{
    reveal(space_grown);
    assert(f2.take(f.len() as int) =~= f) by {
        assert(f2.take(f1.len() as int).take(f.len() as int) =~= f2.take(f.len() as int));
    }
    assert(f1[0] == f[0]) by {
        assert(f1.take(f.len() as int)[0] == f[0]);
    }
    assert forall|i: int| 1 <= i < f.len() implies same_frame(m, m2, #[trigger] f[i]) by {
        assert(f1[i] == f1.take(f.len() as int)[i]);
        assert(same_frame(m, m1, f[i]));
        assert(same_frame(m1, m2, f1[i]));
        assert forall|w: int| in_frame(w, f[i]) implies #[trigger] m2[w] == m[w] by {
            assert(m1[w] == m[w]);
        }
    }
    assert forall|i: int| 256 <= i < 512 implies #[trigger] m2[slot(f[0], i)] == m[slot(f[0], i)] by {
        assert(m1[slot(f[0], i)] == m[slot(f[0], i)]);
        assert(m2[slot(f1[0], i)] == m1[slot(f1[0], i)]);
    }
    assert forall|t: u64| #[trigger] v2.avail(t) <==> v.avail(t) && !claimed(m2, f2).contains(t) by {
        if claimed(m1, f1).contains(t) {
            assert(claimed(m2, f2).contains(t));
        }
    }
    assert forall|w: int| 0 <= w < m.len() implies #[trigger] m2[w] == m[w] || in_free_frame(v, w)
        || in_frames(claimed(m, f), w) by {
        if m2[w] != m1[w] {
            if in_free_frame(v1, w) {
                reveal(in_free_frame);
                let t = choose|t: u64| v1.avail(t) && #[trigger] in_frame(w, t);
                assert(v.avail(t));
            } else {
                let t = choose|t: u64| claimed(m1, f1).contains(t) && #[trigger] in_frame(w, t);
                if !claimed(m, f).contains(t) {
                    reveal(in_free_frame);
                    assert(v.avail(t));
                }
            }
        } else {
            assert(m1[w] == m2[w]);
        }
    }
}

/// A frame is allocated for an address space and filled.
pub proof fn lemma_grown_frame(
    m: Seq<u64>,
    m2: Seq<u64>,
    v: FrameView,
    frames: Seq<u64>,
    p: u64,
)
    requires
        space_wf(m, v, frames),
        v.wf(),
        v.next() == Some(p),
        frame_ok(m, p),
        m2.len() == m.len(),
        forall|w: int| 0 <= w < m.len() && !in_frame(w, p) ==> #[trigger] m2[w] == m[w],
    ensures
        space_grown(m, m2, v, v.after_alloc(), frames, frames.push(p)),
        forall|q: Seq<int>|
            path_ok(q, 0, 256) ==> #[trigger] table_at(m2, frames[0], q) == table_at(
                m,
                frames[0],
                q,
            ),
        same_leaves(m, m2, frames[0], 0, 256),
{
    let m1 = zeroed(m, p);
    let v2 = v.after_alloc();
    let more = frames.push(p);
    let n = frames.len() as int;
    lemma_claimed(m, v, frames);
    lemma_space_alloc(m, v, frames, p);
    assert(more[n] == p && more[0] == frames[0]);
    assert forall|w: int| 0 <= w < m1.len() && !in_frame(w, more[n]) implies #[trigger] m2[w]
        == m1[w] by {
        assert(m1[w] == m[w]);
    }
    lemma_space_write(m1, m2, v2, more, n);
    assert(same_leaves(m, m2, frames[0], 0, 256)) by {
        reveal(same_leaves);
        assert forall|x: u64| in_half(x, 0, 256) implies #[trigger] leaf(m2, frames[0], x) == leaf(
            m,
            frames[0],
            x,
        ) by {
            assert(leaf(m1, frames[0], x) == leaf(m, frames[0], x));
        }
    }
    v.lemma_alloc();
    reveal(space_grown);
    assert(more.take(n) =~= frames);
    assert forall|i: int| 1 <= i < n implies same_frame(m, m2, #[trigger] frames[i]) by {
        assert(claimed(m, frames).contains(frames[i]));
        assert(same_frame(m, m1, frames[i]));
        assert(claimed(m1, more).contains(frames[i]) && frames[i] != more[n]);
        assert(same_frame(m1, m2, frames[i]));
        assert forall|w: int| in_frame(w, frames[i]) implies #[trigger] m2[w] == m[w] by {
            assert(m1[w] == m[w]);
        }
    }
    assert forall|i: int| 256 <= i < 512 implies #[trigger] m2[slot(frames[0], i)] == m[slot(
        frames[0],
        i,
    )] by {
        let w = slot(frames[0], i);
        assert(claimed(m, frames).contains(frames[0]));
        assert(in_frame(w, frames[0]));
        if in_frame(w, p) {
            lemma_frames_apart(m, frames[0], p, w);
        }
    }
    assert forall|w: int| 0 <= w < m.len() implies #[trigger] m2[w] == m[w] || in_free_frame(v, w)
        || in_frames(claimed(m, frames), w) by {
        if in_frame(w, p) {
            reveal(in_free_frame);
            assert(v.avail(p));
        }
    }
}

/// A page is mapped in the lower half of an address space.
pub proof fn lemma_grown_map(
    m: Seq<u64>,
    m2: Seq<u64>,
    v: FrameView,
    v2: FrameView,
    frames: Seq<u64>,
    virt: u64,
    e: u64,
)
    requires
        space_wf(m, v, frames),
        half_lo(virt) == 0,
        mapped_4k(m, m2, v, v2, frames[0], virt, e),
    ensures
        space_grown(m, m2, v, v2, frames, frames),
{
    lemma_space_map(m, m2, v, v2, frames, virt, e);
    lemma_claimed(m, v, frames);
    assert(forall|t: u64| #[trigger] v.owns(t) ==> v2.owns(t)) by {
        reveal(mapped_4k);
        reveal(tables_added);
    }
    reveal(space_grown);
    assert(frames.take(frames.len() as int) =~= frames);
    assert forall|w: int| 0 <= w < m.len() implies #[trigger] m2[w] == m[w] || in_free_frame(v, w)
        || in_frames(claimed(m, frames), w) by {}
}

/// The tables of an address space are in order, and none of them is free.
pub proof fn lemma_space_tables(m: Seq<u64>, v: FrameView, frames: Seq<u64>)
    requires
        space_wf(m, v, frames),
    ensures
        frames.len() >= 1,
        tree_wf(m, frames[0], 0, 256),
        tables_taken(m, frames[0], 0, 256, v),
        ways_open(m, frames[0], 0, 256, PARENT_FLAGS),
{
    let root = frames[0];
    lemma_claimed(m, v, frames);
    assert(ways_open(m, root, 0, 256, PARENT_FLAGS)) by {
        reveal(space_wf);
    }
    assert(tables_taken(m, root, 0, 256, v)) by {
        assert forall|q: Seq<int>| path_ok(q, 0, 256) implies (#[trigger] table_at(
            m,
            root,
            q,
        ) matches Some(t) ==> !v.avail(t)) by {
            if table_at(m, root, q) is Some {
                lemma_lower_tables(m, root, q);
                assert(claimed(m, frames).contains(frames[0]));
                assert(claimed(m, frames).contains(table_at(m, root, q)->0));
            }
        }
    }
}

/// Consecutive pages are mapped in the lower half of an address space.
pub proof fn lemma_grown_window(
    m: Seq<u64>,
    m2: Seq<u64>,
    v: FrameView,
    v2: FrameView,
    frames: Seq<u64>,
    virt: u64,
    phys: u64,
    n: int,
    flags: u64,
)
    requires
        space_wf(m, v, frames),
        half_lo(virt) == 0,
        window_mapped(m, m2, v, v2, frames[0], virt, phys, n, flags),
    ensures
        space_grown(m, m2, v, v2, frames, frames),
{
    let root = frames[0];
    let none = Seq::<int>::empty();
    lemma_claimed(m, v, frames);
    assert(claimed(m, frames).contains(frames[0]));
    reveal(window_mapped);
    assert forall|t: u64| #[trigger] lower_tables(m, root).contains(t) implies lower_tables(
        m2,
        root,
    ).contains(t) by {
        let q = choose|q: Seq<int>|
            path_ok(q, 0, 256) && continues(q, none, 256) && #[trigger] table_at(m, root, q) == Some(
                t,
            );
        assert(table_at(m2, root, q) == Some(t));
    }
    assert forall|t: u64| #[trigger] lower_tables(m2, root).contains(t) implies (lower_tables(
        m,
        root,
    ).contains(t) || (v.avail(t) && v2.owns(t))) && !v2.avail(t) && frame_ok(m2, t) by {
        let q = choose|q: Seq<int>|
            path_ok(q, 0, 256) && continues(q, none, 256) && #[trigger] table_at(m2, root, q)
                == Some(t);
        if table_at(m, root, q) is Some {
            assert(table_at(m, root, q) == Some(t));
        }
    }
    assert forall|t: u64| #[trigger]
        v2.avail(t) <==> v.avail(t) && !claimed(m2, frames).contains(t) by {
        if v.avail(t) {
            assert(!claimed(m, frames).contains(t));
            if !v2.avail(t) {
                let q = choose|q: Seq<int>|
                    path_ok(q, 0, 256) && #[trigger] table_at(m2, root, q) == Some(t);
                lemma_lower_tables(m2, root, q);
            }
        }
    }
    lemma_grown_window_words(m, m2, v, v2, frames, virt, phys, n, flags);
    assert(ways_open(m2, root, 0, 256, PARENT_FLAGS)) by {
        lemma_space_tables(m, v, frames);
        lemma_ways_grown(m, m2, root, 0, 256, PARENT_FLAGS);
    }
    assert(space_wf(m2, v2, frames)) by {
        reveal(space_wf);
        assert forall|t: u64| #[trigger] lower_tables(m2, root).contains(t) implies !frames.contains(
            t,
        ) && frame_ok(m2, t) && !v2.avail(t) && v2.owns(t) by {
            if !lower_tables(m, root).contains(t) && frames.contains(t) {
                let i = choose|i: int| 0 <= i < frames.len() && frames[i] == t;
                assert(!v.avail(frames[i]));
            }
        }
    }
    reveal(space_grown);
    assert(frames.take(frames.len() as int) =~= frames);
}

proof fn lemma_grown_window_words(
    m: Seq<u64>,
    m2: Seq<u64>,
    v: FrameView,
    v2: FrameView,
    frames: Seq<u64>,
    virt: u64,
    phys: u64,
    n: int,
    flags: u64,
)
    requires
        space_wf(m, v, frames),
        half_lo(virt) == 0,
        window_mapped(m, m2, v, v2, frames[0], virt, phys, n, flags),
    ensures
        forall|i: int| 1 <= i < frames.len() ==> same_frame(m, m2, #[trigger] frames[i]),
        forall|i: int|
            256 <= i < 512 ==> #[trigger] m2[slot(frames[0], i)] == m[slot(frames[0], i)],
        forall|w: int|
            0 <= w < m.len() ==> #[trigger] m2[w] == m[w] || in_free_frame(v, w) || in_frames(
                claimed(m, frames),
                w,
            ),
{
    let root = frames[0];
    lemma_claimed(m, v, frames);
    assert(claimed(m, frames).contains(frames[0]));
    reveal(window_mapped);
    assert forall|i: int| 1 <= i < frames.len() implies same_frame(m, m2, #[trigger] frames[i]) by {
        let f = frames[i];
        assert(claimed(m, frames).contains(frames[i]));
        assert forall|w: int| in_frame(w, f) implies #[trigger] m2[w] == m[w] by {
            if m2[w] != m[w] {
                lemma_free_frame_apart(m, v, f, w);
                let q = choose|q: Seq<int>|
                    path_ok(q, 0, 256) && (#[trigger] table_at(m, root, q) matches Some(t)
                        && in_frame(w, t));
                let t = table_at(m, root, q)->0;
                lemma_lower_tables(m, root, q);
                lemma_frames_apart(m, t, f, w);
                reveal(space_wf);
                assert(frames.contains(f));
                assert(frames[0] != frames[i]);
            }
        }
    }
    assert forall|w: int| 0 <= w < m.len() implies #[trigger] m2[w] == m[w] || in_free_frame(v, w)
        || in_frames(claimed(m, frames), w) by {
        if m2[w] != m[w] && !in_free_frame(v, w) {
            let q = choose|q: Seq<int>|
                path_ok(q, 0, 256) && (#[trigger] table_at(m, root, q) matches Some(t) && in_frame(
                    w,
                    t,
                ));
            let t = table_at(m, root, q)->0;
            lemma_lower_tables(m, root, q);
            assert(claimed(m, frames).contains(t) && in_frame(w, t));
        }
    }
}

/// Allocate a frame for an address space, fill it with page number `k` of `data`, and map
/// it at `virt`. The result is the frame.
pub(crate) fn add_page(
    fa: &mut FrameAllocator,
    mem: &mut Memory,
    root: u64,
    virt: u64,
    data: &[u8],
    k: usize,
    flags: u64,
    Ghost(frames): Ghost<Seq<u64>>,
) -> (p: u64)
    requires
        old(fa).wf(),
        old(fa)@.within(old(mem)@.len()),
        space_wf(old(mem)@, old(fa)@, frames),
        root == frames[0],
        half_lo(virt) == 0,
        leaf(old(mem)@, root, virt) is Unmapped,
        !(writable(flags) && executable(flags)),
        old(fa)@.capacity() >= 1 + missing_tables(old(mem)@, root, virt, 3),
        (k + 1) * 4096 <= usize::MAX,
    ensures
        final(fa).wf(),
        final(fa)@.within(final(mem)@.len()),
        space_grown(
            old(mem)@,
            final(mem)@,
            old(fa)@,
            final(fa)@,
            frames,
            frames.push(p),
        ),
        bytes_at(final(mem)@, p as int, 4096) == page_of(data@, k as int),
        page_mapped(old(mem)@, final(mem)@, root, virt, pte_value(p, flags | PTE_PRESENT)),
        final(fa)@.capacity() == old(fa)@.capacity() - 1 - missing_tables(
            old(mem)@,
            root,
            virt,
            3,
        ),
{
    let ghost m0 = mem@;
    let ghost v0 = fa@;
    let ghost more = frames;
    proof {
        fa.lemma_wf();
        v0.lemma_alloc();
        lemma_missing_monotone(m0, root, virt, 0, 3);
    }
    let p: u64 = match alloc_frame_zeroed(fa, mem) {
        Some(p) => p,
        None => {
            assert(false);
            0
        },
    };
    proof {
        more = frames.push(p);
    }
    mem.write_page(p, data, k);
    let ghost m1 = mem@;
    let ghost v1 = fa@;
    proof {
        assert forall|w: int| 0 <= w < m0.len() && !in_frame(w, p) implies #[trigger] m1[w]
            == m0[w] by {
            assert(zeroed(m0, p)[w] == m0[w]);
        }
        lemma_grown_frame(m0, m1, v0, frames, p);
        assert(space_wf(m1, v1, more) && more[0] == root) by {
            reveal(space_grown);
        }
        lemma_claimed(m1, v1, more);
        assert(leaf(m1, root, virt) is Unmapped) by {
            reveal(same_leaves);
            assert(in_half(virt, 0, 256));
        }
        assert forall|l: int| 1 <= l <= 3 implies #[trigger] table_at(m1, root, indices(virt).take(l))
            == table_at(m0, root, indices(virt).take(l)) by {
            lemma_indices_ok(virt, l, 0, 256);
        }
        lemma_missing_same(m0, m1, root, virt);
        lemma_space_tables(m1, v1, more);
    }
    let ok = map_4k(fa, mem, root, virt, p, flags);
    assert(ok);
    proof {
        let e = pte_value(p, flags | PTE_PRESENT);
        lemma_grown_map(m1, mem@, v1, fa@, more, virt, e);
        lemma_grown_twice(m0, m1, mem@, v0, v1, fa@, frames, more, more);
        assert(same_frame(m1, mem@, p)) by {
            reveal(space_grown);
            assert(more[frames.len() as int] == p);
        }
        assert(frame_ok(m1, p)) by {
            assert(claimed(m1, more).contains(more[frames.len() as int]));
        }
        lemma_same_bytes(m1, mem@, p);
        assert(page_mapped(m0, mem@, root, virt, e)) by {
            lemma_page_mapped(m0, m1, mem@, v1, fa@, root, virt, e);
        }
        assert(fa@.capacity() == v1.capacity() - missing_tables(m1, root, virt, 3)) by {
            reveal(mapped_4k);
            reveal(tables_added);
        }
    }
    p
}

/// The bytes of a frame are the same where its words are.
pub proof fn lemma_same_bytes(m: Seq<u64>, m2: Seq<u64>, p: u64)
    requires
        frame_ok(m, p),
        same_frame(m, m2, p),
    ensures
        bytes_at(m2, p as int, 4096) == bytes_at(m, p as int, 4096),
{
    assert forall|i: int| 0 <= i < 4096 implies bytes_at(m2, p as int, 4096)[i] == bytes_at(
        m,
        p as int,
        4096,
    )[i] by {
        let w = (p as int + i) / 8;
        assert(in_frame(w, p));
        assert(m2[w] == m[w]);
    }
    assert(bytes_at(m2, p as int, 4096) =~= bytes_at(m, p as int, 4096));
}

/// The page at `virt` is mapped by the entry `e`, all other pages of the lower half are
/// mapped as before, and so are the tables that are not on the way to it.
#[verifier::opaque]
pub open spec fn page_mapped(m: Seq<u64>, m2: Seq<u64>, root: u64, virt: u64, e: u64) -> bool {
    &&& leaf(m2, root, virt) == Leaf::Page4K(e)
    &&& forall|x: u64|
        in_half(x, 0, 256) && indices(x) != indices(virt) ==> #[trigger] leaf(m2, root, x) == leaf(
            m,
            root,
            x,
        )
    &&& forall|l: int| 1 <= l <= 3 ==> #[trigger] table_at(m2, root, indices(virt).take(l)) is Some
    &&& forall|q: Seq<int>|
        path_ok(q, 0, 256) && (table_at(m, root, q) is Some || !on_way(q, virt, 3)) ==> (
        #[trigger] table_at(m2, root, q)) == table_at(m, root, q)
}

proof fn lemma_page_mapped(
    m0: Seq<u64>,
    m1: Seq<u64>,
    m2: Seq<u64>,
    v1: FrameView,
    v2: FrameView,
    root: u64,
    virt: u64,
    e: u64,
)
    requires
        half_lo(virt) == 0,
        mapped_4k(m1, m2, v1, v2, root, virt, e),
        same_leaves(m0, m1, root, 0, 256),
        forall|q: Seq<int>|
            path_ok(q, 0, 256) ==> #[trigger] table_at(m1, root, q) == table_at(m0, root, q),
    ensures
        page_mapped(m0, m2, root, virt, e),
{
    reveal(page_mapped);
    reveal(mapped_4k);
    reveal(tables_added);
    reveal(same_leaves);
    assert forall|x: u64| in_half(x, 0, 256) && indices(x) != indices(virt) implies #[trigger] leaf(
        m2,
        root,
        x,
    ) == leaf(m0, root, x) by {
        assert(leaf(m1, root, x) == leaf(m0, root, x));
    }
    assert forall|q: Seq<int>|
        path_ok(q, 0, 256) && (table_at(m0, root, q) is Some || !on_way(q, virt, 3)) implies (
    #[trigger] table_at(m2, root, q)) == table_at(m0, root, q) by {
        assert(table_at(m1, root, q) == table_at(m0, root, q));
    }
}

} // verus!
