//! 4 KiB frame allocator: divides 2 MiB regions of the physical memory manager.
//!
//! Each `SubRegion` wraps a 2 MiB region as a bitmap of 512 frames. When all frames
//! of the known sub-regions are taken, a new region is requested.

use vstd::prelude::*;

use crate::bits::{bit, lemma_clear_bit, lemma_constant_words, lemma_lowest_bit, lemma_set_bit};
use crate::mem::{frame_ok, zeroed, Memory, FRAME_SIZE};
use crate::pmm::{alloc_region, Pmm, MAX_REGIONS, REGION_SIZE};

verus! {

/// Number of frames in a region.
pub const FRAMES_PER_REGION: usize = 512;

/// Number of words in the bitmap of a sub-region.
const BITMAP_WORDS: usize = 8;

/// Number of regions that the allocator can divide.
pub const MAX_SUB_REGIONS: usize = 64;

/// A region of 512 frames, and the numbers of those that are free.
#[verifier::ext_equal]
pub struct RegionView {
    pub base: u64,
    pub free: Set<int>,
}

/// The divided regions in the order in which they are searched, and the numbers of
/// the 2 MiB regions that can still be requested.
#[verifier::ext_equal]
pub struct FrameView {
    pub regions: Seq<RegionView>,
    pub pool: Set<int>,
}

/// The least element of a set of numbers.
pub open spec fn is_least(s: Set<int>, x: int) -> bool {
    s.contains(x) && forall|y: int| #[trigger] s.contains(y) ==> x <= y
}

/// The least element of a set of numbers that has one.
pub open spec fn least(s: Set<int>) -> int {
    choose|x: int| is_least(s, x)
}

/// The numbers of all frames of a region.
pub open spec fn all_frames() -> Set<int> {
    Set::new(|k: int| 0 <= k < FRAMES_PER_REGION)
}

impl RegionView {
    pub open spec fn wf(self) -> bool {
        &&& self.base % REGION_SIZE == 0
        &&& self.base / REGION_SIZE < MAX_REGIONS
        &&& self.free.subset_of(all_frames())
    }

    /// Whether the address lies in the region.
    pub open spec fn contains(self, phys: u64) -> bool {
        self.base <= phys < self.base + REGION_SIZE
    }

    /// Whether the frame at `phys` is one of the region's free frames.
    pub open spec fn offers(self, phys: u64) -> bool {
        &&& phys % FRAME_SIZE == 0
        &&& self.contains(phys)
        &&& self.free.contains((phys - self.base) / FRAME_SIZE as int)
    }

    /// The frame that is handed out next.
    pub open spec fn head(self) -> Option<u64> {
        if self.free == Set::<int>::empty() {
            None
        } else {
            Some((self.base + least(self.free) * FRAME_SIZE) as u64)
        }
    }

    /// The region after that frame is handed out.
    pub open spec fn after_take(self) -> RegionView {
        if self.free == Set::<int>::empty() {
            self
        } else {
            RegionView { base: self.base, free: self.free.remove(least(self.free)) }
        }
    }

    /// The region after `n` frames are handed out.
    pub open spec fn taken(self, n: int) -> RegionView
        decreases n,
    {
        if n <= 0 {
            self
        } else {
            self.taken(n - 1).after_take()
        }
    }

    /// The region after the frame that holds `phys` is given back.
    pub open spec fn after_put(self, phys: u64) -> RegionView {
        if self.contains(phys) {
            RegionView {
                base: self.base,
                free: self.free.insert((phys - self.base) / FRAME_SIZE as int),
            }
        } else {
            self
        }
    }
}

impl FrameView {
    pub open spec fn wf(self) -> bool {
        &&& self.regions.len() <= MAX_SUB_REGIONS
        &&& forall|i: int| 0 <= i < self.regions.len() ==> (#[trigger] self.regions[i]).wf()
        &&& forall|i: int, j: int|
            0 <= i < j < self.regions.len() ==> (#[trigger] self.regions[i]).base != (
            #[trigger] self.regions[j]).base
        &&& forall|i: int|
            0 <= i < self.regions.len() ==> !self.pool.contains(
                (#[trigger] self.regions[i]).base as int / REGION_SIZE as int,
            )
        &&& forall|k: int| #[trigger] self.pool.contains(k) ==> 0 <= k < MAX_REGIONS
        &&& self.pool.finite()
    }

    /// The first region, from number `i` on, that has a free frame.
    pub open spec fn first_open(self, i: int) -> int
        decreases self.regions.len() - i,
    {
        if i >= self.regions.len() || self.regions[i].free != Set::<int>::empty() {
            i
        } else {
            self.first_open(i + 1)
        }
    }

    /// Whether a new region can be divided.
    pub open spec fn can_grow(self) -> bool {
        self.regions.len() < MAX_SUB_REGIONS && self.pool != Set::<int>::empty()
    }

    /// The frame that the next allocation hands out.
    #[verifier::opaque]
    pub open spec fn next(self) -> Option<u64> {
        let i = self.first_open(0);
        if i < self.regions.len() {
            Some((self.regions[i].base + least(self.regions[i].free) * FRAME_SIZE) as u64)
        } else if self.can_grow() {
            Some((least(self.pool) * REGION_SIZE) as u64)
        } else {
            None
        }
    }

    /// The state after the next allocation.
    #[verifier::opaque]
    pub open spec fn after_alloc(self) -> FrameView {
        let i = self.first_open(0);
        if i < self.regions.len() {
            let r = self.regions[i];
            FrameView {
                regions: self.regions.update(
                    i,
                    RegionView { base: r.base, free: r.free.remove(least(r.free)) },
                ),
                pool: self.pool,
            }
        } else if self.can_grow() {
            let k = least(self.pool);
            FrameView {
                regions: self.regions.push(
                    RegionView { base: (k * REGION_SIZE) as u64, free: all_frames().remove(0) },
                ),
                pool: self.pool.remove(k),
            }
        } else {
            self
        }
    }

    /// The state after the frame that holds `phys` is given back.
    #[verifier::opaque]
    pub open spec fn after_free(self, phys: u64) -> FrameView {
        FrameView {
            regions: Seq::new(
                self.regions.len(),
                |i: int|
                    if self.regions[i].contains(phys) {
                        RegionView {
                            base: self.regions[i].base,
                            free: self.regions[i].free.insert(
                                (phys - self.regions[i].base) / FRAME_SIZE as int,
                            ),
                        }
                    } else {
                        self.regions[i]
                    },
            ),
            pool: self.pool,
        }
    }

    /// Whether the frame at `phys` lies in a divided region.
    #[verifier::opaque]
    pub open spec fn owns(self, phys: u64) -> bool {
        exists|i: int| 0 <= i < self.regions.len() && (#[trigger] self.regions[i]).contains(phys)
    }

    /// Whether the frame at `phys` is free, in a divided region or in one that is not yet.
    #[verifier::opaque]
    pub open spec fn avail(self, phys: u64) -> bool {
        ||| exists|i: int| 0 <= i < self.regions.len() && (#[trigger] self.regions[i]).offers(phys)
        ||| phys % FRAME_SIZE == 0 && self.pool.contains(phys as int / REGION_SIZE as int)
    }

    /// Number of free frames in the regions from number `i` on.
    pub open spec fn open_frames(self, i: int) -> int
        decreases self.regions.len() - i,
    {
        if i >= self.regions.len() {
            0
        } else {
            self.regions[i].free.len() + self.open_frames(i + 1)
        }
    }

    /// Number of frames that can be allocated before the allocator runs dry.
    #[verifier::opaque]
    pub open spec fn capacity(self) -> int {
        let growth = if self.pool.len() < MAX_SUB_REGIONS - self.regions.len() {
            self.pool.len() as int
        } else {
            MAX_SUB_REGIONS - self.regions.len()
        };
        self.open_frames(0) + FRAMES_PER_REGION * growth
    }

    /// Whether all regions lie inside a memory of `words` words.
    #[verifier::opaque]
    pub open spec fn within(self, words: nat) -> bool {
        &&& forall|i: int|
            0 <= i < self.regions.len() ==> (#[trigger] self.regions[i]).base + REGION_SIZE <= 8
                * words
        &&& forall|k: int| #[trigger] self.pool.contains(k) ==> (k + 1) * REGION_SIZE <= 8 * words
    }
}

proof fn lemma_least(s: Set<int>, lo: int)
    requires
        s != Set::<int>::empty(),
        forall|y: int| #[trigger] s.contains(y) ==> lo <= y,
    ensures
        is_least(s, least(s)),
{
    let w = choose|w: int| s.contains(w);
    assert(exists|w: int| s.contains(w)) by {
        if forall|w: int| !s.contains(w) {
            assert(s =~= Set::<int>::empty());
        }
    }
    lemma_least_below(s, lo, w);
}

proof fn lemma_least_below(s: Set<int>, lo: int, w: int)
    requires
        s.contains(w),
        forall|y: int| #[trigger] s.contains(y) ==> lo <= y,
    ensures
        is_least(s, least(s)),
    decreases w - lo,
{
    if exists|y: int| s.contains(y) && y < w {
        let y = choose|y: int| s.contains(y) && y < w;
        lemma_least_below(s, lo, y);
    } else {
        assert(is_least(s, w));
    }
}

proof fn lemma_all_frames()
    ensures
        all_frames().finite(),
        all_frames().len() == FRAMES_PER_REGION,
        is_least(all_frames(), 0),
{
    vstd::set_lib::lemma_int_range(0, FRAMES_PER_REGION as int);
    assert(all_frames() =~= vstd::set_lib::set_int_range(0, FRAMES_PER_REGION as int));
}

proof fn lemma_frame_in_region(base: int, phys: int, words: int)
    requires
        0 <= base,
        base % (REGION_SIZE as int) == 0,
        base <= phys < base + REGION_SIZE,
        phys % (FRAME_SIZE as int) == 0,
        base + REGION_SIZE <= 8 * words,
    ensures
        phys / 8 + 512 <= words,
{
}

impl FrameView {
    proof fn lemma_first_open(self, i: int)
        requires
            0 <= i <= self.regions.len(),
        ensures
            i <= self.first_open(i) <= self.regions.len(),
            forall|j: int|
                i <= j < self.first_open(i) ==> (#[trigger] self.regions[j]).free == Set::<
                    int,
                >::empty(),
            self.first_open(i) < self.regions.len() ==> self.regions[self.first_open(i)].free
                != Set::<int>::empty(),
        decreases self.regions.len() - i,
    {
        if i < self.regions.len() && self.regions[i].free == Set::<int>::empty() {
            self.lemma_first_open(i + 1);
        }
    }

    proof fn lemma_first_open_is(self, i: int, n: int)
        requires
            0 <= i <= n <= self.regions.len(),
            forall|j: int|
                i <= j < n ==> (#[trigger] self.regions[j]).free == Set::<int>::empty(),
            n < self.regions.len() ==> self.regions[n].free != Set::<int>::empty(),
        ensures
            self.first_open(i) == n,
        decreases n - i,
    {
        if i < n {
            self.lemma_first_open_is(i + 1, n);
        }
    }

    proof fn lemma_open_frames_none(self, i: int)
        requires
            0 <= i,
            forall|j: int|
                i <= j < self.regions.len() ==> (#[trigger] self.regions[j]).free == Set::<
                    int,
                >::empty(),
        ensures
            self.open_frames(i) == 0,
        decreases self.regions.len() - i,
    {
        if i < self.regions.len() {
            self.lemma_open_frames_none(i + 1);
        }
    }

    proof fn lemma_open_frames_bound(self, i: int)
        requires
            self.wf(),
            0 <= i,
        ensures
            0 <= self.open_frames(i),
        decreases self.regions.len() - i,
    {
        if i < self.regions.len() {
            self.lemma_open_frames_bound(i + 1);
        }
    }

    proof fn lemma_open_frames_update(self, i: int, n: int, r: RegionView)
        requires
            0 <= i,
            0 <= n < self.regions.len(),
        ensures
            (FrameView { regions: self.regions.update(n, r), pool: self.pool }).open_frames(i)
                == self.open_frames(i) + (if i <= n {
                r.free.len() - self.regions[n].free.len()
            } else {
                0
            }),
        decreases self.regions.len() - i,
    {
        if i < self.regions.len() {
            self.lemma_open_frames_update(i + 1, n, r);
        }
    }

    proof fn lemma_open_frames_push(self, i: int, r: RegionView, pool: Set<int>)
        requires
            0 <= i <= self.regions.len(),
        ensures
            (FrameView { regions: self.regions.push(r), pool }).open_frames(i) == self.open_frames(
                i,
            ) + r.free.len(),
        decreases self.regions.len() - i,
    {
        let next = FrameView { regions: self.regions.push(r), pool };
        if i < self.regions.len() {
            self.lemma_open_frames_push(i + 1, r, pool);
        } else {
            assert(next.open_frames(i + 1) == 0);
        }
    }

    /// What the frame handed out next is, and what is left: a free frame leaves, no
    /// other frame changes, and one frame fewer can be allocated.
    pub proof fn lemma_alloc(self)
        requires
            self.wf(),
        ensures
            self.after_alloc().wf(),
            self.next() is None <==> self.capacity() == 0,
            self.capacity() >= 0,
            self.next() is None ==> self.after_alloc() == self,
            self.next() matches Some(p) ==> {
                &&& p % FRAME_SIZE == 0
                &&& p < MAX_REGIONS * REGION_SIZE
                &&& self.avail(p)
                &&& self.after_alloc().owns(p)
                &&& self.after_alloc().capacity() == self.capacity() - 1
                &&& forall|q: u64| #[trigger]
                    self.after_alloc().avail(q) <==> self.avail(q) && q != p
                &&& forall|q: u64| #[trigger] self.owns(q) ==> self.after_alloc().owns(q)
            },
    {
        let i = self.first_open(0);
        self.lemma_first_open(0);
        if i < self.regions.len() {
            self.lemma_alloc_open();
        } else if self.can_grow() {
            self.lemma_alloc_grow();
        } else {
            reveal(FrameView::next);
            reveal(FrameView::after_alloc);
            reveal(FrameView::capacity);
            self.lemma_open_frames_none(0);
            if self.pool == Set::<int>::empty() {
                assert(self.pool.len() == 0);
            }
        }
    }

    proof fn lemma_alloc_open(self)
        requires
            self.wf(),
            self.first_open(0) < self.regions.len(),
        ensures
            self.after_alloc().wf(),
            self.capacity() > 0,
            self.next() matches Some(p) && {
                &&& p % FRAME_SIZE == 0
                &&& p < MAX_REGIONS * REGION_SIZE
                &&& self.avail(p)
                &&& self.after_alloc().owns(p)
                &&& self.after_alloc().capacity() == self.capacity() - 1
                &&& forall|q: u64| #[trigger]
                    self.after_alloc().avail(q) <==> self.avail(q) && q != p
                &&& forall|q: u64| #[trigger] self.owns(q) ==> self.after_alloc().owns(q)
            },
    {
        let i = self.first_open(0);
        let after = self.after_alloc();
        self.lemma_open_frame();
        let r = self.regions[i];
        let k = least(r.free);
        let r2 = RegionView { base: r.base, free: r.free.remove(k) };
        let p = (r.base + k * FRAME_SIZE) as u64;
        assert(self.next() == Some(p)) by {
            reveal(FrameView::next);
        }
        assert(after == (FrameView { regions: self.regions.update(i, r2), pool: self.pool })) by {
            reveal(FrameView::after_alloc);
        }
        assert(self.avail(p)) by {
            reveal(FrameView::avail);
            assert(r.offers(p));
        }
        assert(after.owns(p)) by {
            reveal(FrameView::owns);
            assert(after.regions[i].contains(p));
        }
        assert(after.capacity() == self.capacity() - 1 && self.capacity() > 0) by {
            reveal(FrameView::capacity);
            self.lemma_open_frames_update(0, i, r2);
            self.lemma_some_open(0, i);
        }
        assert forall|q: u64| #[trigger] after.avail(q) <==> self.avail(q) && q != p by {
            reveal(FrameView::next);
            reveal(FrameView::after_alloc);
            self.lemma_avail_update(i, k, q);
        }
        self.lemma_owns_kept(after);
    }

    /// The lowest free frame of the first region that has one.
    proof fn lemma_open_frame(self)
        requires
            self.wf(),
            self.first_open(0) < self.regions.len(),
        ensures
            self.after_alloc().wf(),
            ({
                let i = self.first_open(0);
                let r = self.regions[i];
                let k = least(r.free);
                let p = (r.base + k * FRAME_SIZE) as u64;
                &&& 0 <= i
                &&& r.wf()
                &&& r.free.finite()
                &&& is_least(r.free, k)
                &&& 0 <= k < FRAMES_PER_REGION
                &&& p == r.base + k * FRAME_SIZE
                &&& p % FRAME_SIZE == 0
                &&& p < MAX_REGIONS * REGION_SIZE
                &&& r.offers(p)
                &&& r.free != Set::<int>::empty()
            }),
    {
        let i = self.first_open(0);
        self.lemma_first_open(0);
        let r = self.regions[i];
        let k = least(r.free);
        let r2 = RegionView { base: r.base, free: r.free.remove(k) };
        assert(r.wf());
        lemma_all_frames();
        vstd::set_lib::lemma_len_subset(r.free, all_frames());
        lemma_least(r.free, 0);
        assert(all_frames().contains(k));
        assert(((r.base + k * FRAME_SIZE) - r.base) / (FRAME_SIZE as int) == k);
        let after = FrameView { regions: self.regions.update(i, r2), pool: self.pool };
        assert(self.after_alloc() == after) by {
            reveal(FrameView::after_alloc);
        }
        assert(r2.wf());
        assert forall|j: int| 0 <= j < after.regions.len() implies (#[trigger] after.regions[j]).base
            == self.regions[j].base && after.regions[j].wf() by {
            assert(self.regions[j].wf());
        }
    }

    proof fn lemma_alloc_grow(self)
        requires
            self.wf(),
            self.first_open(0) >= self.regions.len(),
            self.can_grow(),
        ensures
            self.after_alloc().wf(),
            self.capacity() > 0,
            self.next() matches Some(p) && {
                &&& p % FRAME_SIZE == 0
                &&& p < MAX_REGIONS * REGION_SIZE
                &&& self.avail(p)
                &&& self.after_alloc().owns(p)
                &&& self.after_alloc().capacity() == self.capacity() - 1
                &&& forall|q: u64| #[trigger]
                    self.after_alloc().avail(q) <==> self.avail(q) && q != p
                &&& forall|q: u64| #[trigger] self.owns(q) ==> self.after_alloc().owns(q)
            },
    {
        let after = self.after_alloc();
        let n = self.regions.len() as int;
        self.lemma_new_region();
        let k = least(self.pool);
        let r2 = RegionView { base: (k * REGION_SIZE) as u64, free: all_frames().remove(0) };
        let p = (k * REGION_SIZE) as u64;
        assert(self.next() == Some(p)) by {
            reveal(FrameView::next);
        }
        assert(self.avail(p)) by {
            reveal(FrameView::avail);
        }
        assert(after.owns(p)) by {
            reveal(FrameView::owns);
            assert(after.regions[n].contains(p));
        }
        assert(after.capacity() == self.capacity() - 1 && self.capacity() > 0) by {
            reveal(FrameView::capacity);
            lemma_all_frames();
            self.lemma_first_open(0);
            self.lemma_open_frames_none(0);
            self.lemma_open_frames_push(0, r2, self.pool.remove(k));
            if self.pool.len() == 0 {
                assert(self.pool =~= Set::<int>::empty());
            }
        }
        assert forall|q: u64| #[trigger] after.avail(q) <==> self.avail(q) && q != p by {
            reveal(FrameView::next);
            reveal(FrameView::after_alloc);
            self.lemma_first_open(0);
            self.lemma_avail_push(k, q);
        }
        self.lemma_owns_kept(after);
    }

    /// The region that is divided next.
    proof fn lemma_new_region(self)
        requires
            self.wf(),
            self.first_open(0) >= self.regions.len(),
            self.can_grow(),
        ensures
            self.after_alloc().wf(),
            ({
                let k = least(self.pool);
                let p = (k * REGION_SIZE) as u64;
                &&& is_least(self.pool, k)
                &&& 0 <= k < MAX_REGIONS
                &&& p == k * REGION_SIZE
                &&& p % FRAME_SIZE == 0
                &&& p as int / REGION_SIZE as int == k
                &&& self.after_alloc() == (FrameView {
                    regions: self.regions.push(
                        RegionView { base: p, free: all_frames().remove(0) },
                    ),
                    pool: self.pool.remove(k),
                })
            }),
    {
        let n = self.regions.len() as int;
        self.lemma_first_open(0);
        let k = least(self.pool);
        lemma_least(self.pool, 0);
        let p = (k * REGION_SIZE) as u64;
        assert(p == k * REGION_SIZE);
        assert(p as int / REGION_SIZE as int == k);
        let r2 = RegionView { base: p, free: all_frames().remove(0) };
        let after = FrameView { regions: self.regions.push(r2), pool: self.pool.remove(k) };
        assert(self.after_alloc() == after) by {
            reveal(FrameView::after_alloc);
        }
        assert(r2.wf());
        assert forall|j: int| 0 <= j < after.regions.len() implies (
        #[trigger] after.regions[j]).wf() && !after.pool.contains(
            after.regions[j].base as int / REGION_SIZE as int,
        ) by {
            if j < n {
                assert(after.regions[j] == self.regions[j]);
                assert(self.regions[j].wf());
            }
        }
        assert forall|i: int, j: int| 0 <= i < j < after.regions.len() implies (
        #[trigger] after.regions[i]).base != (#[trigger] after.regions[j]).base by {
            assert(after.regions[i] == self.regions[i]);
            if j == n {
                assert(!self.pool.contains(self.regions[i].base as int / REGION_SIZE as int));
            } else {
                assert(after.regions[j] == self.regions[j]);
            }
        }
    }

    proof fn lemma_owns_kept(self, after: FrameView)
        requires
            after.regions.len() >= self.regions.len(),
            forall|i: int|
                0 <= i < self.regions.len() ==> (#[trigger] after.regions[i]).base
                    == self.regions[i].base,
        ensures
            forall|q: u64| #[trigger] self.owns(q) ==> after.owns(q),
    {
        reveal(FrameView::owns);
        assert forall|q: u64| #[trigger] self.owns(q) implies after.owns(q) by {
            let j = choose|j: int|
                0 <= j < self.regions.len() && (#[trigger] self.regions[j]).contains(q);
            assert(after.regions[j].contains(q));
        }
    }

    proof fn lemma_some_open(self, i: int, n: int)
        requires
            self.wf(),
            0 <= i <= n < self.regions.len(),
            self.regions[n].free != Set::<int>::empty(),
        ensures
            self.open_frames(i) >= 1,
        decreases n - i,
    {
        self.lemma_open_frames_bound(i + 1);
        if i < n {
            self.lemma_some_open(i + 1, n);
        } else {
            assert(self.regions[n].wf());
            lemma_all_frames();
            vstd::set_lib::lemma_len_subset(self.regions[n].free, all_frames());
            if self.regions[n].free.len() == 0 {
                assert(self.regions[n].free =~= Set::<int>::empty());
            }
        }
    }

    proof fn lemma_avail_update(self, i: int, k: int, q: u64)
        requires
            self.wf(),
            0 <= i < self.regions.len(),
            self.regions[i].free.contains(k),
        ensures
            ({
                let r = self.regions[i];
                let after = FrameView {
                    regions: self.regions.update(
                        i,
                        RegionView { base: r.base, free: r.free.remove(k) },
                    ),
                    pool: self.pool,
                };
                after.avail(q) <==> self.avail(q) && q != r.base + k * FRAME_SIZE
            }),
    {
        reveal(FrameView::avail);
        let r = self.regions[i];
        let r2 = RegionView { base: r.base, free: r.free.remove(k) };
        let after = FrameView { regions: self.regions.update(i, r2), pool: self.pool };
        let p = r.base + k * FRAME_SIZE;
        assert(r.wf());
        if self.avail(q) && q != p {
            if exists|j: int| 0 <= j < self.regions.len() && (#[trigger] self.regions[j]).offers(q) {
                let j = choose|j: int|
                    0 <= j < self.regions.len() && (#[trigger] self.regions[j]).offers(q);
                assert(after.regions[j].offers(q));
            }
        }
        if after.avail(q) {
            if exists|j: int|
                0 <= j < after.regions.len() && (#[trigger] after.regions[j]).offers(q) {
                let j = choose|j: int|
                    0 <= j < after.regions.len() && (#[trigger] after.regions[j]).offers(q);
                assert(self.regions[j].offers(q));
                assert(self.regions[j].wf());
                if q == p && j != i {
                    assert(self.regions[j].base != self.regions[i].base);
                }
            } else if q == p {
                assert(q as int / REGION_SIZE as int == r.base as int / REGION_SIZE as int);
            }
        }
    }

    proof fn lemma_avail_push(self, k: int, q: u64)
        requires
            self.wf(),
            self.pool.contains(k),
        ensures
            ({
                let after = FrameView {
                    regions: self.regions.push(
                        RegionView { base: (k * REGION_SIZE) as u64, free: all_frames().remove(0) },
                    ),
                    pool: self.pool.remove(k),
                };
                after.avail(q) <==> self.avail(q) && q != k * REGION_SIZE
            }),
    {
        reveal(FrameView::avail);
        let r2 = RegionView { base: (k * REGION_SIZE) as u64, free: all_frames().remove(0) };
        let after = FrameView { regions: self.regions.push(r2), pool: self.pool.remove(k) };
        let n = self.regions.len() as int;
        assert(after.regions[n] == r2);
        if self.avail(q) && q != k * REGION_SIZE {
            if exists|j: int| 0 <= j < n && (#[trigger] self.regions[j]).offers(q) {
                let j = choose|j: int| 0 <= j < n && (#[trigger] self.regions[j]).offers(q);
                assert(after.regions[j].offers(q));
            } else if q as int / REGION_SIZE as int == k {
                assert(r2.offers(q));
            }
        }
        if after.avail(q) {
            if exists|j: int| 0 <= j < n + 1 && (#[trigger] after.regions[j]).offers(q) {
                let j = choose|j: int| 0 <= j < n + 1 && (#[trigger] after.regions[j]).offers(q);
                if j < n {
                    assert(self.regions[j].offers(q));
                    assert(self.regions[j].wf());
                    assert(q as int / REGION_SIZE as int == self.regions[j].base as int
                        / REGION_SIZE as int);
                } else {
                    assert(q as int / REGION_SIZE as int == k);
                }
            }
        }
    }

    /// What giving back a frame does: a frame of a divided region becomes free, no
    /// other frame changes, and one frame more can be allocated if it was taken.
    pub proof fn lemma_free(self, phys: u64)
        requires
            self.wf(),
            phys % FRAME_SIZE == 0,
        ensures
            self.after_free(phys).wf(),
            forall|q: u64| #[trigger]
                self.after_free(phys).avail(q) <==> self.avail(q) || (q == phys && self.owns(phys)),
            forall|q: u64| #[trigger] self.after_free(phys).owns(q) == self.owns(q),
            self.after_free(phys).capacity() == self.capacity() + (if self.owns(phys)
                && !self.avail(phys) {
                1int
            } else {
                0
            }),
    {
        reveal(FrameView::after_free);
        reveal(FrameView::owns);
        reveal(FrameView::avail);
        let after = self.after_free(phys);
        assert forall|i: int| 0 <= i < after.regions.len() implies (
        #[trigger] after.regions[i]).wf() by {
            assert(self.regions[i].wf());
        }
        assert forall|q: u64| #[trigger] after.owns(q) == self.owns(q) by {
            if self.owns(q) {
                let j = choose|j: int|
                    0 <= j < self.regions.len() && (#[trigger] self.regions[j]).contains(q);
                assert(after.regions[j].contains(q));
            }
            if after.owns(q) {
                let j = choose|j: int|
                    0 <= j < after.regions.len() && (#[trigger] after.regions[j]).contains(q);
                assert(self.regions[j].contains(q));
            }
        }
        assert forall|q: u64| #[trigger]
            after.avail(q) <==> self.avail(q) || (q == phys && self.owns(phys)) by {
            self.lemma_free_avail(phys, q);
        }
        self.lemma_free_capacity(phys);
    }

    proof fn lemma_free_avail(self, phys: u64, q: u64)
        requires
            self.wf(),
            phys % FRAME_SIZE == 0,
        ensures
            self.after_free(phys).avail(q) <==> self.avail(q) || (q == phys && self.owns(phys)),
    {
        reveal(FrameView::after_free);
        reveal(FrameView::owns);
        reveal(FrameView::avail);
        let after = self.after_free(phys);
        assert forall|j: int| 0 <= j < self.regions.len() implies (
        #[trigger] after.regions[j]).offers(q) == (self.regions[j].offers(q) || (q == phys
            && self.regions[j].contains(phys))) by {
            assert(self.regions[j].wf());
        }
        if self.avail(q) {
            if exists|j: int| 0 <= j < self.regions.len() && (#[trigger] self.regions[j]).offers(q) {
                let j = choose|j: int|
                    0 <= j < self.regions.len() && (#[trigger] self.regions[j]).offers(q);
                assert(after.regions[j].offers(q));
            }
        }
        if q == phys && self.owns(phys) {
            let j = choose|j: int|
                0 <= j < self.regions.len() && (#[trigger] self.regions[j]).contains(phys);
            assert(after.regions[j].offers(q));
        }
        if exists|j: int| 0 <= j < after.regions.len() && (#[trigger] after.regions[j]).offers(q) {
            let j = choose|j: int|
                0 <= j < after.regions.len() && (#[trigger] after.regions[j]).offers(q);
            if self.regions[j].offers(q) {
            } else {
                assert(self.regions[j].contains(phys));
            }
        }
    }

    proof fn lemma_free_capacity(self, phys: u64)
        requires
            self.wf(),
            phys % FRAME_SIZE == 0,
        ensures
            self.after_free(phys).capacity() == self.capacity() + (if self.owns(phys)
                && !self.avail(phys) {
                1int
            } else {
                0
            }),
    {
        reveal(FrameView::after_free);
        reveal(FrameView::owns);
        reveal(FrameView::avail);
        reveal(FrameView::capacity);
        let after = self.after_free(phys);
        if self.owns(phys) {
            let j = choose|j: int|
                0 <= j < self.regions.len() && (#[trigger] self.regions[j]).contains(phys);
            let r = self.regions[j];
            assert(r.wf());
            let k = (phys - r.base) / FRAME_SIZE as int;
            let r2 = RegionView { base: r.base, free: r.free.insert(k) };
            self.lemma_owner(phys, j);
            assert(after.regions =~= self.regions.update(j, r2));
            self.lemma_open_frames_update(0, j, r2);
            lemma_all_frames();
            vstd::set_lib::lemma_len_subset(r.free, all_frames());
            if self.avail(phys) {
                if exists|i: int|
                    0 <= i < self.regions.len() && (#[trigger] self.regions[i]).offers(phys) {
                    let i = choose|i: int|
                        0 <= i < self.regions.len() && (#[trigger] self.regions[i]).offers(phys);
                    assert(self.regions[i].contains(phys));
                    assert(i == j);
                }
                assert(phys as int / REGION_SIZE as int == r.base as int / REGION_SIZE as int);
                assert(r.free.insert(k) =~= r.free);
            } else {
                assert(!self.regions[j].offers(phys));
            }
        } else {
            assert forall|i: int| 0 <= i < self.regions.len() implies after.regions[i]
                == self.regions[i] by {
                assert(!self.regions[i].contains(phys));
            }
            assert(after.regions =~= self.regions);
        }
    }

    proof fn lemma_owner(self, phys: u64, j: int)
        requires
            self.wf(),
            0 <= j < self.regions.len(),
            self.regions[j].contains(phys),
        ensures
            forall|i: int|
                0 <= i < self.regions.len() && (#[trigger] self.regions[i]).contains(phys) ==> i
                    == j,
    {
        assert forall|i: int|
            0 <= i < self.regions.len() && (#[trigger] self.regions[i]).contains(phys) implies i
            == j by {
            assert(self.regions[i].wf() && self.regions[j].wf());
            assert(phys as int / REGION_SIZE as int == self.regions[i].base as int
                / REGION_SIZE as int);
            assert(phys as int / REGION_SIZE as int == self.regions[j].base as int
                / REGION_SIZE as int);
        }
    }

    /// Frames of divided regions lie below one tebibyte.
    pub proof fn lemma_owns_bound(self, phys: u64)
        requires
            self.wf(),
            self.owns(phys),
        ensures
            phys < MAX_REGIONS * REGION_SIZE,
    {
        reveal(FrameView::owns);
        let i = choose|i: int|
            0 <= i < self.regions.len() && (#[trigger] self.regions[i]).contains(phys);
        assert(self.regions[i].wf());
    }

    /// Free frames are aligned.
    pub proof fn lemma_avail_aligned(self, phys: u64)
        requires
            self.avail(phys),
        ensures
            phys % FRAME_SIZE == 0,
    {
        reveal(FrameView::avail);
    }

    /// Every free frame lies inside a memory that holds all regions.
    pub proof fn lemma_within(self, m: Seq<u64>, phys: u64)
        requires
            self.wf(),
            self.within(m.len()),
            phys % FRAME_SIZE == 0,
            self.avail(phys) || self.owns(phys),
        ensures
            frame_ok(m, phys),
    {
        reveal(FrameView::owns);
        reveal(FrameView::avail);
        reveal(FrameView::within);
        if self.pool.contains(phys as int / REGION_SIZE as int) {
            lemma_frame_in_region(
                (phys as int / REGION_SIZE as int) * REGION_SIZE,
                phys as int,
                m.len() as int,
            );
        } else {
            assert(self.owns(phys)) by {
                if !self.owns(phys) {
                    let i = choose|i: int|
                        0 <= i < self.regions.len() && (#[trigger] self.regions[i]).offers(phys);
                    assert(self.regions[i].contains(phys));
                }
            }
            let i = choose|i: int|
                0 <= i < self.regions.len() && (#[trigger] self.regions[i]).contains(phys);
            assert(self.regions[i].wf());
            lemma_frame_in_region(self.regions[i].base as int, phys as int, m.len() as int);
        }
    }

    /// Allocating and freeing keep all regions inside the memory.
    pub proof fn lemma_within_kept(self, words: nat, phys: u64)
        requires
            self.wf(),
            self.within(words),
        ensures
            self.after_alloc().within(words),
            self.after_free(phys).within(words),
    {
        reveal(FrameView::after_alloc);
        reveal(FrameView::after_free);
        reveal(FrameView::within);
        self.lemma_first_open(0);
        let after = self.after_alloc();
        if self.first_open(0) >= self.regions.len() && self.can_grow() {
            let k = least(self.pool);
            lemma_least(self.pool, 0);
            assert(self.pool.contains(k));
            assert(after.regions[self.regions.len() as int].base == k * REGION_SIZE);
        }
        assert forall|i: int| 0 <= i < after.regions.len() implies (
        #[trigger] after.regions[i]).base + REGION_SIZE <= 8 * words by {
            if i < self.regions.len() {
                assert(after.regions[i].base == self.regions[i].base);
            }
        }
        assert forall|i: int| 0 <= i < self.regions.len() implies (#[trigger] self.after_free(
            phys,
        ).regions[i]).base + REGION_SIZE <= 8 * words by {
            assert(self.after_free(phys).regions[i].base == self.regions[i].base);
        }
    }
}

/// Bitmap of the 512 frames of a single 2 MiB region.
pub struct SubRegion {
    /// Physical base address of the region.
    base_phys: u64,
    /// A set bit marks a free frame.
    bitmap: [u64; BITMAP_WORDS],
}

impl View for SubRegion {
    type V = RegionView;

    closed spec fn view(&self) -> RegionView {
        RegionView {
            base: self.base_phys,
            free: Set::new(
                |k: int| 0 <= k < FRAMES_PER_REGION && bit(self.bitmap@[k / 64], k % 64),
            ),
        }
    }
}

impl SubRegion {
    /// A sub-region with all frames free.
    pub fn new(base_phys: u64) -> (r: SubRegion)
        ensures
            r@.base == base_phys,
            r@.free == all_frames(),
    {
        let r = SubRegion { base_phys, bitmap: [!0u64;BITMAP_WORDS] };
        proof {
            lemma_constant_words();
            assert(r@.free =~= all_frames());
        }
        r
    }

    /// Every free frame is one of the region's frames.
    pub proof fn lemma_shape(&self)
        ensures
            self@.free.subset_of(all_frames()),
    {
    }

    /// Allocate the lowest free frame. The result is its physical address.
    pub fn take(&mut self) -> (r: Option<u64>)
        requires
            old(self)@.base + REGION_SIZE <= u64::MAX,
        ensures
            r == old(self)@.head(),
            final(self)@ == old(self)@.after_take(),
            r is Some ==> is_least(old(self)@.free, least(old(self)@.free)),
    {
        let mut w: usize = 0;
        while w < BITMAP_WORDS
            invariant
                w <= BITMAP_WORDS,
                *self == *old(self),
                self@.base + REGION_SIZE <= u64::MAX,
                forall|k: int| 0 <= k < 64 * w ==> !#[trigger] self@.free.contains(k),
            decreases BITMAP_WORDS - w,
        {
            let word: u64 = self.bitmap[w];
            if word != 0 {
                proof {
                    lemma_lowest_bit(word);
                }
                let b: u64 = word.trailing_zeros() as u64;
                proof {
                    lemma_clear_bit(word, b);
                }
                self.bitmap[w] = word & !(1u64 << b);
                let index: u64 = (w as u64) * 64 + b;
                proof {
                    let free = old(self)@.free;
                    assert(index as int / 64 == w && index as int % 64 == b);
                    assert(free.contains(index as int));
                    assert forall|j: int| #[trigger] free.contains(j) implies index <= j by {
                        assert(j == 64 * (j / 64) + j % 64);
                        if 64 * w <= j < index {
                            assert(j / 64 == w);
                        }
                    }
                    assert(is_least(free, index as int));
                    assert(least(free) == index);
                    assert(self@.free =~= free.remove(index as int)) by {
                        assert forall|i: int| 0 <= i < FRAMES_PER_REGION implies self@.free.contains(i)
                            == (i != index && free.contains(i)) by {
                            assert(0 <= i / 64 < BITMAP_WORDS);
                            assert(i == 64 * (i / 64) + i % 64);
                        }
                    }
                    assert(free.contains(index as int) ==> free != Set::<int>::empty());
                }
                return Some(self.base_phys + index * FRAME_SIZE);
            }
            proof {
                lemma_constant_words();
                assert forall|k: int| 0 <= k < 64 * (w + 1) implies !#[trigger] self@.free.contains(
                    k,
                ) by {
                    if k >= 64 * w {
                        assert(k / 64 == w);
                    }
                }
            }
            w += 1;
        }
        assert(self@.free =~= Set::<int>::empty());
        None
    }

    /// Whether this sub-region contains the given physical address.
    pub fn contains(&self, phys: u64) -> (r: bool)
        requires
            self@.base + REGION_SIZE <= u64::MAX,
        ensures
            r == self@.contains(phys),
    {
        phys >= self.base_phys && phys < self.base_phys + REGION_SIZE
    }

    /// Free a frame by physical address. Returns true if this sub-region owns it.
    pub fn free(&mut self, phys: u64) -> (r: bool)
        requires
            old(self)@.base + REGION_SIZE <= u64::MAX,
        ensures
            r == old(self)@.contains(phys),
            final(self)@ == old(self)@.after_put(phys),
    {
        if !self.contains(phys) {
            return false;
        }
        let index: u64 = (phys - self.base_phys) / FRAME_SIZE;
        let w: usize = (index / 64) as usize;
        let b: u64 = index % 64;
        proof {
            lemma_set_bit(self.bitmap@[w as int], b);
        }
        self.bitmap[w] = self.bitmap[w] | (1u64 << b);
        assert(self@.free =~= old(self)@.free.insert(index as int)) by {
            assert forall|i: int| 0 <= i < FRAMES_PER_REGION implies self@.free.contains(i) == (i
                == index || old(self)@.free.contains(i)) by {
                assert(0 <= i / 64 < BITMAP_WORDS);
                assert(i == 64 * (i / 64) + i % 64);
            }
        }
        true
    }
}

impl SubRegion {
    /// Number of free frames.
    fn count(&self) -> (n: u64)
        ensures
            self@.free.finite(),
            n == self@.free.len(),
            n <= FRAMES_PER_REGION,
    {
        let mut count: u64 = 0;
        let mut i: usize = 0;
        let ghost below = |n: int| Set::new(|k: int| 0 <= k < n && self@.free.contains(k));
        assert(below(0) =~= Set::<int>::empty());
        while i < FRAMES_PER_REGION
            invariant
                i <= FRAMES_PER_REGION,
                count <= i,
                below == (|n: int| Set::new(|k: int| 0 <= k < n && self@.free.contains(k))),
                below(i as int).finite(),
                count == below(i as int).len(),
            decreases FRAMES_PER_REGION - i,
        {
            proof {
                if self@.free.contains(i as int) {
                    assert(below(i + 1) =~= below(i as int).insert(i as int));
                } else {
                    assert(below(i + 1) =~= below(i as int));
                }
            }
            if (self.bitmap[i / 64] >> ((i % 64) as u64)) & 1 == 1 {
                count += 1;
            }
            i += 1;
        }
        assert(below(FRAMES_PER_REGION as int) =~= self@.free);
        count
    }
}

/// The frame allocator: the regions divided so far, and where new ones come from.
pub struct FrameAllocator {
    regions: Vec<SubRegion>,
    pmm: Pmm,
}

impl View for FrameAllocator {
    type V = FrameView;

    closed spec fn view(&self) -> FrameView {
        FrameView {
            regions: Seq::new(self.regions@.len(), |i: int| self.regions@[i]@),
            pool: self.pmm.free(),
        }
    }
}

impl FrameAllocator {
    pub closed spec fn wf(&self) -> bool {
        self.pmm.wf() && self@.wf()
    }

    pub proof fn lemma_wf(&self)
        requires
            self.wf(),
        ensures
            self@.wf(),
    {
    }
}

/// Initialize the frame allocator. Regions are divided as they are needed.
pub fn init(pmm: Pmm) -> (fa: FrameAllocator)
    requires
        pmm.wf(),
        pmm.free().finite(),
    ensures
        fa.wf(),
        fa@ == (FrameView { regions: Seq::empty(), pool: pmm.free() }),
{
    proof {
        pmm.lemma_free_range();
    }
    let fa = FrameAllocator { regions: Vec::new(), pmm };
    assert(fa@.regions =~= Seq::empty());
    fa
}

/// Allocate a single frame: the lowest of the first sub-region that has one, or the
/// first frame of a new region. The result is its physical address.
pub fn alloc_frame(fa: &mut FrameAllocator) -> (r: Option<u64>)
    requires
        old(fa).wf(),
    ensures
        final(fa).wf(),
        r == old(fa)@.next(),
        final(fa)@ == old(fa)@.after_alloc(),
{
    proof {
        reveal(FrameView::next);
        reveal(FrameView::after_alloc);
    }
    let ghost before = fa@;
    proof {
        before.lemma_alloc();
    }
    let mut i: usize = 0;
    while i < fa.regions.len()
        invariant
            i <= fa.regions@.len(),
            fa@ == before,
            before == old(fa)@,
            fa.wf(),
            before.after_alloc().wf(),
            before.regions.len() == fa.regions@.len(),
            forall|j: int| 0 <= j < i ==> (#[trigger] before.regions[j]).free == Set::<int>::empty(),
        decreases fa.regions@.len() - i,
    {
        assert(before.regions[i as int] == fa.regions@[i as int]@);
        assert(before.regions[i as int].wf());
        if let Some(phys) = fa.regions[i].take() {
            proof {
                reveal(FrameView::next);
                reveal(FrameView::after_alloc);
                before.lemma_first_open_is(0, i as int);
                assert(fa@.regions =~= before.after_alloc().regions) by {
                    assert(fa@.regions[i as int] =~= before.after_alloc().regions[i as int]);
                }
                assert(least(before.regions[i as int].free) < FRAMES_PER_REGION);
            }
            return Some(phys);
        }
        proof {
            assert(fa@.regions =~= before.regions);
        }
        i += 1;
    }
    proof {
        before.lemma_first_open_is(0, i as int);
    }
    if fa.regions.len() >= MAX_SUB_REGIONS {
        return None;
    }
    match alloc_region(&mut fa.pmm) {
        None => {
            assert(fa@ =~= before);
            None
        },
        Some(region_phys) => {
            let mut sr = SubRegion::new(region_phys);
            let ghost k = region_phys as int / REGION_SIZE as int;
            proof {
                assert(is_least(before.pool, k));
                assert(least(before.pool) == k);
                lemma_all_frames();
                assert(least(all_frames()) == 0);
                assert(0 <= k < MAX_REGIONS);
                assert(all_frames().contains(0));
                assert(sr@.wf());
            }
            let r = sr.take();
            fa.regions.push(sr);
            assert(fa@.regions =~= before.after_alloc().regions) by {
                assert(fa@.regions[i as int] =~= before.after_alloc().regions[i as int]);
            }
            r
        },
    }
}

/// Whether `n` frames can be allocated.
pub fn has_frames(fa: &FrameAllocator, n: u64) -> (r: bool)
    requires
        fa.wf(),
    ensures
        r == (fa@.capacity() >= n),
{
    proof {
        reveal(FrameView::capacity);
    }
    let mut total: u64 = 0;
    let mut i: usize = 0;
    proof {
        assert(fa@.open_frames(0) - fa@.open_frames(0) == 0);
        fa@.lemma_open_frames_bound(0);
    }
    while i < fa.regions.len()
        invariant
            i <= fa.regions@.len(),
            fa.wf(),
            total <= 512 * i,
            fa@.open_frames(0) == total + fa@.open_frames(i as int),
            fa@.regions.len() == fa.regions@.len(),
        decreases fa.regions@.len() - i,
    {
        assert(fa@.regions[i as int] == fa.regions@[i as int]@);
        let k: u64 = fa.regions[i].count();
        total += k;
        i += 1;
        proof {
            reveal(FrameView::capacity);
            fa@.lemma_open_frames_bound(i as int);
        }
        if total >= n {
            return true;
        }
    }
    let room: u64 = (MAX_SUB_REGIONS - fa.regions.len()) as u64;
    let growth: u64 = fa.pmm.count_free(room);
    total + 512 * growth >= n
}

/// Allocate a frame and zero it. The result is its physical address.
pub fn alloc_frame_zeroed(fa: &mut FrameAllocator, mem: &mut Memory) -> (r: Option<u64>)
    requires
        old(fa).wf(),
        old(fa)@.within(old(mem)@.len()),
    ensures
        final(fa).wf(),
        final(fa)@.within(final(mem)@.len()),
        r == old(fa)@.next(),
        final(fa)@ == old(fa)@.after_alloc(),
        final(mem)@ == (match r {
            Some(p) => zeroed(old(mem)@, p),
            None => old(mem)@,
        }),
        r matches Some(p) ==> frame_ok(old(mem)@, p),
{
    let r = alloc_frame(fa);
    proof {
        old(fa)@.lemma_alloc();
        old(fa)@.lemma_within_kept(mem@.len(), 0);
    }
    match r {
        None => None,
        Some(phys) => {
            proof {
                old(fa)@.lemma_within(mem@, phys);
            }
            mem.zero_frame(phys);
            Some(phys)
        },
    }
}

/// Free a previously allocated frame. Addresses outside the divided regions are ignored.
pub fn free_frame(fa: &mut FrameAllocator, phys: u64)
    requires
        old(fa).wf(),
    ensures
        final(fa).wf(),
        final(fa)@ == old(fa)@.after_free(phys),
{
    proof {
        reveal(FrameView::after_free);
    }
    let ghost before = fa@;
    let mut i: usize = 0;
    while i < fa.regions.len()
        invariant
            i <= fa.regions@.len(),
            fa@ == before,
            before == old(fa)@,
            fa.wf(),
            before.regions.len() == fa.regions@.len(),
            forall|j: int| 0 <= j < i ==> !(#[trigger] before.regions[j]).contains(phys),
        decreases fa.regions@.len() - i,
    {
        assert(before.regions[i as int] == fa.regions@[i as int]@);
        assert(before.regions[i as int].wf());
        if fa.regions[i].free(phys) {
            proof {
                reveal(FrameView::after_free);
                before.lemma_owner(phys, i as int);
                assert(fa@.regions =~= before.after_free(phys).regions) by {
                    assert(fa@.regions[i as int] =~= before.after_free(phys).regions[i as int]);
                }
                lemma_after_free_wf(before, phys);
            }
            return;
        }
        proof {
            assert(fa@.regions =~= before.regions);
        }
        i += 1;
    }
    assert(fa@.regions =~= before.after_free(phys).regions);
}

proof fn lemma_after_free_wf(v: FrameView, phys: u64)
    requires
        v.wf(),
    ensures
        v.after_free(phys).wf(),
{
    reveal(FrameView::after_free);
    let after = v.after_free(phys);
    assert forall|i: int| 0 <= i < after.regions.len() implies (
    #[trigger] after.regions[i]).wf() by {
        assert(v.regions[i].wf());
    }
}

// ---------------------------------------------------------------------------
// Laws
// ---------------------------------------------------------------------------

/// A new region hands out its 512 frames in the order of their addresses, and then none.
pub proof fn law_region_in_order(base: u64, n: int)
    requires
        base + REGION_SIZE <= u64::MAX,
        0 <= n <= FRAMES_PER_REGION,
    ensures
        ({
            let r = (RegionView { base, free: all_frames() }).taken(n);
            &&& r.base == base
            &&& forall|k: int| #[trigger] r.free.contains(k) <==> n <= k < FRAMES_PER_REGION
            &&& r.head() == (if n < FRAMES_PER_REGION {
                Some((base + n * FRAME_SIZE) as u64)
            } else {
                None
            })
        }),
    decreases n,
{
    let new = RegionView { base, free: all_frames() };
    let r = new.taken(n);
    if n > 0 {
        law_region_in_order(base, n - 1);
        let before = new.taken(n - 1);
        assert(before.free.contains(n - 1));
        assert(is_least(before.free, n - 1));
        lemma_least(before.free, 0);
        assert(least(before.free) == n - 1);
    }
    if n < FRAMES_PER_REGION {
        assert(r.free.contains(n));
        assert(is_least(r.free, n));
        lemma_least(r.free, 0);
        assert(least(r.free) == n);
    } else {
        assert(r.free =~= Set::<int>::empty());
    }
}

/// Giving back the frame that was just handed out leaves the region as it was before.
pub proof fn law_take_then_put(r: RegionView)
    requires
        r.base + REGION_SIZE <= u64::MAX,
        r.free.subset_of(all_frames()),
        r.head() is Some,
    ensures
        r.contains(r.head()->0),
        r.after_take().after_put(r.head()->0) == r,
{
    lemma_least(r.free, 0);
    let k = least(r.free);
    assert(all_frames().contains(k));
    assert(((r.base + k * FRAME_SIZE) - r.base) / (FRAME_SIZE as int) == k);
    assert(r.free.remove(k).insert(k) =~= r.free);
}

/// Frames are handed out from the first region that has a free one, the one with the lowest
/// address there, and where no region has, from the lowest region that can be divided.
pub proof fn law_lowest_first(v: FrameView, i: int)
    requires
        v.wf(),
        0 <= i <= v.regions.len(),
        forall|j: int|
            0 <= j < i ==> forall|k: int| !(#[trigger] v.regions[j]).free.contains(k),
        i < v.regions.len() ==> exists|k: int| v.regions[i].free.contains(k),
    ensures
        i < v.regions.len() ==> (v.next() matches Some(p) && v.regions[i].offers(p) && forall|q: u64|
            #[trigger] v.regions[i].offers(q) ==> p <= q),
        i == v.regions.len() && v.regions.len() < MAX_SUB_REGIONS ==> ((v.next() is None <==> forall|
            k: int,
        |
            !v.pool.contains(k)) && (v.next() matches Some(p) ==> v.pool.contains(
            p as int / 0x20_0000,
        ) && p % 0x20_0000 == 0 && forall|k: int|
            #[trigger] v.pool.contains(k) ==> p <= k * 0x20_0000)),
{
    reveal(FrameView::next);
    assert forall|j: int| 0 <= j < i implies (#[trigger] v.regions[j]).free == Set::<
        int,
    >::empty() by {
        assert(v.regions[j].free =~= Set::<int>::empty());
    }
    if i < v.regions.len() {
        let r = v.regions[i];
        assert(r.free != Set::<int>::empty());
        v.lemma_first_open_is(0, i);
        assert(r.wf());
        lemma_least(r.free, 0);
        let k = least(r.free);
        assert(all_frames().contains(k));
        let p = (r.base + k * FRAME_SIZE) as u64;
        assert(p == r.base + k * 4096);
        assert((p - r.base) / 4096 == k);
        assert(r.base % 4096 == 0);
        assert forall|q: u64| #[trigger] r.offers(q) implies p <= q by {
            let l = (q - r.base) / FRAME_SIZE as int;
            assert(r.free.contains(l));
            assert(k <= l);
        }
    } else if v.regions.len() < MAX_SUB_REGIONS {
        v.lemma_first_open_is(0, i);
        if v.pool == Set::<int>::empty() {
        } else {
            lemma_least(v.pool, 0);
            let k = least(v.pool);
            assert(v.pool.contains(k));
        }
        if forall|k: int| !v.pool.contains(k) {
            assert(v.pool =~= Set::<int>::empty());
        }
    }
}

/// No more than 64 regions are divided: where so many are and none has a free frame, there is
/// none to hand out.
pub proof fn law_region_limit(v: FrameView)
    requires
        v.wf(),
        forall|j: int|
            0 <= j < v.regions.len() ==> forall|k: int|
                !(#[trigger] v.regions[j]).free.contains(k),
    ensures
        v.regions.len() >= 64 ==> v.next() is None,
        v.regions.len() < 64 ==> (v.next() is None <==> forall|k: int| !v.pool.contains(k)),
{
    law_lowest_first(v, v.regions.len() as int);
    reveal(FrameView::next);
    assert forall|j: int| 0 <= j < v.regions.len() implies (#[trigger] v.regions[j]).free == Set::<
        int,
    >::empty() by {
        assert(v.regions[j].free =~= Set::<int>::empty());
    }
    v.lemma_first_open_is(0, v.regions.len() as int);
}

} // verus!
