//! Physical memory manager: a bitmap allocator for 2 MiB regions.
//!
//! Each bit stands for one 2 MiB region of physical memory. Memory up to 1 TiB
//! is tracked.

use vstd::prelude::*;

use crate::bits::{bit, lemma_clear_bit, lemma_constant_words, lemma_lowest_bit, lemma_set_bit};
use crate::bits::{spec_align_down, spec_align_up};
use crate::shared::{BootInfo, MemoryRegionDescriptor, MemoryRegionType};

verus! {

/// Size of each allocatable region: 2 MiB.
pub const REGION_SIZE: u64 = 0x20_0000;

/// Number of regions that are tracked: 1 TiB / 2 MiB.
pub const MAX_REGIONS: usize = 0x8_0000;

/// Number of words in the bitmap.
const BITMAP_WORDS: usize = 0x2000;

/// Where the memory that is handed out starts. Below lie the supervisor, its boot stack and
/// its boot page tables.
pub const MANAGED_START: u64 = 0x80_0000;

/// The set of free 2 MiB regions.
pub struct Pmm {
    /// A set bit marks a free region, a clear one an allocated or reserved region.
    bitmap: Vec<u64>,
}

/// What the memory map amounted to, as reported at boot.
#[derive(Debug, Clone, Copy, PartialEq, Eq, Structural)]
pub struct PmmSummary {
    /// Bytes of RAM in the map, usable or reserved.
    pub total_bytes: u64,
    /// The same in whole regions.
    pub total_regions: u64,
    /// Bytes of RAM that are kept out of use.
    pub reserved_bytes: u64,
    /// Number of regions that can be allocated.
    pub free_regions: u64,
    /// Size of the supervisor, rounded up to whole regions.
    pub supervisor_bytes: u64,
}

spec fn marked(bitmap: Seq<u64>, i: int) -> bool {
    bit(bitmap[i / 64], i % 64)
}

spec fn marked_below(bitmap: Seq<u64>, n: int) -> Set<int> {
    Set::new(|i: int| 0 <= i < n && marked(bitmap, i))
}

/// Whether the region type is RAM that may be handed out.
pub open spec fn is_usable(t: MemoryRegionType) -> bool {
    t == MemoryRegionType::Usable || t == MemoryRegionType::BootloaderReclaimable
}

/// Whether the region type is RAM that is kept out of use.
pub open spec fn is_reserved_ram(t: MemoryRegionType) -> bool {
    ||| t == MemoryRegionType::SupervisorCode
    ||| t == MemoryRegionType::AcpiReclaimable
    ||| t == MemoryRegionType::AcpiNvs
}

/// Whether the whole region number `i` lies inside a usable entry of the map.
pub open spec fn usable_chunk(map: Seq<MemoryRegionDescriptor>, i: int) -> bool {
    exists|k: int|
        0 <= k < map.len() && is_usable((#[trigger] map[k]).region_type) && chunk_inside(map[k], i)
}

/// Whether the whole region number `i` lies inside the entry `r`.
pub open spec fn chunk_inside(r: MemoryRegionDescriptor, i: int) -> bool {
    r.phys_start <= i * REGION_SIZE && (i + 1) * REGION_SIZE <= r.phys_start + r.size
}

/// Whether region number `i` holds part of the supervisor image.
pub open spec fn supervisor_chunk(info: BootInfo, i: int) -> bool {
    spec_align_down(info.supervisor_phys_base as int, REGION_SIZE as int) <= i * REGION_SIZE
        < spec_align_up(
        info.supervisor_phys_base + info.supervisor_size,
        REGION_SIZE as int,
    )
}

/// The regions that can be handed out: each whole region inside a usable entry from
/// [`MANAGED_START`] on, save those that hold the supervisor.
pub open spec fn managed_chunks(info: BootInfo, map: Seq<MemoryRegionDescriptor>) -> Set<int> {
    Set::new(
        |i: int|
            MANAGED_START <= i * REGION_SIZE && i < MAX_REGIONS && usable_chunk(map, i)
                && !supervisor_chunk(info, i),
    )
}

/// Sum of the sizes of the first `n` entries whose type satisfies `p`.
pub open spec fn sum_sizes(
    map: Seq<MemoryRegionDescriptor>,
    n: int,
    p: spec_fn(MemoryRegionType) -> bool,
) -> int
    decreases n,
{
    if n <= 0 {
        0
    } else {
        sum_sizes(map, n - 1, p) + (if p(map[n - 1].region_type) {
            map[n - 1].size as int
        } else {
            0
        })
    }
}

/// Bytes of usable RAM in the map.
pub open spec fn usable_bytes(map: Seq<MemoryRegionDescriptor>) -> int {
    sum_sizes(map, map.len() as int, |t: MemoryRegionType| is_usable(t))
}

/// Bytes of reserved RAM in the map.
pub open spec fn reserved_bytes(map: Seq<MemoryRegionDescriptor>) -> int {
    sum_sizes(map, map.len() as int, |t: MemoryRegionType| is_reserved_ram(t))
}

impl PmmSummary {
    /// Whether these are the numbers for a memory map and the supervisor loaded into it.
    pub open spec fn sums_up(&self, info: BootInfo, map: Seq<MemoryRegionDescriptor>) -> bool {
        &&& self.total_bytes == usable_bytes(map) + reserved_bytes(map)
        &&& self.total_regions == self.total_bytes / REGION_SIZE
        &&& self.reserved_bytes == reserved_bytes(map)
        &&& self.free_regions == managed_chunks(info, map).len()
        &&& self.supervisor_bytes == spec_align_up(info.supervisor_size as int, REGION_SIZE as int)
    }
}

/// Whether every address and every sum that the map gives rise to is a 64-bit number.
pub open spec fn map_fits(info: BootInfo, map: Seq<MemoryRegionDescriptor>) -> bool {
    &&& forall|k: int|
        0 <= k < map.len() && is_usable((#[trigger] map[k]).region_type) ==> map[k].phys_start
            + map[k].size <= u64::MAX && map[k].phys_start + REGION_SIZE - 1 <= u64::MAX
    &&& info.supervisor_phys_base + info.supervisor_size + REGION_SIZE - 1 <= u64::MAX
    &&& usable_bytes(map) + reserved_bytes(map) <= u64::MAX
}

proof fn lemma_sum_monotone(
    map: Seq<MemoryRegionDescriptor>,
    n: int,
    m: int,
    p: spec_fn(MemoryRegionType) -> bool,
)
    requires
        n <= m <= map.len(),
    ensures
        0 <= sum_sizes(map, n, p) <= sum_sizes(map, m, p),
    decreases m,
{
    if m > 0 && n < m {
        lemma_sum_monotone(map, n, m - 1, p);
    } else if m > 0 {
        lemma_sum_monotone(map, n - 1, m - 1, p);
    }
}

/// `addr` rounded up to a multiple of `align`.
pub fn align_up(addr: u64, align: u64) -> (r: u64)
    requires
        align > 0,
        addr + align - 1 <= u64::MAX,
    ensures
        r == spec_align_up(addr as int, align as int),
        r as int % align as int == 0,
        addr <= r < addr + align,
{
    let top: u64 = addr + (align - 1);
    proof {
        vstd::arithmetic::div_mod::lemma_fundamental_div_mod(top as int, align as int);
        vstd::arithmetic::div_mod::lemma_mod_multiples_basic(
            top as int / align as int,
            align as int,
        );
        assert(align as int * (top as int / align as int) == (top as int / align as int)
            * align as int) by (nonlinear_arith);
    }
    top - top % align
}

/// `addr` rounded down to a multiple of `align`.
pub fn align_down(addr: u64, align: u64) -> (r: u64)
    requires
        align > 0,
    ensures
        r == spec_align_down(addr as int, align as int),
        r as int % align as int == 0,
        r <= addr < r + align,
{
    proof {
        vstd::arithmetic::div_mod::lemma_fundamental_div_mod(addr as int, align as int);
        vstd::arithmetic::div_mod::lemma_mod_multiples_basic(
            addr as int / align as int,
            align as int,
        );
        assert(align as int * (addr as int / align as int) == (addr as int / align as int)
            * align as int) by (nonlinear_arith);
    }
    addr - addr % align
}

impl Pmm {
    pub closed spec fn wf(&self) -> bool {
        self.bitmap@.len() == BITMAP_WORDS
    }

    /// The numbers of the free regions.
    pub closed spec fn free(&self) -> Set<int> {
        marked_below(self.bitmap@, MAX_REGIONS as int)
    }

    /// Every free region is one of the tracked ones.
    pub proof fn lemma_free_range(&self)
        ensures
            forall|i: int| #[trigger] self.free().contains(i) ==> 0 <= i < MAX_REGIONS,
    {
    }

    /// A bitmap with no free region.
    pub fn empty() -> (p: Pmm)
        ensures
            p.wf(),
            p.free() == Set::<int>::empty(),
    {
        let bitmap = vec![0u64; BITMAP_WORDS];
        proof {
            lemma_constant_words();
            assert(marked_below(bitmap@, MAX_REGIONS as int) =~= Set::<int>::empty());
        }
        Pmm { bitmap }
    }

    /// Mark the region that holds `phys_addr` as free.
    fn mark_free(&mut self, phys_addr: u64)
        requires
            old(self).wf(),
        ensures
            final(self).wf(),
            final(self).free() == (if (phys_addr / REGION_SIZE) < MAX_REGIONS {
                old(self).free().insert(phys_addr as int / REGION_SIZE as int)
            } else {
                old(self).free()
            }),
    {
        let index: u64 = phys_addr / REGION_SIZE;
        if index < MAX_REGIONS as u64 {
            let word: usize = (index / 64) as usize;
            let b: u64 = index % 64;
            proof {
                lemma_set_bit(self.bitmap@[word as int], b);
            }
            self.bitmap[word] = self.bitmap[word] | (1u64 << b);
            assert(self.free() =~= old(self).free().insert(index as int)) by {
                assert forall|i: int| 0 <= i < MAX_REGIONS implies marked(self.bitmap@, i) == (i
                    == index || marked(old(self).bitmap@, i)) by {
                    assert(0 <= i / 64 < BITMAP_WORDS);
                    assert(i == 64 * (i / 64) + i % 64);
                }
            }
        }
    }

    /// Mark the region that holds `phys_addr` as allocated.
    fn mark_allocated(&mut self, phys_addr: u64)
        requires
            old(self).wf(),
        ensures
            final(self).wf(),
            final(self).free() == old(self).free().remove(phys_addr as int / REGION_SIZE as int),
    {
        let index: u64 = phys_addr / REGION_SIZE;
        if index < MAX_REGIONS as u64 {
            let word: usize = (index / 64) as usize;
            let b: u64 = index % 64;
            proof {
                lemma_clear_bit(self.bitmap@[word as int], b);
            }
            self.bitmap[word] = self.bitmap[word] & !(1u64 << b);
            assert(self.free() =~= old(self).free().remove(index as int)) by {
                assert forall|i: int| 0 <= i < MAX_REGIONS implies marked(self.bitmap@, i) == (i
                    != index && marked(old(self).bitmap@, i)) by {
                    assert(0 <= i / 64 < BITMAP_WORDS);
                    assert(i == 64 * (i / 64) + i % 64);
                }
            }
        } else {
            assert(self.free() =~= old(self).free().remove(index as int));
        }
    }

    /// Mark all regions from number `limit` on as allocated.
    pub fn keep_below(&mut self, limit: usize)
        requires
            old(self).wf(),
        ensures
            final(self).wf(),
            final(self).free() == old(self).free().filter(|k: int| k < limit),
    {
        let ghost before = self.free();
        let mut i: usize = limit;
        while i < MAX_REGIONS
            invariant
                limit <= i,
                self.wf(),
                before == old(self).free(),
                self.free() == before.filter(|k: int| k < limit || k >= i),
            decreases MAX_REGIONS - i,
        {
            self.mark_allocated(i as u64 * REGION_SIZE);
            assert(self.free() =~= before.filter(|k: int| k < limit || k >= i + 1));
            i += 1;
        }
        proof {
            old(self).lemma_free_range();
            assert(self.free() =~= before.filter(|k: int| k < limit));
        }
    }

    /// Number of free regions, counted no further than `limit`.
    pub fn count_free(&self, limit: u64) -> (n: u64)
        requires
            self.wf(),
        ensures
            self.free().finite(),
            n == (if self.free().len() < limit {
                self.free().len() as int
            } else {
                limit as int
            }),
    {
        let mut count: u64 = 0;
        let mut i: usize = 0;
        assert(marked_below(self.bitmap@, 0) =~= Set::<int>::empty());
        while i < MAX_REGIONS && count < limit
            invariant
                i <= MAX_REGIONS,
                self.wf(),
                count <= i,
                count <= limit,
                marked_below(self.bitmap@, i as int).finite(),
                count == marked_below(self.bitmap@, i as int).len(),
            decreases MAX_REGIONS - i,
        {
            let word: u64 = self.bitmap[i / 64];
            let ghost before = marked_below(self.bitmap@, i as int);
            if i % 64 == 0 && word == 0 {
                proof {
                    lemma_constant_words();
                    assert forall|k: int| i <= k < i + 64 implies !#[trigger] marked(
                        self.bitmap@,
                        k,
                    ) by {
                        assert(k / 64 == i as int / 64);
                    }
                    assert(marked_below(self.bitmap@, i + 64) =~= before);
                }
                i += 64;
            } else {
                proof {
                    let after = marked_below(self.bitmap@, i + 1);
                    if marked(self.bitmap@, i as int) {
                        assert(after =~= before.insert(i as int));
                    } else {
                        assert(after =~= before);
                    }
                }
                if (word >> ((i % 64) as u64)) & 1 == 1 {
                    count += 1;
                }
                i += 1;
            }
        }
        proof {
            vstd::set_lib::lemma_int_range(0, MAX_REGIONS as int);
            vstd::set_lib::lemma_len_subset(
                self.free(),
                vstd::set_lib::set_int_range(0, MAX_REGIONS as int),
            );
            vstd::set_lib::lemma_len_subset(marked_below(self.bitmap@, i as int), self.free());
        }
        count
    }
}

/// Build the bitmap from the memory map handed over at boot, and what to report of it.
///
/// Free is each whole region inside a usable entry from [`MANAGED_START`] on, save those
/// that hold the supervisor. There is no result where an address or a sum leaves 64 bits.
pub fn init(boot_info: &BootInfo, memory_map: &[MemoryRegionDescriptor]) -> (r: Option<
    (Pmm, PmmSummary),
>)
    ensures
        r is Some <==> map_fits(*boot_info, memory_map@),
        r matches Some((pmm, summary)) ==> {
            &&& pmm.wf()
            &&& pmm.free() == managed_chunks(*boot_info, memory_map@)
            &&& pmm.free().finite()
            &&& summary.sums_up(*boot_info, memory_map@)
        },
{
    let ghost usable = |t: MemoryRegionType| is_usable(t);
    let ghost reserved = |t: MemoryRegionType| is_reserved_ram(t);
    let mut pmm = Pmm::empty();
    let mut usable_total: u64 = 0;
    let mut reserved_total: u64 = 0;
    let mut n: usize = 0;
    assert(pmm.free() =~= Set::new(
        |i: int| 0 <= i < MAX_REGIONS && usable_chunk(memory_map@.take(0), i),
    ));
    while n < memory_map.len()
        invariant
            n <= memory_map@.len(),
            pmm.wf(),
            usable == (|t: MemoryRegionType| is_usable(t)),
            reserved == (|t: MemoryRegionType| is_reserved_ram(t)),
            pmm.free() == Set::new(
                |i: int| 0 <= i < MAX_REGIONS && usable_chunk(memory_map@.take(n as int), i),
            ),
            forall|k: int|
                0 <= k < n && is_usable((#[trigger] memory_map@[k]).region_type)
                    ==> memory_map@[k].phys_start + memory_map@[k].size <= u64::MAX
                    && memory_map@[k].phys_start + REGION_SIZE - 1 <= u64::MAX,
            usable_total == sum_sizes(memory_map@, n as int, usable),
            reserved_total == sum_sizes(memory_map@, n as int, reserved),
        decreases memory_map@.len() - n,
    {
        let region = memory_map[n];
        let ghost before = memory_map@.take(n as int);
        let ghost after = memory_map@.take(n + 1);
        proof {
            lemma_sum_monotone(memory_map@, n as int, memory_map@.len() as int, usable);
            lemma_sum_monotone(memory_map@, n as int, memory_map@.len() as int, reserved);
            lemma_sum_monotone(memory_map@, n + 1, memory_map@.len() as int, usable);
            lemma_sum_monotone(memory_map@, n + 1, memory_map@.len() as int, reserved);
            lemma_chunks_step(memory_map@, n as int);
        }
        match region.region_type {
            MemoryRegionType::Usable | MemoryRegionType::BootloaderReclaimable => {
                if region.size > u64::MAX - region.phys_start {
                    return None;
                }
                if region.phys_start > u64::MAX - (REGION_SIZE - 1) {
                    return None;
                }
                let start: u64 = align_up(region.phys_start, REGION_SIZE);
                let end: u64 = align_down(region.phys_start + region.size, REGION_SIZE);
                let mut addr: u64 = start;
                while addr < end
                    invariant
                        pmm.wf(),
                        start <= addr,
                        start as int % REGION_SIZE as int == 0,
                        addr as int % REGION_SIZE as int == 0,
                        end as int % REGION_SIZE as int == 0,
                        region.phys_start <= start < region.phys_start + REGION_SIZE,
                        end <= region.phys_start + region.size < end + REGION_SIZE,
                        pmm.free() == Set::new(
                            |i: int|
                                0 <= i < MAX_REGIONS && (usable_chunk(before, i) || start <= i
                                    * REGION_SIZE < addr && i * REGION_SIZE < end),
                        ),
                    decreases end - addr,
                {
                    let ghost old_free = pmm.free();
                    pmm.mark_free(addr);
                    proof {
                        let new_free = Set::new(
                            |i: int|
                                0 <= i < MAX_REGIONS && (usable_chunk(before, i) || start <= i
                                    * REGION_SIZE < addr + REGION_SIZE && i * REGION_SIZE < end),
                        );
                        assert(pmm.free() =~= new_free);
                    }
                    addr += REGION_SIZE;
                }
                if region.size > u64::MAX - usable_total {
                    return None;
                }
                usable_total += region.size;
                assert(pmm.free() =~= Set::new(
                    |i: int| 0 <= i < MAX_REGIONS && usable_chunk(after, i),
                ));
            },
            MemoryRegionType::SupervisorCode
            | MemoryRegionType::AcpiReclaimable
            | MemoryRegionType::AcpiNvs => {
                if region.size > u64::MAX - reserved_total {
                    return None;
                }
                reserved_total += region.size;
                assert(pmm.free() =~= Set::new(
                    |i: int| 0 <= i < MAX_REGIONS && usable_chunk(after, i),
                ));
            },
            _ => {
                assert(pmm.free() =~= Set::new(
                    |i: int| 0 <= i < MAX_REGIONS && usable_chunk(after, i),
                ));
            },
        }
        n += 1;
    }
    assert(memory_map@.take(n as int) =~= memory_map@);
    if usable_total > u64::MAX - reserved_total {
        return None;
    }
    if boot_info.supervisor_size > u64::MAX - boot_info.supervisor_phys_base {
        return None;
    }
    let sup_top: u64 = boot_info.supervisor_phys_base + boot_info.supervisor_size;
    if sup_top > u64::MAX - (REGION_SIZE - 1) {
        return None;
    }
    let sup_start: u64 = align_down(boot_info.supervisor_phys_base, REGION_SIZE);
    let sup_end: u64 = align_up(sup_top, REGION_SIZE);
    let ghost all_free = pmm.free();
    let mut addr: u64 = sup_start;
    assert(pmm.free() =~= Set::new(
        |i: int| all_free.contains(i) && !(sup_start <= i * REGION_SIZE < addr),
    ));
    while addr < sup_end
        invariant
            pmm.wf(),
            sup_start <= addr <= sup_end,
            sup_start as int % REGION_SIZE as int == 0,
            addr as int % REGION_SIZE as int == 0,
            sup_end as int % REGION_SIZE as int == 0,
            pmm.free() == Set::new(
                |i: int| all_free.contains(i) && !(sup_start <= i * REGION_SIZE < addr),
            ),
        decreases sup_end - addr,
    {
        pmm.mark_allocated(addr);
        proof {
            assert(pmm.free() =~= Set::new(
                |i: int|
                    all_free.contains(i) && !(sup_start <= i * REGION_SIZE < addr + REGION_SIZE),
            ));
        }
        addr += REGION_SIZE;
    }
    let ghost rest_free = pmm.free();
    let mut addr: u64 = 0;
    assert(pmm.free() =~= Set::new(|i: int| rest_free.contains(i) && !(i * REGION_SIZE < addr)));
    while addr < MANAGED_START
        invariant
            pmm.wf(),
            addr <= MANAGED_START,
            addr as int % REGION_SIZE as int == 0,
            forall|i: int| #[trigger] rest_free.contains(i) ==> 0 <= i,
            pmm.free() == Set::new(
                |i: int| rest_free.contains(i) && !(i * REGION_SIZE < addr),
            ),
        decreases MANAGED_START - addr,
    {
        pmm.mark_allocated(addr);
        proof {
            assert(pmm.free() =~= Set::new(
                |i: int| rest_free.contains(i) && !(i * REGION_SIZE < addr + REGION_SIZE),
            ));
        }
        addr += REGION_SIZE;
    }
    assert(pmm.free() =~= managed_chunks(*boot_info, memory_map@));
    let total_bytes: u64 = usable_total + reserved_total;
    let free_regions: u64 = pmm.count_free(MAX_REGIONS as u64);
    proof {
        pmm.lemma_free_range();
        vstd::set_lib::lemma_int_range(0, MAX_REGIONS as int);
        vstd::set_lib::lemma_len_subset(
            pmm.free(),
            vstd::set_lib::set_int_range(0, MAX_REGIONS as int),
        );
    }
    let summary = PmmSummary {
        total_bytes,
        total_regions: total_bytes / REGION_SIZE,
        reserved_bytes: reserved_total,
        free_regions,
        supervisor_bytes: align_up(boot_info.supervisor_size, REGION_SIZE),
    };
    Some((pmm, summary))
}

proof fn lemma_chunks_step(map: Seq<MemoryRegionDescriptor>, n: int)
    requires
        0 <= n < map.len(),
    ensures
        forall|i: int| #[trigger]
            usable_chunk(map.take(n + 1), i) == (usable_chunk(map.take(n), i) || (is_usable(
                map[n].region_type,
            ) && chunk_inside(map[n], i))),
{
    let a = map.take(n);
    let b = map.take(n + 1);
    assert forall|i: int| #[trigger]
        usable_chunk(b, i) == (usable_chunk(a, i) || (is_usable(map[n].region_type)
            && chunk_inside(map[n], i))) by {
        if usable_chunk(b, i) {
            let k = choose|k: int|
                0 <= k < b.len() && is_usable((#[trigger] b[k]).region_type) && chunk_inside(
                    b[k],
                    i,
                );
            if k < n {
                assert(a[k] == b[k]);
            }
        }
        if usable_chunk(a, i) {
            let k = choose|k: int|
                0 <= k < a.len() && is_usable((#[trigger] a[k]).region_type) && chunk_inside(
                    a[k],
                    i,
                );
            assert(b[k] == a[k]);
        }
        assert(b[n] == map[n]);
    }
}

/// Allocate a single 2 MiB region: the lowest free one. The result is its physical address.
pub fn alloc_region(pmm: &mut Pmm) -> (r: Option<u64>)
    requires
        old(pmm).wf(),
    ensures
        final(pmm).wf(),
        r is None <==> old(pmm).free() == Set::<int>::empty(),
        match r {
            None => final(pmm).free() == old(pmm).free(),
            Some(addr) => {
                let i = addr as int / REGION_SIZE as int;
                &&& addr == i * REGION_SIZE
                &&& old(pmm).free().contains(i)
                &&& forall|j: int| #[trigger] old(pmm).free().contains(j) ==> i <= j
                &&& final(pmm).free() == old(pmm).free().remove(i)
            },
        },
{
    let mut w: usize = 0;
    while w < BITMAP_WORDS
        invariant
            w <= BITMAP_WORDS,
            pmm.wf(),
            *pmm == *old(pmm),
            forall|i: int| 0 <= i < 64 * w ==> !#[trigger] marked(pmm.bitmap@, i),
        decreases BITMAP_WORDS - w,
    {
        let word: u64 = pmm.bitmap[w];
        if word != 0 {
            proof {
                lemma_lowest_bit(word);
            }
            let b: u64 = word.trailing_zeros() as u64;
            proof {
                lemma_clear_bit(word, b);
            }
            pmm.bitmap[w] = word & !(1u64 << b);
            let index: u64 = (w as u64) * 64 + b;
            proof {
                assert(old(pmm).free().contains(index as int)) by {
                    assert(index as int / 64 == w && index as int % 64 == b);
                }
                assert forall|j: int| #[trigger] old(pmm).free().contains(j) implies index <= j by {
                    assert(j == 64 * (j / 64) + j % 64);
                    if j < index {
                        if j < 64 * w {
                            assert(!marked(old(pmm).bitmap@, j));
                        } else {
                            assert(j / 64 == w);
                        }
                    }
                }
                assert(pmm.free() =~= old(pmm).free().remove(index as int)) by {
                    assert forall|i: int| 0 <= i < MAX_REGIONS implies marked(pmm.bitmap@, i) == (i
                        != index && marked(old(pmm).bitmap@, i)) by {
                        assert(0 <= i / 64 < BITMAP_WORDS);
                        assert(i == 64 * (i / 64) + i % 64);
                    }
                }
            }
            return Some(index * REGION_SIZE);
        }
        proof {
            lemma_constant_words();
            assert forall|i: int| 0 <= i < 64 * (w + 1) implies !#[trigger] marked(
                pmm.bitmap@,
                i,
            ) by {
                if i >= 64 * w {
                    assert(i / 64 == w);
                }
            }
        }
        w += 1;
    }
    assert(pmm.free() =~= Set::<int>::empty());
    None
}

/// Free a previously allocated 2 MiB region. Addresses beyond the tracked memory are ignored.
pub fn free_region(pmm: &mut Pmm, phys_addr: u64)
    requires
        old(pmm).wf(),
    ensures
        final(pmm).wf(),
        final(pmm).free() == (if (phys_addr / REGION_SIZE) < MAX_REGIONS {
            old(pmm).free().insert(phys_addr as int / REGION_SIZE as int)
        } else {
            old(pmm).free()
        }),
{
    pmm.mark_free(phys_addr);
}

/// Freeing what was just allocated gives back the same set of free regions.
pub proof fn law_alloc_then_free(free: Set<int>, i: int)
    requires
        free.contains(i),
    ensures
        free.remove(i).insert(i) == free,
{
    assert(free.remove(i).insert(i) =~= free);
}

/// A region of 2 MiB is handed out exactly where it starts at 0x80_0000 or above and below
/// 1 TiB, each of its bytes lies in one entry of the map that is usable or was the boot
/// loader's, and none of its bytes is the supervisor's.
pub proof fn law_managed_by_bytes(info: BootInfo, map: Seq<MemoryRegionDescriptor>, i: int)
    requires
        info.supervisor_size > 0,
        0 <= i,
    ensures
        managed_chunks(info, map).contains(i) <==> {
            &&& 0x80_0000 <= i * 0x20_0000 < 0x100_0000_0000
            &&& exists|k: int|
                0 <= k < map.len() && ((#[trigger] map[k]).region_type == MemoryRegionType::Usable
                    || map[k].region_type == MemoryRegionType::BootloaderReclaimable)
                    && map[k].phys_start <= i * 0x20_0000 && i * 0x20_0000 + 0x20_0000
                    <= map[k].phys_start + map[k].size
            &&& i * 0x20_0000 + 0x20_0000 <= info.supervisor_phys_base
                || info.supervisor_phys_base + info.supervisor_size <= i * 0x20_0000
        },
{
    let b = info.supervisor_phys_base as int;
    let e = b + info.supervisor_size;
    let r = 0x20_0000int;
    assert(spec_align_down(b, r) <= b < spec_align_down(b, r) + r);
    assert(e <= spec_align_up(e, r) < e + r);
    assert(spec_align_down(b, r) % r == 0 && spec_align_up(e, r) % r == 0);
    assert(supervisor_chunk(info, i) <==> i * r + r > b && i * r < e) by {
        let d = spec_align_down(b, r) / r;
        let u = spec_align_up(e, r) / r;
        assert(spec_align_down(b, r) == d * r && spec_align_up(e, r) == u * r);
    }
    if usable_chunk(map, i) {
        let k = choose|k: int|
            0 <= k < map.len() && is_usable((#[trigger] map[k]).region_type) && chunk_inside(
                map[k],
                i,
            );
        assert(map[k].phys_start <= i * 0x20_0000);
    }
    if exists|k: int|
        0 <= k < map.len() && ((#[trigger] map[k]).region_type == MemoryRegionType::Usable
            || map[k].region_type == MemoryRegionType::BootloaderReclaimable) && map[k].phys_start
            <= i * 0x20_0000 && i * 0x20_0000 + 0x20_0000 <= map[k].phys_start + map[k].size {
        let k = choose|k: int|
            0 <= k < map.len() && ((#[trigger] map[k]).region_type == MemoryRegionType::Usable
                || map[k].region_type == MemoryRegionType::BootloaderReclaimable)
                && map[k].phys_start <= i * 0x20_0000 && i * 0x20_0000 + 0x20_0000
                <= map[k].phys_start + map[k].size;
        assert(is_usable(map[k].region_type) && chunk_inside(map[k], i));
    }
}

/// What is counted as memory, by the numbers of the types at handoff: 0 and 4 may be handed
/// out, 2, 3 and 5 are kept out of use, and devices and what the firmware reserves are none.
pub proof fn law_counted_by_type(t: MemoryRegionType)
    ensures
        is_usable(t) <==> t.number() == 0 || t.number() == 4,
        is_reserved_ram(t) <==> t.number() == 2 || t.number() == 3 || t.number() == 5,
{
}

/// Counting adds up: a map that is put together from two has the memory of both.
pub proof fn law_counts_add(
    a: Seq<MemoryRegionDescriptor>,
    b: Seq<MemoryRegionDescriptor>,
    p: spec_fn(MemoryRegionType) -> bool,
    n: int,
)
    requires
        0 <= n <= b.len(),
    ensures
        sum_sizes(a + b, a.len() + n, p) == sum_sizes(a, a.len() as int, p) + sum_sizes(b, n, p),
        n > 0 ==> sum_sizes(b, n, p) - sum_sizes(b, n - 1, p) == (if p(b[n - 1].region_type) {
            b[n - 1].size as int
        } else {
            0
        }),
    decreases n,
{
    if n > 0 {
        law_counts_add(a, b, p, n - 1);
        assert((a + b)[a.len() + n - 1] == b[n - 1]);
    } else {
        lemma_same_sum(a + b, a, a.len() as int, p);
    }
}

/// Maps that start alike count alike.
proof fn lemma_same_sum(
    a: Seq<MemoryRegionDescriptor>,
    b: Seq<MemoryRegionDescriptor>,
    n: int,
    p: spec_fn(MemoryRegionType) -> bool,
)
    requires
        0 <= n <= a.len(),
        n <= b.len(),
        forall|k: int| 0 <= k < n ==> #[trigger] a[k] == b[k],
    ensures
        sum_sizes(a, n, p) == sum_sizes(b, n, p),
    decreases n,
{
    if n > 0 {
        lemma_same_sum(a, b, n - 1, p);
    }
}

} // verus!
