//! Virtual memory management: four-level x86-64 page tables.
//!
//! Maps and unmaps 4 KiB and 2 MiB pages, converts between physical and virtual
//! addresses through the higher-half direct map, and hands out virtual addresses for
//! device registers.

use vstd::prelude::*;

use crate::frame::{alloc_frame_zeroed, has_frames, FrameAllocator, FrameView};
use crate::mem::{frame_ok, in_frame, zeroed, Memory};

verus! {

/// Higher-half direct map: all physical memory is mapped from this virtual base on.
pub const HHDM_OFFSET: u64 = 0xFFFF_8000_0000_0000;

pub const PTE_PRESENT: u64 = 1;

pub const PTE_WRITABLE: u64 = 2;

pub const PTE_USER: u64 = 4;

pub const PTE_WRITE_THROUGH: u64 = 8;

pub const PTE_CACHE_DISABLE: u64 = 0x10;

/// Marks an entry of a page directory as a 2 MiB page.
pub const PTE_PAGE_SIZE_2M: u64 = 0x80;

pub const PTE_NO_EXECUTE: u64 = 0x8000_0000_0000_0000;

/// The physical address bits of an entry.
pub const PTE_ADDR_MASK: u64 = 0x000F_FFFF_FFFF_F000;

/// Number of entries in a page table.
pub const ENTRIES_PER_TABLE: usize = 512;

pub const PAGE_4K: u64 = 4096;

pub const PAGE_2M: u64 = 0x20_0000;

/// A page table entry: a physical address and flags in one word.
#[derive(Debug, Clone, Copy, PartialEq, Eq, Structural)]
pub struct PageTableEntry(pub u64);

/// The word of an entry with the given address and flags.
pub open spec fn pte_value(phys: u64, flags: u64) -> u64 {
    (phys & PTE_ADDR_MASK) | flags
}

/// Whether the entry is present.
pub open spec fn present(e: u64) -> bool {
    e & PTE_PRESENT != 0
}

/// Whether the entry of a page directory is a 2 MiB page.
pub open spec fn huge(e: u64) -> bool {
    e & PTE_PAGE_SIZE_2M != 0
}

pub open spec fn writable(e: u64) -> bool {
    e & PTE_WRITABLE != 0
}

/// Whether user mode may use the entry.
pub open spec fn user(e: u64) -> bool {
    e & PTE_USER != 0
}

pub open spec fn executable(e: u64) -> bool {
    e & PTE_NO_EXECUTE == 0
}

/// The physical address of the entry.
pub open spec fn pte_addr(e: u64) -> u64 {
    e & PTE_ADDR_MASK
}

impl PageTableEntry {
    pub fn empty() -> (e: PageTableEntry)
        ensures
            e.0 == 0,
    {
        PageTableEntry(0)
    }

    pub fn is_present(&self) -> (r: bool)
        ensures
            r == present(self.0),
    {
        self.0 & PTE_PRESENT != 0
    }

    pub fn phys_addr(&self) -> (r: u64)
        ensures
            r == pte_addr(self.0),
    {
        self.0 & PTE_ADDR_MASK
    }

    pub fn flags(&self) -> (r: u64)
        ensures
            r == self.0 & !PTE_ADDR_MASK,
    {
        self.0 & !PTE_ADDR_MASK
    }

    pub fn set(&mut self, phys: u64, flags: u64)
        ensures
            final(self).0 == pte_value(phys, flags),
    {
        self.0 = (phys & PTE_ADDR_MASK) | flags;
    }

    pub fn clear(&mut self)
        ensures
            final(self).0 == 0,
    {
        self.0 = 0;
    }
}

/// Reading back the address and the flags of an entry gives what was set: the bits of
/// the address that an entry can hold, and all flags that are no address bits.
pub proof fn law_entry_round_trip(phys: u64, flags: u64)
    requires
        flags & PTE_ADDR_MASK == 0,
    ensures
        pte_addr(pte_value(phys, flags)) == phys & PTE_ADDR_MASK,
        pte_value(phys, flags) & !PTE_ADDR_MASK == flags,
{
    assert(((phys & 0x000F_FFFF_FFFF_F000) | flags) & 0x000F_FFFF_FFFF_F000 == phys
        & 0x000F_FFFF_FFFF_F000 && ((phys & 0x000F_FFFF_FFFF_F000) | flags)
        & !0x000F_FFFF_FFFF_F000u64 == flags) by (bit_vector)
        requires
            flags & 0x000F_FFFF_FFFF_F000 == 0,
    ;
}

/// An aligned address below 2^52 is what an entry can hold.
pub proof fn lemma_addr_fits(phys: u64)
    requires
        phys % 4096 == 0,
        phys < 0x10_0000_0000_0000,
    ensures
        phys & PTE_ADDR_MASK == phys,
{
    assert(phys & 0x000F_FFFF_FFFF_F000 == phys) by (bit_vector)
        requires
            phys % 4096 == 0,
            phys < 0x10_0000_0000_0000,
    ;
}

/// Setting the present bit, and the bit for 2 MiB pages, shows in the entry.
pub proof fn lemma_entry_bits(phys: u64, flags: u64)
    ensures
        present(pte_value(phys, flags | PTE_PRESENT)),
        present(pte_value(phys, flags | PTE_PRESENT | PTE_PAGE_SIZE_2M)),
        huge(pte_value(phys, flags | PTE_PRESENT | PTE_PAGE_SIZE_2M)),
        writable(pte_value(phys, flags | PTE_PRESENT)) == writable(flags),
        executable(pte_value(phys, flags | PTE_PRESENT)) == executable(flags),
        huge(pte_value(phys, flags | PTE_PRESENT)) == huge(flags),
        !present(0),
{
    let a = phys & 0x000F_FFFF_FFFF_F000;
    assert((a | (flags | 1)) & 1 != 0 && (a | (flags | 1 | 0x80)) & 1 != 0 && (a | (flags | 1
        | 0x80)) & 0x80 != 0 && (a | (flags | 1)) & 2 == flags & 2 && (a | (flags | 1))
        & 0x8000_0000_0000_0000 == flags & 0x8000_0000_0000_0000 && (a | (flags | 1)) & 0x80
        == flags & 0x80 && 0u64 & 1 == 0) by (bit_vector)
        requires
            a == phys & 0x000F_FFFF_FFFF_F000,
    ;
}

/// A page table: 512 entries, one frame.
#[derive(Clone, Copy)]
pub struct PageTable {
    pub entries: [PageTableEntry; ENTRIES_PER_TABLE],
}

/// Whether physical memory is addressed through the direct map yet.
#[derive(Debug, Clone, Copy, PartialEq, Eq, Structural)]
pub struct AddressMap {
    pub higher_half_active: bool,
}

/// The virtual address at which the supervisor finds the physical address `phys`: the same
/// before the higher half is active, through the direct map after that.
pub open spec fn direct_virt(map: AddressMap, phys: int) -> int {
    if map.higher_half_active {
        phys + HHDM_OFFSET
    } else {
        phys
    }
}

/// The physical address that the supervisor finds at the virtual address `virt`.
pub open spec fn direct_phys(map: AddressMap, virt: int) -> int {
    if map.higher_half_active {
        virt - HHDM_OFFSET
    } else {
        virt
    }
}

/// Convert a physical address to a virtual one.
pub fn phys_to_virt(map: &AddressMap, phys: u64) -> (virt: u64)
    requires
        direct_virt(*map, phys as int) <= u64::MAX,
    ensures
        virt == direct_virt(*map, phys as int),
{
    if map.higher_half_active {
        phys + HHDM_OFFSET
    } else {
        phys
    }
}

/// Convert a virtual address of the direct map back to a physical one.
pub fn virt_to_phys(map: &AddressMap, virt: u64) -> (phys: u64)
    requires
        direct_phys(*map, virt as int) >= 0,
    ensures
        phys == direct_phys(*map, virt as int),
{
    if map.higher_half_active {
        virt - HHDM_OFFSET
    } else {
        virt
    }
}

/// Mark the higher half as active.
pub fn set_higher_half_active(map: &mut AddressMap)
    ensures
        final(map).higher_half_active,
{
    map.higher_half_active = true;
}

/// The numbers of the entries that translate `virt`, from the root table down.
pub open spec fn indices(virt: u64) -> Seq<int> {
    seq![
        virt as int / 0x80_0000_0000 % 512,
        virt as int / 0x4000_0000 % 512,
        virt as int / 0x20_0000 % 512,
        virt as int / 0x1000 % 512,
    ]
}

/// Bits 47 to 39 of a virtual address.
fn pml4_index(virt: u64) -> (i: u64)
    ensures
        i == indices(virt)[0],
        i < 512,
{
    (virt / 0x80_0000_0000) % 512
}

/// Bits 38 to 30 of a virtual address.
fn pdpt_index(virt: u64) -> (i: u64)
    ensures
        i == indices(virt)[1],
        i < 512,
{
    (virt / 0x4000_0000) % 512
}

/// Bits 29 to 21 of a virtual address.
fn pd_index(virt: u64) -> (i: u64)
    ensures
        i == indices(virt)[2],
        i < 512,
{
    (virt / 0x20_0000) % 512
}

/// Bits 20 to 12 of a virtual address.
fn pt_index(virt: u64) -> (i: u64)
    ensures
        i == indices(virt)[3],
        i < 512,
{
    (virt / 0x1000) % 512
}

/// Number of the word of entry `i` of the table at `table`.
pub open spec fn slot(table: u64, i: int) -> int {
    table as int / 8 + i
}

/// The table that the entries numbered by `path` lead to, from the table at `root` on.
#[verifier::opaque]
pub open spec fn table_at(m: Seq<u64>, root: u64, path: Seq<int>) -> Option<u64>
    decreases path.len(),
{
    if path.len() == 0 {
        Some(root)
    } else {
        match table_at(m, root, path.drop_last()) {
            None => None,
            Some(t) => {
                let e = m[slot(t, path.last())];
                if present(e) && !(path.len() == 3 && huge(e)) {
                    Some(pte_addr(e))
                } else {
                    None
                }
            },
        }
    }
}

/// A path that leads to a table through the entries `lo` to `hi` of the root.
pub open spec fn path_ok(path: Seq<int>, lo: int, hi: int) -> bool {
    &&& path.len() <= 3
    &&& forall|i: int| 0 <= i < path.len() ==> 0 <= #[trigger] path[i] < 512
    &&& path.len() > 0 ==> lo <= path[0] < hi
}

/// The tables reached through the entries `lo` to `hi` of the root lie in memory, and
/// no table is reached in two ways.
pub open spec fn tree_wf(m: Seq<u64>, root: u64, lo: int, hi: int) -> bool {
    &&& 0 <= lo <= hi <= 512
    &&& forall|p: Seq<int>|
        path_ok(p, lo, hi) ==> (#[trigger] table_at(m, root, p) matches Some(t) ==> frame_ok(m, t))
    &&& forall|p: Seq<int>, q: Seq<int>|
        path_ok(p, lo, hi) && path_ok(q, lo, hi) && table_at(m, root, p) is Some && (
        #[trigger] table_at(m, root, p)) == (#[trigger] table_at(m, root, q)) ==> p == q
}

/// Whether the frame at `t` is a table of the tree.
pub open spec fn is_table(m: Seq<u64>, root: u64, lo: int, hi: int, t: u64) -> bool {
    exists|p: Seq<int>| path_ok(p, lo, hi) && #[trigger] table_at(m, root, p) == Some(t)
}

/// No table of the tree is free.
pub open spec fn tables_taken(m: Seq<u64>, root: u64, lo: int, hi: int, v: FrameView) -> bool {
    forall|p: Seq<int>|
        path_ok(p, lo, hi) ==> (#[trigger] table_at(m, root, p) matches Some(t) ==> !v.avail(t))
}

/// What a virtual address is mapped to.
#[derive(Debug, Clone, Copy, PartialEq, Eq, Structural)]
pub enum Leaf {
    Unmapped,
    Page4K(u64),
    Page2M(u64),
}

/// Entry number `l` on the way to `virt`, where there is a table to hold it.
pub open spec fn entry_at(m: Seq<u64>, root: u64, virt: u64, l: int) -> Option<u64> {
    match table_at(m, root, indices(virt).take(l)) {
        None => None,
        Some(t) => Some(m[slot(t, indices(virt)[l])]),
    }
}

/// What the tables at `root` map `virt` to.
pub open spec fn leaf(m: Seq<u64>, root: u64, virt: u64) -> Leaf {
    match entry_at(m, root, virt, 3) {
        Some(e) => if present(e) {
            Leaf::Page4K(e)
        } else {
            Leaf::Unmapped
        },
        None => match entry_at(m, root, virt, 2) {
            Some(e) => if present(e) && huge(e) {
                Leaf::Page2M(e)
            } else {
                Leaf::Unmapped
            },
            None => Leaf::Unmapped,
        },
    }
}

/// Whether `virt` is translated through the entries `lo` to `hi` of the root.
pub open spec fn in_half(virt: u64, lo: int, hi: int) -> bool {
    lo <= indices(virt)[0] < hi
}

/// Every address of the half is mapped to the same.
#[verifier::opaque]
pub open spec fn same_leaves(m: Seq<u64>, m2: Seq<u64>, root: u64, lo: int, hi: int) -> bool {
    forall|v: u64| in_half(v, lo, hi) ==> #[trigger] leaf(m2, root, v) == leaf(m, root, v)
}

/// Number of tables that are missing among the first `depth` below the root on the way
/// to `virt`.
pub open spec fn missing_tables(m: Seq<u64>, root: u64, virt: u64, depth: int) -> int
    decreases depth,
{
    if depth <= 0 {
        0
    } else {
        missing_tables(m, root, virt, depth - 1) + (if table_at(
            m,
            root,
            indices(virt).take(depth),
        ) is None {
            1int
        } else {
            0
        })
    }
}

/// The first of the root's entries that translate the same half of the address space.
pub open spec fn half_lo(virt: u64) -> int {
    if indices(virt)[0] < 256 {
        0
    } else {
        256
    }
}

/// The end of the root's entries that translate the same half of the address space.
pub open spec fn half_hi(virt: u64) -> int {
    half_lo(virt) + 256
}

/// Whether `path` leads to one of the first `depth` tables below the root for `virt`.
pub open spec fn on_way(path: Seq<int>, virt: u64, depth: int) -> bool {
    1 <= path.len() <= depth && path == indices(virt).take(path.len() as int)
}

/// Whether `w` is the word of the entry on the way to `virt` where a table is missing.
#[verifier::opaque]
pub open spec fn link_slot(m: Seq<u64>, root: u64, virt: u64, depth: int, w: int) -> bool {
    exists|l: int|
        0 <= l < depth && (#[trigger] table_at(m, root, indices(virt).take(l)) matches Some(t) && w
            == slot(t, indices(virt)[l])) && table_at(m, root, indices(virt).take(l + 1)) is None
}

/// Whether the frame at `t` is one of the first `depth` tables below the root for `virt`.
#[verifier::opaque]
pub open spec fn way_table(m: Seq<u64>, root: u64, virt: u64, depth: int, t: u64) -> bool {
    exists|l: int| 1 <= l <= depth && #[trigger] table_at(m, root, indices(virt).take(l)) == Some(t)
}

/// Whether `w` lies in a frame that is free.
#[verifier::opaque]
pub open spec fn in_free_frame(v: FrameView, w: int) -> bool {
    exists|t: u64| v.avail(t) && #[trigger] in_frame(w, t)
}

/// The tables for `virt` down to `depth` below the root are there in `m2`: those missing
/// in `m` come from free frames and are linked with the given flags, all others are kept.
#[verifier::opaque]
pub open spec fn tables_added(
    m: Seq<u64>,
    m2: Seq<u64>,
    v: FrameView,
    v2: FrameView,
    root: u64,
    virt: u64,
    depth: int,
    flags: u64,
) -> bool {
    let lo = half_lo(virt);
    let hi = half_hi(virt);
    let path = indices(virt);
    &&& m2.len() == m.len()
    &&& tree_wf(m2, root, lo, hi)
    &&& tables_taken(m2, root, lo, hi, v2)
    &&& forall|q: Seq<int>|
        path_ok(q, lo, hi) && (table_at(m, root, q) is Some || !on_way(q, virt, depth)) ==> (
        #[trigger] table_at(m2, root, q)) == table_at(m, root, q)
    &&& forall|l: int|
        1 <= l <= depth ==> (#[trigger] table_at(m2, root, path.take(l)) matches Some(t) && (
        table_at(m, root, path.take(l)) is None ==> v.avail(t) && v2.owns(t)))
    &&& forall|l: int|
        0 <= l < depth && table_at(m, root, path.take(l + 1)) is None ==> m2[slot(
            (#[trigger] table_at(m2, root, path.take(l)))->0,
            path[l],
        )] == pte_value(table_at(m2, root, path.take(l + 1))->0, flags | PTE_PRESENT)
    &&& forall|t: u64| #[trigger]
        v2.avail(t) <==> v.avail(t) && !way_table(m2, root, virt, depth, t)
    &&& forall|t: u64| #[trigger] v.owns(t) ==> v2.owns(t)
    &&& v2.capacity() == v.capacity() - missing_tables(m, root, virt, depth)
}

/// Words change only where missing tables are added.
#[verifier::opaque]
pub open spec fn words_kept(
    m: Seq<u64>,
    m2: Seq<u64>,
    v: FrameView,
    root: u64,
    virt: u64,
    depth: int,
) -> bool {
    forall|w: int|
        0 <= w < m.len() ==> #[trigger] m2[w] == m[w] || link_slot(m, root, virt, depth, w)
            || in_free_frame(v, w)
}

/// The memory `m2` is `m` with the missing tables for `virt` added.
pub open spec fn tables_grown(
    m: Seq<u64>,
    m2: Seq<u64>,
    v: FrameView,
    v2: FrameView,
    root: u64,
    virt: u64,
    depth: int,
    flags: u64,
) -> bool {
    &&& tables_added(m, m2, v, v2, root, virt, depth, flags)
    &&& words_kept(m, m2, v, root, virt, depth)
}

/// Flags of the entries that lead to the tables for a 4 KiB page: they restrict nothing.
pub const PARENT_FLAGS: u64 = 7;

/// Flags of the entries that lead to the tables for a 2 MiB page.
pub const PARENT_FLAGS_2M: u64 = 3;

/// The memory `m2` is `m` with the 4 KiB page at `virt` mapped by the entry `e`: every
/// other page of the half is mapped as before, missing tables are added, and no other
/// word changes.
#[verifier::opaque]
pub open spec fn mapped_4k(
    m: Seq<u64>,
    m2: Seq<u64>,
    v: FrameView,
    v2: FrameView,
    root: u64,
    virt: u64,
    e: u64,
) -> bool {
    let path = indices(virt);
    &&& tables_added(m, m2, v, v2, root, virt, 3, PARENT_FLAGS)
    &&& leaf(m2, root, virt) == Leaf::Page4K(e)
    &&& forall|x: u64|
        in_half(x, half_lo(virt), half_hi(virt)) && indices(x) != path ==> #[trigger] leaf(
            m2,
            root,
            x,
        ) == leaf(m, root, x)
    &&& forall|w: int|
        0 <= w < m.len() ==> #[trigger] m2[w] == m[w] || link_slot(m, root, virt, 3, w)
            || in_free_frame(v, w) || (table_at(m, root, path.take(3)) matches Some(t) && w == slot(
            t,
            path[3],
        ))
}

/// The memory `m2` is `m` with the 2 MiB page at `virt` mapped by the entry `e`: every
/// address outside that page is mapped as before, missing tables are added, a table
/// that held smaller pages for the same addresses is dropped, and no other word changes.
#[verifier::opaque]
pub open spec fn mapped_2m(
    m: Seq<u64>,
    m2: Seq<u64>,
    v: FrameView,
    v2: FrameView,
    root: u64,
    virt: u64,
    e: u64,
) -> bool {
    let path = indices(virt);
    let lo = half_lo(virt);
    let hi = half_hi(virt);
    &&& m2.len() == m.len()
    &&& tree_wf(m2, root, lo, hi)
    &&& tables_taken(m2, root, lo, hi, v2)
    &&& forall|q: Seq<int>|
        path_ok(q, lo, hi) && q != path.take(3) && (table_at(m, root, q) is Some || !on_way(
            q,
            virt,
            2,
        )) ==> (#[trigger] table_at(m2, root, q)) == table_at(m, root, q)
    &&& forall|l: int|
        1 <= l <= 2 ==> (#[trigger] table_at(m2, root, path.take(l)) matches Some(t) && (table_at(
            m,
            root,
            path.take(l),
        ) is None ==> v.avail(t) && v2.owns(t)))
    &&& forall|l: int|
        0 <= l < 2 && table_at(m, root, path.take(l + 1)) is None ==> m2[slot(
            (#[trigger] table_at(m2, root, path.take(l)))->0,
            path[l],
        )] == pte_value(table_at(m2, root, path.take(l + 1))->0, PARENT_FLAGS_2M | PTE_PRESENT)
    &&& forall|t: u64| #[trigger] v2.avail(t) <==> v.avail(t) && !way_table(m2, root, virt, 2, t)
    &&& forall|t: u64| #[trigger] v.owns(t) ==> v2.owns(t)
    &&& v2.capacity() == v.capacity() - missing_tables(m, root, virt, 2)
    &&& forall|x: u64|
        in_half(x, lo, hi) ==> #[trigger] leaf(m2, root, x) == (if indices(x).take(3) == path.take(
            3,
        ) {
            Leaf::Page2M(e)
        } else {
            leaf(m, root, x)
        })
    &&& forall|w: int|
        0 <= w < m.len() ==> #[trigger] m2[w] == m[w] || link_slot(m, root, virt, 2, w)
            || in_free_frame(v, w) || (table_at(m, root, path.take(2)) matches Some(t) && w == slot(
            t,
            path[2],
        ))
}

// ---------------------------------------------------------------------------
// How writes to memory change the tables
// ---------------------------------------------------------------------------

/// Two different frames share no word.
pub proof fn lemma_frames_apart(m: Seq<u64>, a: u64, b: u64, w: int)
    requires
        frame_ok(m, a),
        frame_ok(m, b),
        in_frame(w, a),
        in_frame(w, b),
    ensures
        a == b,
{
}

/// The empty path leads to the root.
pub proof fn lemma_root(m: Seq<u64>, root: u64, path: Seq<int>)
    ensures
        table_at(m, root, path.take(0)) == Some(root),
{
    reveal_with_fuel(table_at, 1);
}

/// One step further on a path.
pub proof fn lemma_step(m: Seq<u64>, root: u64, path: Seq<int>, l: int)
    requires
        0 <= l < path.len(),
    ensures
        table_at(m, root, path.take(l + 1)) == (match table_at(m, root, path.take(l)) {
            None => None,
            Some(t) => {
                let e = m[slot(t, path[l])];
                if present(e) && !(l == 2 && huge(e)) {
                    Some(pte_addr(e))
                } else {
                    None
                }
            },
        }),
{
    reveal_with_fuel(table_at, 1);
    assert(path.take(l + 1).drop_last() =~= path.take(l));
}

/// Behind a missing table there is no other.
pub proof fn lemma_next_table(m: Seq<u64>, root: u64, c: Seq<int>, q: Seq<int>)
    requires
        table_at(m, root, c) is None,
        q.len() >= c.len(),
        q.take(c.len() as int) == c,
    ensures
        table_at(m, root, q) is None,
    decreases q.len(),
{
    if q.len() == c.len() {
        assert(q =~= c);
    } else {
        reveal_with_fuel(table_at, 1);
        assert(q.drop_last().take(c.len() as int) =~= c);
        lemma_next_table(m, root, c, q.drop_last());
    }
}

/// A path leads to the same table while the entries on the way are the same.
proof fn lemma_same_entries(m: Seq<u64>, m2: Seq<u64>, root: u64, q: Seq<int>)
    requires
        forall|l: int|
            0 <= l < q.len() ==> (#[trigger] table_at(m, root, q.take(l)) matches Some(t) ==> m2[slot(
                t,
                q[l],
            )] == m[slot(t, q[l])]),
    ensures
        table_at(m2, root, q) == table_at(m, root, q),
    decreases q.len(),
{
    reveal_with_fuel(table_at, 2);
    if q.len() > 0 {
        let n = q.len() - 1;
        let p = q.drop_last();
        assert(p =~= q.take(n));
        assert forall|l: int| 0 <= l < p.len() implies (#[trigger] table_at(
            m,
            root,
            p.take(l),
        ) matches Some(t) ==> m2[slot(t, p[l])] == m[slot(t, p[l])]) by {
            assert(p.take(l) =~= q.take(l));
        }
        lemma_same_entries(m, m2, root, p);
    }
}

/// Prefixes of a path of the tree are paths of the tree.
proof fn lemma_prefix_ok(q: Seq<int>, l: int, lo: int, hi: int)
    requires
        path_ok(q, lo, hi),
        0 <= l <= q.len(),
    ensures
        path_ok(q.take(l), lo, hi),
{
}

/// The path to each table for `virt` is a path of the tree.
pub proof fn lemma_indices_ok(virt: u64, l: int, lo: int, hi: int)
    requires
        in_half(virt, lo, hi),
        0 <= l <= 3,
    ensures
        path_ok(indices(virt).take(l), lo, hi),
        indices(virt).len() == 4,
        forall|i: int| 0 <= i < 4 ==> 0 <= #[trigger] indices(virt)[i] < 512,
{
    let path = indices(virt);
    assert(0 <= path[0] < 512 && 0 <= path[1] < 512 && 0 <= path[2] < 512 && 0 <= path[3] < 512);
    assert forall|i: int| 0 <= i < l implies 0 <= #[trigger] path.take(l)[i] < 512 by {
        assert(path.take(l)[i] == path[i]);
    }
}

/// Words outside the tables do not matter to the tables.
proof fn lemma_outside(m: Seq<u64>, m2: Seq<u64>, root: u64, lo: int, hi: int, q: Seq<int>)
    requires
        tree_wf(m, root, lo, hi),
        path_ok(q, lo, hi),
        forall|t: u64, w: int|
            is_table(m, root, lo, hi, t) && #[trigger] in_frame(w, t) ==> m2[w] == m[w],
    ensures
        table_at(m2, root, q) == table_at(m, root, q),
{
    assert forall|l: int| 0 <= l < q.len() implies (#[trigger] table_at(
        m,
        root,
        q.take(l),
    ) matches Some(t) ==> m2[slot(t, q[l])] == m[slot(t, q[l])]) by {
        lemma_prefix_ok(q, l, lo, hi);
        if let Some(t) = table_at(m, root, q.take(l)) {
            assert(is_table(m, root, lo, hi, t));
            assert(in_frame(slot(t, q[l]), t));
        }
    }
    lemma_same_entries(m, m2, root, q);
}

/// Writing one entry changes no table but those behind it.
proof fn lemma_write_entry(
    m: Seq<u64>,
    root: u64,
    lo: int,
    hi: int,
    p: Seq<int>,
    t: u64,
    i: int,
    e: u64,
    q: Seq<int>,
)
    requires
        tree_wf(m, root, lo, hi),
        path_ok(p, lo, hi),
        table_at(m, root, p) == Some(t),
        0 <= i < 512,
        path_ok(q, lo, hi),
        !(q.len() > p.len() && q.take(p.len() as int) == p && q[p.len() as int] == i),
    ensures
        table_at(m.update(slot(t, i), e), root, q) == table_at(m, root, q),
{
    let m2 = m.update(slot(t, i), e);
    assert forall|l: int| 0 <= l < q.len() implies (#[trigger] table_at(
        m,
        root,
        q.take(l),
    ) matches Some(s) ==> m2[slot(s, q[l])] == m[slot(s, q[l])]) by {
        lemma_prefix_ok(q, l, lo, hi);
        if let Some(s) = table_at(m, root, q.take(l)) {
            if slot(s, q[l]) == slot(t, i) {
                lemma_frames_apart(m, s, t, slot(t, i));
                assert(q.take(l) == p);
            }
        }
    }
    lemma_same_entries(m, m2, root, q);
}

/// Memory after the frame at `f` is zeroed and entry `i` of the table at `t` set to `e`.
pub open spec fn linked(m: Seq<u64>, t: u64, i: int, f: u64, e: u64) -> Seq<u64> {
    zeroed(m, f).update(slot(t, i), e)
}

/// Linking a zeroed frame as a table adds one table and maps nothing.
proof fn lemma_link(
    m: Seq<u64>,
    root: u64,
    lo: int,
    hi: int,
    p: Seq<int>,
    t: u64,
    i: int,
    f: u64,
    e: u64,
)
    requires
        tree_wf(m, root, lo, hi),
        path_ok(p, lo, hi),
        p.len() < 3,
        path_ok(p.push(i), lo, hi),
        table_at(m, root, p) == Some(t),
        !present(m[slot(t, i)]),
        frame_ok(m, f),
        !is_table(m, root, lo, hi, f),
        present(e),
        !huge(e),
        pte_addr(e) == f,
    ensures
        table_at(linked(m, t, i, f, e), root, p.push(i)) == Some(f),
        forall|q: Seq<int>|
            path_ok(q, lo, hi) && q != p.push(i) ==> #[trigger] table_at(
                linked(m, t, i, f, e),
                root,
                q,
            ) == table_at(m, root, q),
        tree_wf(linked(m, t, i, f, e), root, lo, hi),
        forall|v: u64|
            in_half(v, lo, hi) ==> #[trigger] leaf(linked(m, t, i, f, e), root, v) == leaf(
                m,
                root,
                v,
            ),
{
    reveal_with_fuel(table_at, 2);
    let m1 = zeroed(m, f);
    let m2 = linked(m, t, i, f, e);
    let child = p.push(i);
    assert(child.drop_last() =~= p && child.last() == i);
    assert(child[p.len() as int] == i);
    assert forall|s: u64, w: int|
        is_table(m, root, lo, hi, s) && #[trigger] in_frame(w, s) implies m1[w] == m[w] by {
        if in_frame(w, f) {
            lemma_frames_apart(m, s, f, w);
        }
    }
    assert forall|q: Seq<int>| path_ok(q, lo, hi) implies #[trigger] table_at(m1, root, q)
        == table_at(m, root, q) by {
        lemma_outside(m, m1, root, lo, hi, q);
    }
    assert(tree_wf(m1, root, lo, hi));
    assert(is_table(m, root, lo, hi, t));
    assert(in_frame(slot(t, i), t));
    assert(table_at(m, root, child) is None);
    lemma_write_entry(m1, root, lo, hi, p, t, i, e, p);
    assert(table_at(m2, root, child) == Some(f));
    assert forall|q: Seq<int>| path_ok(q, lo, hi) && q != child implies #[trigger] table_at(
        m2,
        root,
        q,
    ) == table_at(m, root, q) by {
        if q.len() > p.len() && q.take(p.len() as int) == p && q[p.len() as int] == i {
            if q.len() == p.len() + 1 {
                assert(q =~= child);
            }
            lemma_behind_link(m, root, lo, hi, p, t, i, f, e, q);
        } else {
            lemma_write_entry(m1, root, lo, hi, p, t, i, e, q);
        }
    }
    assert forall|q: Seq<int>| path_ok(q, lo, hi) implies (#[trigger] table_at(
        m2,
        root,
        q,
    ) matches Some(s) ==> frame_ok(m2, s)) by {
        if q != child {
            assert(table_at(m2, root, q) == table_at(m, root, q));
        }
    }
    assert forall|q: Seq<int>, r: Seq<int>|
        path_ok(q, lo, hi) && path_ok(r, lo, hi) && table_at(m2, root, q) is Some && (
        #[trigger] table_at(m2, root, q)) == (#[trigger] table_at(m2, root, r)) implies q == r by {
        if q != child {
            assert(table_at(m2, root, q) == table_at(m, root, q));
        }
        if r != child {
            assert(table_at(m2, root, r) == table_at(m, root, r));
        }
        if q == child && r != child {
            assert(is_table(m, root, lo, hi, f));
        }
        if r == child && q != child {
            assert(is_table(m, root, lo, hi, f));
        }
    }
    assert forall|v: u64| in_half(v, lo, hi) implies #[trigger] leaf(m2, root, v) == leaf(
        m,
        root,
        v,
    ) by {
        lemma_link_entry(m, root, lo, hi, p, t, i, f, e, v, 2);
        lemma_link_entry(m, root, lo, hi, p, t, i, f, e, v, 3);
        let x = indices(v);
        lemma_indices_ok(v, 2, lo, hi);
        lemma_indices_ok(v, 3, lo, hi);
        assert(x.take(3).drop_last() =~= x.take(2));
        assert(x.take(3).last() == x[2]);
        lemma_entry_bits(0, 0);
    }
}

/// Behind a newly linked table there is nothing, as there was before.
proof fn lemma_behind_link(
    m: Seq<u64>,
    root: u64,
    lo: int,
    hi: int,
    p: Seq<int>,
    t: u64,
    i: int,
    f: u64,
    e: u64,
    q: Seq<int>,
)
    requires
        tree_wf(m, root, lo, hi),
        path_ok(p, lo, hi),
        p.len() < 3,
        table_at(m, root, p) == Some(t),
        !present(m[slot(t, i)]),
        frame_ok(m, f),
        !is_table(m, root, lo, hi, f),
        table_at(linked(m, t, i, f, e), root, p.push(i)) == Some(f),
        path_ok(q, lo, hi),
        q.len() > p.len() + 1,
        q.take(p.len() as int) == p,
        q[p.len() as int] == i,
    ensures
        table_at(linked(m, t, i, f, e), root, q) is None,
        table_at(m, root, q) is None,
    decreases q.len(),
{
    reveal_with_fuel(table_at, 2);
    let m2 = linked(m, t, i, f, e);
    let d = q.drop_last();
    lemma_prefix_ok(q, q.len() - 1, lo, hi);
    assert(d =~= q.take(q.len() - 1));
    assert(d.take(p.len() as int) =~= p);
    if d.len() > p.len() + 1 {
        lemma_behind_link(m, root, lo, hi, p, t, i, f, e, d);
    } else {
        assert(d =~= p.push(i));
        assert(d.drop_last() =~= p && d.last() == i);
        assert(table_at(m, root, d) is None);
        let w = slot(f, q.last());
        assert(in_frame(w, f));
        assert(is_table(m, root, lo, hi, t));
        assert(in_frame(slot(t, i), t));
        if w == slot(t, i) {
            lemma_frames_apart(m, f, t, w);
        }
        assert(m2[w] == 0);
        lemma_entry_bits(0, 0);
    }
}

/// After linking, an entry on the way to an address is the same, or was absent and is not
/// a page now.
proof fn lemma_link_entry(
    m: Seq<u64>,
    root: u64,
    lo: int,
    hi: int,
    p: Seq<int>,
    t: u64,
    i: int,
    f: u64,
    e: u64,
    v: u64,
    l: int,
)
    requires
        tree_wf(m, root, lo, hi),
        path_ok(p, lo, hi),
        p.len() < 3,
        path_ok(p.push(i), lo, hi),
        table_at(m, root, p) == Some(t),
        !present(m[slot(t, i)]),
        frame_ok(m, f),
        !is_table(m, root, lo, hi, f),
        present(e),
        !huge(e),
        table_at(linked(m, t, i, f, e), root, p.push(i)) == Some(f),
        forall|q: Seq<int>|
            path_ok(q, lo, hi) && q != p.push(i) ==> #[trigger] table_at(
                linked(m, t, i, f, e),
                root,
                q,
            ) == table_at(m, root, q),
        in_half(v, lo, hi),
        2 <= l <= 3,
    ensures
        ({
            let m2 = linked(m, t, i, f, e);
            ||| entry_at(m2, root, v, l) == entry_at(m, root, v, l)
            ||| (indices(v).take(l) == p && indices(v)[l] == i && entry_at(m, root, v, l) == Some(
                m[slot(t, i)],
            ) && entry_at(m2, root, v, l) == Some(e))
            ||| (indices(v).take(l) == p.push(i) && entry_at(m, root, v, l) is None && entry_at(
                m2,
                root,
                v,
                l,
            ) == Some(0u64))
        }),
{
    reveal(table_at);
    let m2 = linked(m, t, i, f, e);
    let x = indices(v);
    let child = p.push(i);
    lemma_indices_ok(v, l, lo, hi);
    assert(child[p.len() as int] == i);
    assert(is_table(m, root, lo, hi, t));
    assert(in_frame(slot(t, i), t));
    assert(child.drop_last() =~= p);
    if x.take(l) == child {
        let w = slot(f, x[l]);
        assert(in_frame(w, f));
        if w == slot(t, i) {
            lemma_frames_apart(m, f, t, w);
        }
        assert(m2[w] == 0);
    } else {
        if let Some(s) = table_at(m, root, x.take(l)) {
            let w = slot(s, x[l]);
            assert(in_frame(w, s));
            assert(is_table(m, root, lo, hi, s));
            if in_frame(w, f) {
                lemma_frames_apart(m, s, f, w);
            }
            if w == slot(t, i) {
                lemma_frames_apart(m, s, t, w);
                assert(table_at(m, root, x.take(l)) == table_at(m, root, p));
            }
        }
    }
}

/// Ensure a next-level table exists at entry `index` of `table`, allocating if needed.
fn ensure_table(
    fa: &mut FrameAllocator,
    mem: &mut Memory,
    table: u64,
    index: u64,
    parent_flags: u64,
    Ghost(root): Ghost<u64>,
    Ghost(path): Ghost<Seq<int>>,
    Ghost(lo): Ghost<int>,
    Ghost(hi): Ghost<int>,
) -> (r: u64)
    requires
        old(fa).wf(),
        old(fa)@.within(old(mem)@.len()),
        tree_wf(old(mem)@, root, lo, hi),
        tables_taken(old(mem)@, root, lo, hi, old(fa)@),
        path_ok(path, lo, hi),
        path.len() < 3,
        path_ok(path.push(index as int), lo, hi),
        table_at(old(mem)@, root, path) == Some(table),
        present(old(mem)@[slot(table, index as int)]) ==> !(path.len() == 2 && huge(
            old(mem)@[slot(table, index as int)],
        )),
        !present(old(mem)@[slot(table, index as int)]) ==> old(fa)@.capacity() > 0,
        parent_flags & PTE_ADDR_MASK == 0,
        !huge(parent_flags),
    ensures
        final(fa).wf(),
        final(fa)@.within(final(mem)@.len()),
        tree_wf(final(mem)@, root, lo, hi),
        tables_taken(final(mem)@, root, lo, hi, final(fa)@),
        table_at(final(mem)@, root, path.push(index as int)) == Some(r),
        forall|q: Seq<int>|
            path_ok(q, lo, hi) && q != path.push(index as int) ==> #[trigger] table_at(
                final(mem)@,
                root,
                q,
            ) == table_at(old(mem)@, root, q),
        forall|v: u64|
            in_half(v, lo, hi) ==> #[trigger] leaf(final(mem)@, root, v) == leaf(
                old(mem)@,
                root,
                v,
            ),
        present(old(mem)@[slot(table, index as int)]) ==> final(mem)@ == old(mem)@ && final(fa)@
            == old(fa)@,
        !present(old(mem)@[slot(table, index as int)]) ==> {
            &&& old(fa)@.next() == Some(r)
            &&& final(fa)@ == old(fa)@.after_alloc()
            &&& final(mem)@ == linked(
                old(mem)@,
                table,
                index as int,
                r,
                pte_value(r, parent_flags | PTE_PRESENT),
            )
        },
{
    proof {
        reveal_with_fuel(table_at, 2);
    }
    let ghost m = mem@;
    let ghost child = path.push(index as int);
    proof {
        assert(child.drop_last() =~= path && child.last() == index);
        assert(frame_ok(m, table));
    }
    let mut entry = PageTableEntry(mem.read(table + 8 * index));
    if entry.is_present() {
        entry.phys_addr()
    } else {
        proof {
            fa.lemma_wf();
            fa@.lemma_alloc();
        }
        match alloc_frame_zeroed(fa, mem) {
            None => {
                assert(false);
                0
            },
            Some(new_phys) => {
                entry.set(new_phys, parent_flags | PTE_PRESENT);
                mem.write(table + 8 * index, entry.0);
                proof {
                    assert forall|p: Seq<int>| path_ok(p, lo, hi) implies #[trigger] table_at(
                        m,
                        root,
                        p,
                    ) != Some(new_phys) by {}
                    lemma_entry_bits(new_phys, parent_flags);
                    lemma_addr_fits(new_phys);
                    lemma_present_flag(parent_flags);
                    law_entry_round_trip(new_phys, parent_flags | PTE_PRESENT);
                    lemma_link(m, root, lo, hi, path, table, index as int, new_phys, entry.0);
                    assert forall|q: Seq<int>| path_ok(q, lo, hi) implies (#[trigger] table_at(
                        mem@,
                        root,
                        q,
                    ) matches Some(t) ==> !fa@.avail(t)) by {
                        if q != child {
                            assert(table_at(mem@, root, q) == table_at(m, root, q));
                        }
                    }
                }
                new_phys
            },
        }
    }
}

/// The present bit is no address bit.
pub proof fn lemma_present_flag(flags: u64)
    requires
        flags & PTE_ADDR_MASK == 0,
    ensures
        (flags | PTE_PRESENT) & PTE_ADDR_MASK == 0,
{
    assert((flags | 1) & 0x000F_FFFF_FFFF_F000 == 0) by (bit_vector)
        requires
            flags & 0x000F_FFFF_FFFF_F000 == 0,
    ;
}

pub proof fn lemma_missing_monotone(m: Seq<u64>, root: u64, virt: u64, a: int, b: int)
    requires
        a <= b,
    ensures
        0 <= missing_tables(m, root, virt, a) <= missing_tables(m, root, virt, b),
    decreases b,
{
    if b > 0 {
        if a < b {
            lemma_missing_monotone(m, root, virt, a, b - 1);
        } else {
            lemma_missing_monotone(m, root, virt, a - 1, b - 1);
        }
    }
}

/// Where a table is missing, all further ones are missing too.
pub proof fn lemma_missing_below(m: Seq<u64>, root: u64, virt: u64, l: int, depth: int)
    requires
        0 <= l <= depth <= 3,
        table_at(m, root, indices(virt).take(l)) is None,
    ensures
        table_at(m, root, indices(virt).take(depth)) is None,
        missing_tables(m, root, virt, depth) == missing_tables(m, root, virt, l) + depth - l,
    decreases depth - l,
{
    reveal_with_fuel(table_at, 2);
    if l < depth {
        lemma_missing_below(m, root, virt, l, depth - 1);
        assert(indices(virt).take(depth).drop_last() =~= indices(virt).take(depth - 1));
    }
}

/// Entry number `l` on the way to `virt`.
fn index_at(virt: u64, l: u64) -> (i: u64)
    requires
        l < 4,
    ensures
        i == indices(virt)[l as int],
        i < 512,
{
    if l == 0 {
        pml4_index(virt)
    } else if l == 1 {
        pdpt_index(virt)
    } else if l == 2 {
        pd_index(virt)
    } else {
        pt_index(virt)
    }
}

/// A table that the tree leads to lies in memory.
proof fn lemma_table_frame(m: Seq<u64>, root: u64, lo: int, hi: int, virt: u64, l: int, t: u64)
    requires
        tree_wf(m, root, lo, hi),
        in_half(virt, lo, hi),
        0 <= l <= 3,
        table_at(m, root, indices(virt).take(l)) == Some(t),
    ensures
        frame_ok(m, t),
{
    lemma_indices_ok(virt, l, lo, hi);
}

/// Entry number `l` on the way to `virt`, in the given table.
fn entry_of(mem: &Memory, table: u64, virt: u64, l: u64) -> (e: PageTableEntry)
    requires
        l < 4,
        frame_ok(mem@, table),
    ensures
        e.0 == mem@[slot(table, indices(virt)[l as int])],
{
    PageTableEntry(mem.read(table + 8 * index_at(virt, l)))
}

/// The table for `virt` at `l + 1` below the root, where there is one.
#[verifier::rlimit(30)]
fn next_table(mem: &Memory, root: u64, virt: u64, table: u64, l: u64) -> (r: Option<u64>)
    requires
        l < 3,
        tree_wf(mem@, root, half_lo(virt), half_hi(virt)),
        l == 2 ==> !(leaf(mem@, root, virt) is Page2M),
        table_at(mem@, root, indices(virt).take(l as int)) == Some(table),
    ensures
        r == table_at(mem@, root, indices(virt).take(l + 1)),
{
    proof {
        lemma_table_frame(mem@, root, half_lo(virt), half_hi(virt), virt, l as int, table);
        lemma_step(mem@, root, indices(virt), l as int);
    }
    let entry = entry_of(mem, table, virt, l);
    if !entry.is_present() {
        return None;
    }
    Some(entry.phys_addr())
}

/// Count the tables that are missing among the first `depth` below the root.
pub fn count_missing(mem: &Memory, root: u64, virt: u64, depth: u64) -> (n: u64)
    requires
        2 <= depth <= 3,
        tree_wf(mem@, root, half_lo(virt), half_hi(virt)),
        depth == 3 ==> !(leaf(mem@, root, virt) is Page2M),
    ensures
        n == missing_tables(mem@, root, virt, depth as int),
{
    proof {
        lemma_root(mem@, root, indices(virt));
        reveal_with_fuel(missing_tables, 4);
    }
    match next_table(mem, root, virt, root, 0) {
        None => {
            proof {
                lemma_missing_below(mem@, root, virt, 1, depth as int);
            }
            depth
        },
        Some(pdpt) => match next_table(mem, root, virt, pdpt, 1) {
            None => {
                proof {
                    lemma_missing_below(mem@, root, virt, 2, depth as int);
                }
                depth - 1
            },
            Some(pd) => if depth == 2 {
                0
            } else {
                match next_table(mem, root, virt, pd, 2) {
                    None => 1,
                    Some(_) => 0,
                }
            },
        },
    }
}

/// The table for `virt` at `l + 1` below the root, added if it is missing.
fn walk_step(
    fa: &mut FrameAllocator,
    mem: &mut Memory,
    root: u64,
    virt: u64,
    table: u64,
    l: u64,
    parent_flags: u64,
    Ghost(m0): Ghost<Seq<u64>>,
    Ghost(v0): Ghost<FrameView>,
) -> (r: u64)
    requires
        l < 3,
        old(fa).wf(),
        old(fa)@.within(old(mem)@.len()),
        tree_wf(m0, root, half_lo(virt), half_hi(virt)),
        l == 2 ==> !(leaf(m0, root, virt) is Page2M),
        v0.capacity() >= missing_tables(m0, root, virt, l + 1),
        parent_flags & PTE_ADDR_MASK == 0,
        !huge(parent_flags),
        table_at(old(mem)@, root, indices(virt).take(l as int)) == Some(table),
        tables_grown(m0, old(mem)@, v0, old(fa)@, root, virt, l as int, parent_flags),
        same_leaves(m0, old(mem)@, root, half_lo(virt), half_hi(virt)),
    ensures
        final(fa).wf(),
        final(fa)@.within(final(mem)@.len()),
        table_at(final(mem)@, root, indices(virt).take(l + 1)) == Some(r),
        tables_grown(m0, final(mem)@, v0, final(fa)@, root, virt, l + 1, parent_flags),
        same_leaves(m0, final(mem)@, root, half_lo(virt), half_hi(virt)),
{
    let ghost m = mem@;
    let ghost v = fa@;
    let ghost path = indices(virt);
    let ghost lo = half_lo(virt);
    let ghost hi = half_hi(virt);
    let ghost p = path.take(l as int);
    let ghost c = path.take(l + 1);
    let index: u64 = index_at(virt, l);
    proof {
        fa.lemma_wf();
        lemma_indices_ok(virt, l as int, lo, hi);
        lemma_indices_ok(virt, l + 1, lo, hi);
        lemma_step(m, root, path, l as int);
        assert(c =~= p.push(index as int));
        lemma_grown_facts(m0, m, v0, v, root, virt, l as int, parent_flags);
        if l == 2 {
            assert(leaf(m, root, virt) == leaf(m0, root, virt)) by {
                reveal(same_leaves);
            }
            assert(entry_at(m, root, virt, 2) == Some(m[slot(table, index as int)]));
        }
    }
    let r: u64 = ensure_table(
        fa,
        mem,
        table,
        index,
        parent_flags,
        Ghost(root),
        Ghost(p),
        Ghost(lo),
        Ghost(hi),
    );
    proof {
        assert(same_leaves(m0, mem@, root, lo, hi)) by {
            reveal(same_leaves);
        }
        if present(m[slot(table, index as int)]) {
            lemma_grown_present(m0, m, v0, v, root, virt, l as int, parent_flags);
        } else {
            v.lemma_alloc();
            lemma_grown_link(
                m0,
                m,
                mem@,
                v0,
                v,
                fa@,
                root,
                virt,
                l as int,
                r,
                parent_flags,
            );
        }
    }
    r
}

/// The tables for `virt` down to `depth` below the root, added where they are missing.
fn walk(
    fa: &mut FrameAllocator,
    mem: &mut Memory,
    root: u64,
    virt: u64,
    depth: u64,
    parent_flags: u64,
) -> (r: u64)
    requires
        2 <= depth <= 3,
        old(fa).wf(),
        old(fa)@.within(old(mem)@.len()),
        tree_wf(old(mem)@, root, half_lo(virt), half_hi(virt)),
        tables_taken(old(mem)@, root, half_lo(virt), half_hi(virt), old(fa)@),
        depth == 3 ==> !(leaf(old(mem)@, root, virt) is Page2M),
        old(fa)@.capacity() >= missing_tables(old(mem)@, root, virt, depth as int),
        parent_flags & PTE_ADDR_MASK == 0,
        !huge(parent_flags),
    ensures
        final(fa).wf(),
        final(fa)@.within(final(mem)@.len()),
        tables_grown(
            old(mem)@,
            final(mem)@,
            old(fa)@,
            final(fa)@,
            root,
            virt,
            depth as int,
            parent_flags,
        ),
        table_at(final(mem)@, root, indices(virt).take(depth as int)) == Some(r),
        same_leaves(old(mem)@, final(mem)@, root, half_lo(virt), half_hi(virt)),
{
    let ghost m0 = mem@;
    let ghost v0 = fa@;
    proof {
        lemma_root(m0, root, indices(virt));
        lemma_grown_start(m0, v0, root, virt, parent_flags);
        reveal(same_leaves);
        lemma_missing_monotone(m0, root, virt, 1, depth as int);
        lemma_missing_monotone(m0, root, virt, 2, depth as int);
    }
    let pdpt: u64 = walk_step(fa, mem, root, virt, root, 0, parent_flags, Ghost(m0), Ghost(v0));
    let pd: u64 = walk_step(fa, mem, root, virt, pdpt, 1, parent_flags, Ghost(m0), Ghost(v0));
    if depth == 2 {
        return pd;
    }
    walk_step(fa, mem, root, virt, pd, 2, parent_flags, Ghost(m0), Ghost(v0))
}

/// Growing by no table changes nothing.
proof fn lemma_grown_start(m: Seq<u64>, v: FrameView, root: u64, virt: u64, flags: u64)
    requires
        tree_wf(m, root, half_lo(virt), half_hi(virt)),
        tables_taken(m, root, half_lo(virt), half_hi(virt), v),
    ensures
        tables_grown(m, m, v, v, root, virt, 0, flags),
{
    reveal(tables_added);
    reveal(words_kept);
    reveal(way_table);
}

/// What growing keeps, and what it leaves for the next step.
proof fn lemma_grown_facts(
    m0: Seq<u64>,
    m: Seq<u64>,
    v0: FrameView,
    v: FrameView,
    root: u64,
    virt: u64,
    l: int,
    flags: u64,
)
    requires
        0 <= l < 3,
        tables_grown(m0, m, v0, v, root, virt, l, flags),
        table_at(m, root, indices(virt).take(l)) is Some,
    ensures
        tree_wf(m, root, half_lo(virt), half_hi(virt)),
        tables_taken(m, root, half_lo(virt), half_hi(virt), v),
        v.capacity() == v0.capacity() - missing_tables(m0, root, virt, l),
        table_at(m, root, indices(virt).take(l + 1)) == table_at(
            m0,
            root,
            indices(virt).take(l + 1),
        ),
        frame_ok(m, table_at(m, root, indices(virt).take(l))->0),
{
    reveal(tables_added);
    reveal(words_kept);
    let lo = half_lo(virt);
    let hi = half_hi(virt);
    let c = indices(virt).take(l + 1);
    lemma_indices_ok(virt, l, lo, hi);
    lemma_indices_ok(virt, l + 1, lo, hi);
    assert(!on_way(c, virt, l));
}

/// Growing further counts more words and frames as changed, none fewer.
proof fn lemma_grown_monotone(m: Seq<u64>, root: u64, virt: u64, l: int)
    ensures
        forall|w: int| #[trigger]
            link_slot(m, root, virt, l, w) ==> link_slot(m, root, virt, l + 1, w),
{
    reveal(link_slot);
    assert forall|w: int| #[trigger] link_slot(m, root, virt, l, w) implies link_slot(
        m,
        root,
        virt,
        l + 1,
        w,
    ) by {
        let k = choose|k: int|
            0 <= k < l && (#[trigger] table_at(m, root, indices(virt).take(k)) matches Some(t) && w
                == slot(t, indices(virt)[k])) && table_at(m, root, indices(virt).take(k + 1)) is None;
        assert(0 <= k < l + 1 && table_at(m, root, indices(virt).take(k)) is Some);
    }
}

/// The tables on the way are those on the way one step shorter, and the last.
proof fn lemma_way_step(m: Seq<u64>, m2: Seq<u64>, root: u64, virt: u64, l: int, t: u64)
    requires
        0 <= l,
        forall|k: int|
            1 <= k <= l ==> #[trigger] table_at(m2, root, indices(virt).take(k)) == table_at(
                m,
                root,
                indices(virt).take(k),
            ),
    ensures
        way_table(m2, root, virt, l + 1, t) <==> way_table(m, root, virt, l, t) || table_at(
            m2,
            root,
            indices(virt).take(l + 1),
        ) == Some(t),
{
    reveal(way_table);
    let path = indices(virt);
    if way_table(m, root, virt, l, t) {
        let k = choose|k: int|
            1 <= k <= l && #[trigger] table_at(m, root, path.take(k)) == Some(t);
        assert(table_at(m2, root, path.take(k)) == Some(t));
    }
    if way_table(m2, root, virt, l + 1, t) {
        let k = choose|k: int|
            1 <= k <= l + 1 && #[trigger] table_at(m2, root, path.take(k)) == Some(t);
        if k <= l {
            assert(table_at(m, root, path.take(k)) == Some(t));
        }
    }
}

proof fn lemma_grown_present(
    m0: Seq<u64>,
    m: Seq<u64>,
    v0: FrameView,
    v: FrameView,
    root: u64,
    virt: u64,
    l: int,
    flags: u64,
)
    requires
        0 <= l < 3,
        tree_wf(m0, root, half_lo(virt), half_hi(virt)),
        tables_grown(m0, m, v0, v, root, virt, l, flags),
        table_at(m, root, indices(virt).take(l + 1)) is Some,
    ensures
        tables_grown(m0, m, v0, v, root, virt, l + 1, flags),
{
    reveal(tables_added);
    reveal(words_kept);
    let path = indices(virt);
    let c = path.take(l + 1);
    let lo = half_lo(virt);
    let hi = half_hi(virt);
    lemma_indices_ok(virt, l + 1, lo, hi);
    assert(!on_way(c, virt, l));
    assert(table_at(m0, root, c) == table_at(m, root, c));
    assert forall|q: Seq<int>|
        path_ok(q, lo, hi) && (table_at(m0, root, q) is Some || !on_way(q, virt, l + 1)) implies (
    #[trigger] table_at(m, root, q)) == table_at(m0, root, q) by {
        if !(table_at(m0, root, q) is Some) {
            assert(!on_way(q, virt, l));
        }
    }
    assert forall|t: u64| #[trigger]
        v.avail(t) <==> v0.avail(t) && !way_table(m, root, virt, l + 1, t) by {
        lemma_way_step(m, m, root, virt, l, t);
        if v.avail(t) {
            assert(table_at(m, root, c) != Some(t));
        }
    }
    lemma_grown_monotone(m0, root, virt, l);
}

proof fn lemma_grown_link(
    m0: Seq<u64>,
    m: Seq<u64>,
    m2: Seq<u64>,
    v0: FrameView,
    v: FrameView,
    v2: FrameView,
    root: u64,
    virt: u64,
    l: int,
    f: u64,
    flags: u64,
)
    requires
        0 <= l < 3,
        tree_wf(m0, root, half_lo(virt), half_hi(virt)),
        tables_grown(m0, m, v0, v, root, virt, l, flags),
        table_at(m, root, indices(virt).take(l)) is Some,
        table_at(m0, root, indices(virt).take(l + 1)) is None,
        m2 == linked(
            m,
            table_at(m, root, indices(virt).take(l))->0,
            indices(virt)[l],
            f,
            pte_value(f, flags | PTE_PRESENT),
        ),
        frame_ok(m, f),
        v.avail(f),
        v2.owns(f),
        forall|q: u64| #[trigger] v2.avail(q) <==> v.avail(q) && q != f,
        forall|q: u64| #[trigger] v.owns(q) ==> v2.owns(q),
        v2.capacity() == v.capacity() - 1,
        tree_wf(m2, root, half_lo(virt), half_hi(virt)),
        tables_taken(m2, root, half_lo(virt), half_hi(virt), v2),
        table_at(m2, root, indices(virt).take(l + 1)) == Some(f),
        forall|q: Seq<int>|
            path_ok(q, half_lo(virt), half_hi(virt)) && q != indices(virt).take(l + 1)
                ==> #[trigger] table_at(m2, root, q) == table_at(m, root, q),
    ensures
        tables_grown(m0, m2, v0, v2, root, virt, l + 1, flags),
{
    reveal(tables_added);
    reveal(words_kept);
    let path = indices(virt);
    let c = path.take(l + 1);
    let p = path.take(l);
    let lo = half_lo(virt);
    let hi = half_hi(virt);
    let t = table_at(m, root, p)->0;
    lemma_indices_ok(virt, l, lo, hi);
    lemma_indices_ok(virt, l + 1, lo, hi);
    assert(c.len() == l + 1 && c =~= path.take(c.len() as int));
    assert(on_way(c, virt, l + 1));
    assert forall|q: Seq<int>|
        path_ok(q, lo, hi) && (table_at(m0, root, q) is Some || !on_way(q, virt, l + 1)) implies (
    #[trigger] table_at(m2, root, q)) == table_at(m0, root, q) by {
        assert(q != c);
        assert(table_at(m2, root, q) == table_at(m, root, q));
        if !(table_at(m0, root, q) is Some) {
            assert(!on_way(q, virt, l));
        }
    }
    assert forall|k: int| 0 <= k <= l implies #[trigger] table_at(m2, root, path.take(k))
        == table_at(m, root, path.take(k)) && table_at(m, root, path.take(k)) is Some by {
        lemma_indices_ok(virt, k, lo, hi);
        assert(path.take(k).len() == k);
        if k == 0 {
            lemma_root(m, root, path);
        }
    }
    assert forall|k: int| 1 <= k <= l + 1 implies (#[trigger] table_at(
        m2,
        root,
        path.take(k),
    ) matches Some(s) && (table_at(m0, root, path.take(k)) is None ==> v0.avail(s) && v2.owns(
        s,
    ))) by {
        if k <= l {
            assert(table_at(m, root, path.take(k)) is Some);
        }
    }
    assert forall|k: int|
        0 <= k < l + 1 && table_at(m0, root, path.take(k + 1)) is None implies m2[slot(
        (#[trigger] table_at(m2, root, path.take(k)))->0,
        path[k],
    )] == pte_value(table_at(m2, root, path.take(k + 1))->0, flags | PTE_PRESENT) by {
        lemma_indices_ok(virt, k, lo, hi);
        assert(table_at(m2, root, path.take(k)) == table_at(m, root, path.take(k)));
        let s = table_at(m, root, path.take(k))->0;
        let w = slot(s, path[k]);
        assert(frame_ok(m, s));
        if k < l {
            assert(table_at(m2, root, path.take(k + 1)) == table_at(m, root, path.take(k + 1)));
            assert(in_frame(w, s));
            if in_frame(w, f) {
                lemma_frames_apart(m, s, f, w);
                assert(false);
            }
            if w == slot(t, path[l]) {
                lemma_frames_apart(m, s, t, w);
                assert(path.take(k) == p);
                assert(path.take(k).len() == k);
            }
        }
    }
    assert forall|x: u64| #[trigger]
        v2.avail(x) <==> v0.avail(x) && !way_table(m2, root, virt, l + 1, x) by {
        lemma_way_step(m, m2, root, virt, l, x);
    }
    lemma_grown_monotone(m0, root, virt, l);
    assert forall|w: int| 0 <= w < m0.len() implies #[trigger] m2[w] == m0[w] || link_slot(
        m0,
        root,
        virt,
        l + 1,
        w,
    ) || in_free_frame(v0, w) by {
        if !link_slot(m0, root, virt, l, w) && m2[w] != m[w] {
            if in_frame(w, f) {
                reveal(in_free_frame);
                assert(v0.avail(f));
            } else {
                assert(w == slot(t, path[l]));
                if table_at(m0, root, p) is Some {
                    reveal(link_slot);
                    assert(table_at(m, root, p) == table_at(m0, root, p));
                    assert(0 <= l < l + 1);
                } else {
                    reveal(in_free_frame);
                    assert(l >= 1) by {
                        if l == 0 {
                            lemma_root(m0, root, path);
                        }
                    }
                    assert(v0.avail(t));
                    assert(in_frame(w, t));
                }
            }
        }
    }
}

// ---------------------------------------------------------------------------
// Mapping and unmapping
// ---------------------------------------------------------------------------

/// Writing an entry of a last-level table changes one page and no table.
proof fn lemma_leaf_write(m: Seq<u64>, root: u64, lo: int, hi: int, virt: u64, t: u64, e: u64)
    requires
        tree_wf(m, root, lo, hi),
        in_half(virt, lo, hi),
        table_at(m, root, indices(virt).take(3)) == Some(t),
    ensures
        ({
            let m2 = m.update(slot(t, indices(virt)[3]), e);
            &&& forall|q: Seq<int>|
                path_ok(q, lo, hi) ==> #[trigger] table_at(m2, root, q) == table_at(m, root, q)
            &&& tree_wf(m2, root, lo, hi)
            &&& leaf(m2, root, virt) == (if present(e) {
                Leaf::Page4K(e)
            } else {
                Leaf::Unmapped
            })
            &&& forall|x: u64|
                in_half(x, lo, hi) && indices(x) != indices(virt) ==> #[trigger] leaf(m2, root, x)
                    == leaf(m, root, x)
            &&& frame_ok(m, t)
        }),
{
    let path = indices(virt);
    let m2 = m.update(slot(t, path[3]), e);
    lemma_indices_ok(virt, 3, lo, hi);
    assert(frame_ok(m, t));
    assert forall|q: Seq<int>| path_ok(q, lo, hi) implies #[trigger] table_at(m2, root, q)
        == table_at(m, root, q) by {
        lemma_write_entry(m, root, lo, hi, path.take(3), t, path[3], e, q);
    }
    assert forall|x: u64| in_half(x, lo, hi) && indices(x) != path implies #[trigger] leaf(
        m2,
        root,
        x,
    ) == leaf(m, root, x) by {
        lemma_entry_apart(m, root, lo, hi, path.take(3), t, path[3], e, x, 2);
        lemma_entry_apart(m, root, lo, hi, path.take(3), t, path[3], e, x, 3);
        if indices(x).take(3) == path.take(3) && indices(x)[3] == path[3] {
            lemma_indices_split(x, virt, 3);
        }
    }
}

/// Two addresses with the same first entries and the same last one have all the same.
proof fn lemma_indices_split(x: u64, y: u64, l: int)
    requires
        l == 3,
        indices(x).take(l) == indices(y).take(l),
        indices(x)[l] == indices(y)[l],
    ensures
        indices(x) == indices(y),
{
    let a = indices(x);
    let b = indices(y);
    assert forall|i: int| 0 <= i < 4 implies a[i] == b[i] by {
        if i < 3 {
            assert(a.take(3)[i] == b.take(3)[i]);
        }
    }
    assert(a =~= b);
}

/// Writing an entry changes what is read on the way to an address only at that entry.
proof fn lemma_entry_apart(
    m: Seq<u64>,
    root: u64,
    lo: int,
    hi: int,
    p: Seq<int>,
    t: u64,
    i: int,
    e: u64,
    x: u64,
    l: int,
)
    requires
        tree_wf(m, root, lo, hi),
        path_ok(p, lo, hi),
        table_at(m, root, p) == Some(t),
        0 <= i < 512,
        in_half(x, lo, hi),
        0 <= l <= 3,
        table_at(m.update(slot(t, i), e), root, indices(x).take(l)) == table_at(
            m,
            root,
            indices(x).take(l),
        ),
    ensures
        indices(x).take(l) == p && indices(x)[l] == i || entry_at(
            m.update(slot(t, i), e),
            root,
            x,
            l,
        ) == entry_at(m, root, x, l),
{
    lemma_indices_ok(x, l, lo, hi);
    if let Some(s) = table_at(m, root, indices(x).take(l)) {
        let w = slot(s, indices(x)[l]);
        assert(frame_ok(m, s) && frame_ok(m, t));
        if w == slot(t, i) {
            assert(in_frame(w, s) && in_frame(w, t));
            lemma_frames_apart(m, s, t, w);
        }
    }
}

/// Map a 4 KiB page: `virt` to `phys` with the given flags. Tables are added as needed.
/// Where there are not enough frames for them the result is false and nothing changes.
pub fn map_4k(
    fa: &mut FrameAllocator,
    mem: &mut Memory,
    pml4_phys: u64,
    virt: u64,
    phys: u64,
    flags: u64,
) -> (ok: bool)
    requires
        old(fa).wf(),
        old(fa)@.within(old(mem)@.len()),
        tree_wf(old(mem)@, pml4_phys, half_lo(virt), half_hi(virt)),
        tables_taken(old(mem)@, pml4_phys, half_lo(virt), half_hi(virt), old(fa)@),
        !(leaf(old(mem)@, pml4_phys, virt) is Page2M),
        // W^X: no page may be both writable and executable
        !(writable(flags) && executable(flags)),
    ensures
        final(fa).wf(),
        final(fa)@.within(final(mem)@.len()),
        ok == (old(fa)@.capacity() >= missing_tables(old(mem)@, pml4_phys, virt, 3)),
        !ok ==> final(mem)@ == old(mem)@ && final(fa)@ == old(fa)@,
        ok ==> mapped_4k(
            old(mem)@,
            final(mem)@,
            old(fa)@,
            final(fa)@,
            pml4_phys,
            virt,
            pte_value(phys, flags | PTE_PRESENT),
        ),
{
    let ghost m0 = mem@;
    let ghost v0 = fa@;
    let ghost path = indices(virt);
    let ghost lo = half_lo(virt);
    let ghost hi = half_hi(virt);
    let missing: u64 = count_missing(mem, pml4_phys, virt, 3);
    if !has_frames(fa, missing) {
        return false;
    }
    proof {
        lemma_parent_flags();
    }
    let parent_flags: u64 = PARENT_FLAGS;
    let pt: u64 = walk(fa, mem, pml4_phys, virt, 3, parent_flags);
    let ghost m = mem@;
    proof {
        reveal(tables_added);
        lemma_indices_ok(virt, 3, lo, hi);
        assert(frame_ok(m, pt));
    }
    let mut entry = PageTableEntry::empty();
    entry.set(phys, flags | PTE_PRESENT);
    mem.write(pt + 8 * pt_index(virt), entry.0);
    proof {
        lemma_entry_bits(phys, flags);
        lemma_leaf_write(m, pml4_phys, lo, hi, virt, pt, entry.0);
        lemma_mapped_4k(m0, m, mem@, v0, fa@, pml4_phys, virt, pt, entry.0);
    }
    true
}

proof fn lemma_parent_flags()
    ensures
        PARENT_FLAGS & PTE_ADDR_MASK == 0,
        PARENT_FLAGS_2M & PTE_ADDR_MASK == 0,
        !huge(PARENT_FLAGS),
        !huge(PARENT_FLAGS_2M),
{
    assert(7u64 & 0x000F_FFFF_FFFF_F000 == 0 && 3u64 & 0x000F_FFFF_FFFF_F000 == 0 && 7u64 & 0x80
        == 0 && 3u64 & 0x80 == 0) by (bit_vector);
}

proof fn lemma_mapped_4k(
    m0: Seq<u64>,
    m: Seq<u64>,
    m2: Seq<u64>,
    v0: FrameView,
    v: FrameView,
    root: u64,
    virt: u64,
    pt: u64,
    e: u64,
)
    requires
        tables_grown(m0, m, v0, v, root, virt, 3, PARENT_FLAGS),
        same_leaves(m0, m, root, half_lo(virt), half_hi(virt)),
        table_at(m, root, indices(virt).take(3)) == Some(pt),
        m2 == m.update(slot(pt, indices(virt)[3]), e),
        frame_ok(m, pt),
        present(e),
        tree_wf(m2, root, half_lo(virt), half_hi(virt)),
        forall|q: Seq<int>|
            path_ok(q, half_lo(virt), half_hi(virt)) ==> #[trigger] table_at(m2, root, q)
                == table_at(m, root, q),
        leaf(m2, root, virt) == Leaf::Page4K(e),
        forall|x: u64|
            in_half(x, half_lo(virt), half_hi(virt)) && indices(x) != indices(virt)
                ==> #[trigger] leaf(m2, root, x) == leaf(m, root, x),
    ensures
        mapped_4k(m0, m2, v0, v, root, virt, e),
{
    reveal(mapped_4k);
    let path = indices(virt);
    let lo = half_lo(virt);
    let hi = half_hi(virt);
    lemma_indices_ok(virt, 3, lo, hi);
    assert forall|l: int| 0 <= l <= 3 implies #[trigger] table_at(m2, root, path.take(l))
        == table_at(m, root, path.take(l)) by {
        lemma_indices_ok(virt, l, lo, hi);
    }
    assert(tables_added(m0, m2, v0, v, root, virt, 3, PARENT_FLAGS)) by {
        reveal(tables_added);
        assert forall|t: u64| #[trigger]
            v.avail(t) <==> v0.avail(t) && !way_table(m2, root, virt, 3, t) by {
            lemma_way_step(m, m2, root, virt, 2, t);
            lemma_way_step(m, m, root, virt, 2, t);
        }
        assert forall|l: int|
            0 <= l < 3 && table_at(m0, root, path.take(l + 1)) is None implies m2[slot(
            (#[trigger] table_at(m2, root, path.take(l)))->0,
            path[l],
        )] == pte_value(
            table_at(m2, root, path.take(l + 1))->0,
            PARENT_FLAGS | PTE_PRESENT,
        ) by {
            lemma_indices_ok(virt, l, lo, hi);
            if l == 0 {
                lemma_root(m, root, path);
            }
            assert(table_at(m, root, path.take(l)) is Some);
            let s = table_at(m, root, path.take(l))->0;
            assert(frame_ok(m, s));
            let w = slot(s, path[l]);
            assert(in_frame(w, s));
            if w == slot(pt, path[3]) {
                assert(in_frame(w, pt));
                lemma_frames_apart(m, s, pt, w);
                assert(path.take(l) == path.take(3));
                assert(path.take(l).len() == l);
            }
        }
    }
    assert forall|x: u64| in_half(x, lo, hi) && indices(x) != path implies #[trigger] leaf(
        m2,
        root,
        x,
    ) == leaf(m0, root, x) by {
        reveal(same_leaves);
        assert(leaf(m2, root, x) == leaf(m, root, x));
    }
    assert forall|w: int| 0 <= w < m0.len() implies #[trigger] m2[w] == m0[w] || link_slot(
        m0,
        root,
        virt,
        3,
        w,
    ) || in_free_frame(v0, w) || (table_at(m0, root, path.take(3)) matches Some(t) && w == slot(
        t,
        path[3],
    )) by {
        reveal(words_kept);
        reveal(tables_added);
        if w == slot(pt, path[3]) {
            if table_at(m0, root, path.take(3)) is Some {
                assert(table_at(m, root, path.take(3)) == table_at(m0, root, path.take(3)));
            } else {
                reveal(in_free_frame);
                assert(v0.avail(pt));
                assert(in_frame(w, pt));
            }
        } else {
            assert(m2[w] == m[w]);
        }
    }
}

/// What a virtual address is mapped to.
pub fn translate(mem: &Memory, pml4_phys: u64, virt: u64) -> (r: Leaf)
    requires
        tree_wf(mem@, pml4_phys, half_lo(virt), half_hi(virt)),
    ensures
        r == leaf(mem@, pml4_phys, virt),
{
    let ghost m = mem@;
    let ghost path = indices(virt);
    proof {
        lemma_root(m, pml4_phys, path);
    }
    let pdpt: u64 = match next_table(mem, pml4_phys, virt, pml4_phys, 0) {
        Some(t) => t,
        None => {
            proof {
                lemma_missing_below(m, pml4_phys, virt, 1, 2);
                lemma_missing_below(m, pml4_phys, virt, 1, 3);
            }
            return Leaf::Unmapped;
        },
    };
    let pd: u64 = match next_table(mem, pml4_phys, virt, pdpt, 1) {
        Some(t) => t,
        None => {
            proof {
                lemma_missing_below(m, pml4_phys, virt, 2, 3);
            }
            return Leaf::Unmapped;
        },
    };
    proof {
        lemma_table_frame(m, pml4_phys, half_lo(virt), half_hi(virt), virt, 2, pd);
        lemma_step(m, pml4_phys, path, 2);
    }
    let entry = entry_of(mem, pd, virt, 2);
    if !entry.is_present() {
        return Leaf::Unmapped;
    }
    if entry.0 & PTE_PAGE_SIZE_2M != 0 {
        return Leaf::Page2M(entry.0);
    }
    let table: u64 = entry.phys_addr();
    proof {
        lemma_table_frame(m, pml4_phys, half_lo(virt), half_hi(virt), virt, 3, table);
    }
    let entry = entry_of(mem, table, virt, 3);
    if entry.is_present() {
        Leaf::Page4K(entry.0)
    } else {
        Leaf::Unmapped
    }
}

/// Unmap a 4 KiB page. The result is the physical address that was mapped.
#[verifier::rlimit(30)]
pub fn unmap_4k(mem: &mut Memory, pml4_phys: u64, virt: u64) -> (r: Option<u64>)
    requires
        tree_wf(old(mem)@, pml4_phys, half_lo(virt), half_hi(virt)),
        !(leaf(old(mem)@, pml4_phys, virt) is Page2M),
    ensures
        match leaf(old(mem)@, pml4_phys, virt) {
            Leaf::Page4K(e) => {
                let path = indices(virt);
                let pt = table_at(old(mem)@, pml4_phys, path.take(3))->0;
                &&& r == Some(pte_addr(e))
                &&& table_at(old(mem)@, pml4_phys, path.take(3)) == Some(pt)
                &&& final(mem)@ == old(mem)@.update(slot(pt, path[3]), 0)
                &&& leaf(final(mem)@, pml4_phys, virt) is Unmapped
                &&& tree_wf(final(mem)@, pml4_phys, half_lo(virt), half_hi(virt))
                &&& forall|q: Seq<int>|
                    path_ok(q, half_lo(virt), half_hi(virt)) ==> #[trigger] table_at(
                        final(mem)@,
                        pml4_phys,
                        q,
                    ) == table_at(old(mem)@, pml4_phys, q)
                &&& forall|x: u64|
                    in_half(x, half_lo(virt), half_hi(virt)) && indices(x) != path
                        ==> #[trigger] leaf(final(mem)@, pml4_phys, x) == leaf(
                        old(mem)@,
                        pml4_phys,
                        x,
                    )
            },
            _ => r is None && final(mem)@ == old(mem)@,
        },
{
    let ghost m = mem@;
    let ghost path = indices(virt);
    let ghost lo = half_lo(virt);
    let ghost hi = half_hi(virt);
    proof {
        lemma_root(m, pml4_phys, path);
    }
    let pdpt: u64 = match next_table(mem, pml4_phys, virt, pml4_phys, 0) {
        Some(t) => t,
        None => {
            proof {
                lemma_missing_below(m, pml4_phys, virt, 1, 3);
            }
            return None;
        },
    };
    let pd: u64 = match next_table(mem, pml4_phys, virt, pdpt, 1) {
        Some(t) => t,
        None => {
            proof {
                lemma_missing_below(m, pml4_phys, virt, 2, 3);
            }
            return None;
        },
    };
    let table: u64 = match next_table(mem, pml4_phys, virt, pd, 2) {
        Some(t) => t,
        None => {
            return None;
        },
    };
    proof {
        lemma_indices_ok(virt, 3, lo, hi);
    }
    let mut entry = PageTableEntry(mem.read(table + 8 * pt_index(virt)));
    assert(entry_at(m, pml4_phys, virt, 3) == Some(entry.0));
    if !entry.is_present() {
        return None;
    }
    let old_phys: u64 = entry.phys_addr();
    entry.clear();
    mem.write(table + 8 * pt_index(virt), entry.0);
    proof {
        lemma_entry_bits(0, 0);
        lemma_leaf_write(m, pml4_phys, lo, hi, virt, table, 0);
    }
    Some(old_phys)
}

/// Writing a 2 MiB page into a page directory changes that page, and drops the table
/// that held smaller pages for the same addresses.
proof fn lemma_huge_write(m: Seq<u64>, root: u64, lo: int, hi: int, virt: u64, pd: u64, e: u64)
    requires
        tree_wf(m, root, lo, hi),
        in_half(virt, lo, hi),
        table_at(m, root, indices(virt).take(2)) == Some(pd),
        present(e),
        huge(e),
    ensures
        ({
            let m2 = m.update(slot(pd, indices(virt)[2]), e);
            &&& forall|q: Seq<int>|
                path_ok(q, lo, hi) && q != indices(virt).take(3) ==> #[trigger] table_at(
                    m2,
                    root,
                    q,
                ) == table_at(m, root, q)
            &&& table_at(m2, root, indices(virt).take(3)) is None
            &&& tree_wf(m2, root, lo, hi)
            &&& forall|x: u64|
                in_half(x, lo, hi) ==> #[trigger] leaf(m2, root, x) == (if indices(x).take(3)
                    == indices(virt).take(3) {
                    Leaf::Page2M(e)
                } else {
                    leaf(m, root, x)
                })
            &&& frame_ok(m, pd)
        }),
{
    let path = indices(virt);
    let p = path.take(2);
    let c = path.take(3);
    let m2 = m.update(slot(pd, path[2]), e);
    lemma_indices_ok(virt, 2, lo, hi);
    lemma_indices_ok(virt, 3, lo, hi);
    assert(frame_ok(m, pd));
    assert forall|q: Seq<int>| path_ok(q, lo, hi) && q != c implies #[trigger] table_at(m2, root, q)
        == table_at(m, root, q) by {
        if q.len() > 2 && q.take(2) == p && q[2] == path[2] {
            assert forall|i: int| 0 <= i < 3 implies q[i] == c[i] by {
                if i < 2 {
                    assert(q.take(2)[i] == p[i]);
                }
            }
            assert(q =~= c);
        }
        lemma_write_entry(m, root, lo, hi, p, pd, path[2], e, q);
    }
    assert(p != c) by {
        assert(p.len() != c.len());
    }
    lemma_step(m2, root, path, 2);
    assert forall|q: Seq<int>, r: Seq<int>|
        path_ok(q, lo, hi) && path_ok(r, lo, hi) && table_at(m2, root, q) is Some && (
        #[trigger] table_at(m2, root, q)) == (#[trigger] table_at(m2, root, r)) implies q == r by {
        assert(q != c && r != c);
        assert(table_at(m, root, q) == table_at(m, root, r));
    }
    assert forall|x: u64| in_half(x, lo, hi) implies #[trigger] leaf(m2, root, x) == (if indices(
        x,
    ).take(3) == c {
        Leaf::Page2M(e)
    } else {
        leaf(m, root, x)
    }) by {
        let y = indices(x);
        lemma_indices_ok(x, 2, lo, hi);
        lemma_indices_ok(x, 3, lo, hi);
        assert(y.take(2).len() == 2);
        assert(y.take(2) != c);
        if y.take(3) == c {
            assert(y.take(3)[2] == c[2]);
            assert(y.take(2) =~= p) by {
                assert(y.take(3)[0] == c[0] && y.take(3)[1] == c[1]);
            }
        } else {
            lemma_entry_apart(m, root, lo, hi, p, pd, path[2], e, x, 2);
            lemma_entry_apart(m, root, lo, hi, p, pd, path[2], e, x, 3);
            assert(y.take(3) != p) by {
                assert(y.take(3).len() == 3);
            }
            if y.take(2) == p && y[2] == path[2] {
                assert(y.take(3) =~= c) by {
                    assert(y.take(2)[0] == p[0] && y.take(2)[1] == p[1]);
                }
            }
        }
    }
}

/// Map a 2 MiB page at the page directory: `virt` to `phys` with the given flags. Tables
/// are added as needed. Where there are not enough frames for them the result is false
/// and nothing changes.
pub fn map_2m(
    fa: &mut FrameAllocator,
    mem: &mut Memory,
    pml4_phys: u64,
    virt: u64,
    phys: u64,
    flags: u64,
) -> (ok: bool)
    requires
        old(fa).wf(),
        old(fa)@.within(old(mem)@.len()),
        tree_wf(old(mem)@, pml4_phys, half_lo(virt), half_hi(virt)),
        tables_taken(old(mem)@, pml4_phys, half_lo(virt), half_hi(virt), old(fa)@),
    ensures
        final(fa).wf(),
        final(fa)@.within(final(mem)@.len()),
        ok == (old(fa)@.capacity() >= missing_tables(old(mem)@, pml4_phys, virt, 2)),
        !ok ==> final(mem)@ == old(mem)@ && final(fa)@ == old(fa)@,
        ok ==> mapped_2m(
            old(mem)@,
            final(mem)@,
            old(fa)@,
            final(fa)@,
            pml4_phys,
            virt,
            pte_value(phys, flags | PTE_PRESENT | PTE_PAGE_SIZE_2M),
        ),
{
    let ghost m0 = mem@;
    let ghost v0 = fa@;
    let ghost path = indices(virt);
    let ghost lo = half_lo(virt);
    let ghost hi = half_hi(virt);
    let missing: u64 = count_missing(mem, pml4_phys, virt, 2);
    if !has_frames(fa, missing) {
        return false;
    }
    proof {
        lemma_parent_flags();
    }
    let parent_flags: u64 = PARENT_FLAGS_2M;
    let pd: u64 = walk(fa, mem, pml4_phys, virt, 2, parent_flags);
    let ghost m = mem@;
    proof {
        reveal(tables_added);
        lemma_indices_ok(virt, 2, lo, hi);
        assert(frame_ok(m, pd));
    }
    let mut entry = PageTableEntry::empty();
    entry.set(phys, flags | PTE_PRESENT | PTE_PAGE_SIZE_2M);
    mem.write(pd + 8 * pd_index(virt), entry.0);
    proof {
        lemma_entry_bits(phys, flags);
        lemma_huge_write(m, pml4_phys, lo, hi, virt, pd, entry.0);
        lemma_mapped_2m(m0, m, mem@, v0, fa@, pml4_phys, virt, pd, entry.0);
    }
    true
}

proof fn lemma_mapped_2m(
    m0: Seq<u64>,
    m: Seq<u64>,
    m2: Seq<u64>,
    v0: FrameView,
    v: FrameView,
    root: u64,
    virt: u64,
    pd: u64,
    e: u64,
)
    requires
        tables_grown(m0, m, v0, v, root, virt, 2, PARENT_FLAGS_2M),
        same_leaves(m0, m, root, half_lo(virt), half_hi(virt)),
        table_at(m, root, indices(virt).take(2)) == Some(pd),
        m2 == m.update(slot(pd, indices(virt)[2]), e),
        frame_ok(m, pd),
        tree_wf(m2, root, half_lo(virt), half_hi(virt)),
        forall|q: Seq<int>|
            path_ok(q, half_lo(virt), half_hi(virt)) && q != indices(virt).take(3)
                ==> #[trigger] table_at(m2, root, q) == table_at(m, root, q),
        table_at(m2, root, indices(virt).take(3)) is None,
        forall|x: u64|
            in_half(x, half_lo(virt), half_hi(virt)) ==> #[trigger] leaf(m2, root, x) == (
            if indices(x).take(3) == indices(virt).take(3) {
                Leaf::Page2M(e)
            } else {
                leaf(m, root, x)
            }),
    ensures
        mapped_2m(m0, m2, v0, v, root, virt, e),
{
    reveal(mapped_2m);
    reveal(tables_added);
    let path = indices(virt);
    let lo = half_lo(virt);
    let hi = half_hi(virt);
    assert forall|l: int| 0 <= l <= 2 implies #[trigger] table_at(m2, root, path.take(l))
        == table_at(m, root, path.take(l)) by {
        lemma_indices_ok(virt, l, lo, hi);
        assert(path.take(l).len() != path.take(3).len());
    }
    assert forall|t: u64| #[trigger]
        v.avail(t) <==> v0.avail(t) && !way_table(m2, root, virt, 2, t) by {
        lemma_way_step(m, m2, root, virt, 1, t);
        lemma_way_step(m, m, root, virt, 1, t);
    }
    assert forall|l: int|
        0 <= l < 2 && table_at(m0, root, path.take(l + 1)) is None implies m2[slot(
        (#[trigger] table_at(m2, root, path.take(l)))->0,
        path[l],
    )] == pte_value(
        table_at(m2, root, path.take(l + 1))->0,
        PARENT_FLAGS_2M | PTE_PRESENT,
    ) by {
        lemma_indices_ok(virt, l, lo, hi);
        lemma_indices_ok(virt, 2, lo, hi);
        if l == 0 {
            lemma_root(m, root, path);
        }
        assert(table_at(m, root, path.take(l)) is Some);
        let s = table_at(m, root, path.take(l))->0;
        assert(frame_ok(m, s));
        let w = slot(s, path[l]);
        assert(in_frame(w, s));
        if w == slot(pd, path[2]) {
            assert(in_frame(w, pd));
            lemma_frames_apart(m, s, pd, w);
            assert(path.take(l) == path.take(2));
            assert(path.take(l).len() == l);
        }
        assert(table_at(m2, root, path.take(l + 1)) == table_at(m, root, path.take(l + 1)));
    }
    assert forall|x: u64| in_half(x, lo, hi) implies #[trigger] leaf(m2, root, x) == (if indices(
        x,
    ).take(3) == path.take(3) {
        Leaf::Page2M(e)
    } else {
        leaf(m0, root, x)
    }) by {
        reveal(same_leaves);
        assert(leaf(m, root, x) == leaf(m0, root, x));
    }
    assert forall|w: int| 0 <= w < m0.len() implies #[trigger] m2[w] == m0[w] || link_slot(
        m0,
        root,
        virt,
        2,
        w,
    ) || in_free_frame(v0, w) || (table_at(m0, root, path.take(2)) matches Some(t) && w == slot(
        t,
        path[2],
    )) by {
        reveal(words_kept);
        if w == slot(pd, path[2]) {
            lemma_indices_ok(virt, 2, lo, hi);
            if table_at(m0, root, path.take(2)) is Some {
                assert(table_at(m, root, path.take(2)) == table_at(m0, root, path.take(2)));
            } else {
                reveal(in_free_frame);
                assert(v0.avail(pd));
                assert(in_frame(w, pd));
            }
        } else {
            assert(m2[w] == m[w]);
        }
    }
}

/// Whether word `w` lies in a table of the tree.
pub open spec fn in_table(m: Seq<u64>, root: u64, lo: int, hi: int, w: int) -> bool {
    exists|p: Seq<int>|
        path_ok(p, lo, hi) && (#[trigger] table_at(m, root, p) matches Some(t) && in_frame(w, t))
}

/// The number of missing tables is the same where the tables are.
pub proof fn lemma_missing_same(m: Seq<u64>, m2: Seq<u64>, root: u64, virt: u64)
    requires
        forall|l: int|
            1 <= l <= 3 ==> #[trigger] table_at(m2, root, indices(virt).take(l)) == table_at(
                m,
                root,
                indices(virt).take(l),
            ),
    ensures
        missing_tables(m2, root, virt, 3) == missing_tables(m, root, virt, 3),
{
    reveal_with_fuel(missing_tables, 4);
}

/// With the first two tables there, at most the last one is missing.
pub proof fn lemma_missing_last(m: Seq<u64>, root: u64, virt: u64)
    requires
        table_at(m, root, indices(virt).take(1)) is Some,
        table_at(m, root, indices(virt).take(2)) is Some,
    ensures
        missing_tables(m, root, virt, 3) == (if table_at(m, root, indices(virt).take(3)) is None {
            1int
        } else {
            0
        }),
{
    reveal_with_fuel(missing_tables, 4);
}

/// A word that a 4 KiB mapping may change lies in a table.
pub proof fn lemma_changed_in_table(m: Seq<u64>, root: u64, lo: int, hi: int, virt: u64, w: int)
    requires
        tree_wf(m, root, lo, hi),
        in_half(virt, lo, hi),
        link_slot(m, root, virt, 3, w) || (table_at(m, root, indices(virt).take(3)) matches Some(t)
            && w == slot(t, indices(virt)[3])),
    ensures
        in_table(m, root, lo, hi, w),
{
    let path = indices(virt);
    if link_slot(m, root, virt, 3, w) {
        reveal(link_slot);
        let l = choose|l: int|
            0 <= l < 3 && (#[trigger] table_at(m, root, path.take(l)) matches Some(t) && w == slot(
                t,
                path[l],
            )) && table_at(m, root, path.take(l + 1)) is None;
        lemma_indices_ok(virt, l, lo, hi);
        assert(in_frame(w, table_at(m, root, path.take(l))->0));
    } else {
        lemma_indices_ok(virt, 3, lo, hi);
        assert(in_frame(w, table_at(m, root, path.take(3))->0));
    }
}

/// The entry of the root that a mapping may change is the one for its address.
pub proof fn lemma_changed_in_root(m: Seq<u64>, root: u64, lo: int, hi: int, virt: u64, w: int)
    requires
        tree_wf(m, root, lo, hi),
        in_half(virt, lo, hi),
        in_frame(w, root),
        link_slot(m, root, virt, 3, w) || (table_at(m, root, indices(virt).take(3)) matches Some(t)
            && w == slot(t, indices(virt)[3])),
    ensures
        slot(root, lo) <= w < slot(root, hi),
{
    let path = indices(virt);
    let none = path.take(0);
    lemma_root(m, root, path);
    lemma_indices_ok(virt, 0, lo, hi);
    lemma_indices_ok(virt, 3, lo, hi);
    if link_slot(m, root, virt, 3, w) {
        reveal(link_slot);
        let l = choose|l: int|
            0 <= l < 3 && (#[trigger] table_at(m, root, path.take(l)) matches Some(t) && w == slot(
                t,
                path[l],
            )) && table_at(m, root, path.take(l + 1)) is None;
        let t = table_at(m, root, path.take(l))->0;
        lemma_indices_ok(virt, l, lo, hi);
        assert(frame_ok(m, t) && frame_ok(m, root));
        lemma_frames_apart(m, t, root, w);
        assert(path.take(l) == none);
        assert(path.take(l).len() == l);
    } else {
        let t = table_at(m, root, path.take(3))->0;
        assert(frame_ok(m, t) && frame_ok(m, root));
        lemma_frames_apart(m, t, root, w);
        assert(path.take(3) == none);
        assert(path.take(3).len() == 3);
    }
}

/// Where no word of a table changes, neither do the tables nor what they map.
pub proof fn lemma_same_tree(m: Seq<u64>, m2: Seq<u64>, root: u64, lo: int, hi: int)
    requires
        tree_wf(m, root, lo, hi),
        m2.len() == m.len(),
        forall|t: u64, w: int|
            is_table(m, root, lo, hi, t) && #[trigger] in_frame(w, t) ==> m2[w] == m[w],
    ensures
        tree_wf(m2, root, lo, hi),
        forall|q: Seq<int>|
            path_ok(q, lo, hi) ==> #[trigger] table_at(m2, root, q) == table_at(m, root, q),
        same_leaves(m, m2, root, lo, hi),
{
    assert forall|q: Seq<int>| path_ok(q, lo, hi) implies #[trigger] table_at(m2, root, q)
        == table_at(m, root, q) by {
        lemma_outside(m, m2, root, lo, hi, q);
    }
    reveal(same_leaves);
    assert forall|v: u64| in_half(v, lo, hi) implies #[trigger] leaf(m2, root, v) == leaf(
        m,
        root,
        v,
    ) by {
        assert forall|l: int| 2 <= l <= 3 implies #[trigger] entry_at(m2, root, v, l) == entry_at(
            m,
            root,
            v,
            l,
        ) by {
            lemma_indices_ok(v, l, lo, hi);
            if let Some(t) = table_at(m, root, indices(v).take(l)) {
                assert(is_table(m, root, lo, hi, t));
                assert(in_frame(slot(t, indices(v)[l]), t));
            }
        }
        assert(entry_at(m2, root, v, 2) == entry_at(m, root, v, 2));
        assert(entry_at(m2, root, v, 3) == entry_at(m, root, v, 3));
    }
}

/// Whether there is a table for the last step to `virt`.
pub proof fn lemma_none_missing(m: Seq<u64>, root: u64, virt: u64)
    ensures
        missing_tables(m, root, virt, 3) == 0 <==> table_at(
            m,
            root,
            indices(virt).take(3),
        ) is Some,
{
    lemma_missing_monotone(m, root, virt, 2, 3);
    reveal_with_fuel(missing_tables, 4);
    if table_at(m, root, indices(virt).take(3)) is Some {
        if table_at(m, root, indices(virt).take(1)) is None {
            lemma_missing_below(m, root, virt, 1, 3);
        }
        if table_at(m, root, indices(virt).take(2)) is None {
            lemma_missing_below(m, root, virt, 2, 3);
        }
    }
}

// ---------------------------------------------------------------------------
// Laws
// ---------------------------------------------------------------------------

/// No page of the half is both writable and executable.
pub open spec fn write_xor_execute(m: Seq<u64>, root: u64, lo: int, hi: int) -> bool {
    forall|x: u64|
        in_half(x, lo, hi) ==> (#[trigger] leaf(m, root, x) matches Leaf::Page4K(e) ==> !(writable(e)
            && executable(e)))
}

/// Mapping a page keeps every page either not writable or not executable.
pub proof fn law_write_xor_execute(
    m: Seq<u64>,
    m2: Seq<u64>,
    v: FrameView,
    v2: FrameView,
    root: u64,
    virt: u64,
    phys: u64,
    flags: u64,
)
    requires
        write_xor_execute(m, root, half_lo(virt), half_hi(virt)),
        !(writable(flags) && executable(flags)),
        mapped_4k(m, m2, v, v2, root, virt, pte_value(phys, flags | PTE_PRESENT)),
    ensures
        write_xor_execute(m2, root, half_lo(virt), half_hi(virt)),
{
    reveal(mapped_4k);
    lemma_entry_bits(phys, flags);
    assert forall|x: u64|
        in_half(x, half_lo(virt), half_hi(virt)) implies (#[trigger] leaf(m2, root, x) matches Leaf::Page4K(e)
        ==> !(writable(e) && executable(e))) by {
        if indices(x) == indices(virt) {
            assert(leaf(m2, root, x) == leaf(m2, root, virt));
        } else {
            assert(leaf(m2, root, x) == leaf(m, root, x));
        }
    }
}

/// The address that a page was mapped to, as far as an entry can hold it, is what unmapping
/// gives back, and what was there before mapping an unmapped page is there again after unmapping it: nothing.
pub proof fn law_map_then_unmap(
    m: Seq<u64>,
    m2: Seq<u64>,
    v: FrameView,
    v2: FrameView,
    root: u64,
    virt: u64,
    phys: u64,
    flags: u64,
)
    requires
        flags & PTE_ADDR_MASK == 0,
        leaf(m, root, virt) is Unmapped,
        mapped_4k(m, m2, v, v2, root, virt, pte_value(phys, flags | PTE_PRESENT)),
    ensures
        leaf(m2, root, virt) matches Leaf::Page4K(e) && pte_addr(e) == phys & PTE_ADDR_MASK,
        ({
            let pt = table_at(m2, root, indices(virt).take(3))->0;
            same_leaves(
                m,
                m2.update(slot(pt, indices(virt)[3]), 0),
                root,
                half_lo(virt),
                half_hi(virt),
            )
        }),
{
    reveal(mapped_4k);
    reveal(tables_added);
    reveal(same_leaves);
    let lo = half_lo(virt);
    let hi = half_hi(virt);
    lemma_present_flag(flags);
    law_entry_round_trip(phys, flags | PTE_PRESENT);
    lemma_entry_bits(phys, flags);
    let pt = table_at(m2, root, indices(virt).take(3))->0;
    assert(table_at(m2, root, indices(virt).take(3)) is Some);
    lemma_leaf_write(m2, root, lo, hi, virt, pt, 0);
    let m3 = m2.update(slot(pt, indices(virt)[3]), 0);
    assert forall|x: u64| in_half(x, lo, hi) implies #[trigger] leaf(m3, root, x) == leaf(
        m,
        root,
        x,
    ) by {
        if indices(x) == indices(virt) {
            assert(leaf(m3, root, x) == leaf(m3, root, virt));
            assert(leaf(m, root, x) == leaf(m, root, virt));
        } else {
            assert(leaf(m3, root, x) == leaf(m2, root, x));
        }
    }
}

/// Through the direct map and back is the same address, both ways.
pub proof fn law_direct_map_round_trip(map: AddressMap, a: int)
    ensures
        direct_phys(map, direct_virt(map, a)) == a,
        direct_virt(map, direct_phys(map, a)) == a,
{
}

} // verus!
