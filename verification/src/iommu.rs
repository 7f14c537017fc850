//! IOMMU set-up: finding the remapping units in the firmware's DMAR table, and the order in
//! which their registers are read and written to switch translation on. All context entries
//! start out as zero, so all DMA is blocked.

use vstd::prelude::*;

use crate::acpi::{in_memory, u64_at};
use crate::frame::{alloc_frame_zeroed, has_frames, FrameAllocator};
use crate::kernel::{kernel_ok, lemma_kernel_alloc, lemma_kernel_root, lemma_kernel_window};
use crate::mem::{byte_at, frame_ok, in_frame, is_zero_frame, Memory};
use crate::shard::{isolated, ShardTable};
use crate::vmm::{in_half, leaf, pte_value, same_leaves, Leaf, PAGE_4K};
use crate::window::{apart, map_mmio, mmio_fits, mmio_needs, page, pages_for, window_mapped};
use crate::window::{window_missing, MmioWindow, MMIO_FLAGS, MMIO_VIRT_BASE};

verus! {

/// Type of the remapping structures that describe a hardware unit.
pub const DMAR_TYPE_DRHD: u64 = 0;

/// Where the remapping structures start in the table.
pub const DMAR_STRUCTURES: u64 = 48;

// Registers of a unit, relative to its base.
pub const REG_VER: u64 = 0x000;

pub const REG_CAP: u64 = 0x008;

pub const REG_ECAP: u64 = 0x010;

pub const REG_GCMD: u64 = 0x018;

pub const REG_GSTS: u64 = 0x01C;

pub const REG_RTADDR: u64 = 0x020;

/// Command: take over the root table pointer. The same bit of the status says that it was.
pub const GCMD_SRTP: u32 = 0x4000_0000;

/// Command: enable translation. The same bit of the status says that it is.
pub const GCMD_TE: u32 = 0x8000_0000;

/// How often a status is read before the unit counts as failed.
pub const MAX_POLLS: u32 = 100_000;

/// A remapping hardware unit.
#[derive(Debug, Clone, Copy, PartialEq, Eq, Structural)]
pub struct Drhd {
    pub flags: u8,
    pub reg_base: u64,
}

impl Drhd {
    /// Whether the unit handles all devices that no other unit claims.
    pub fn handles_all(&self) -> (r: bool)
        ensures
            r == (self.flags % 2 == 1),
    {
        self.flags % 2 == 1
    }
}

/// The number in two bytes from `a` on, the low byte first.
pub open spec fn u16_at(m: Seq<u64>, a: int) -> int {
    byte_at(m, a) + 0x100 * byte_at(m, a + 1)
}

/// The unit that the structure at `a` describes.
pub open spec fn drhd_at(m: Seq<u64>, a: int) -> Drhd {
    Drhd { flags: byte_at(m, a + 4), reg_base: u64_at(m, a + 8) as u64 }
}

/// The units among the structures from `offset` on of the table at `dmar`. The list ends with
/// the table or with a structure of impossible length.
pub open spec fn units_from(m: Seq<u64>, dmar: int, total: int, offset: int) -> Seq<Drhd>
    decreases total - offset,
{
    let len = u16_at(m, dmar + offset + 2);
    if offset + 4 > total || len < 4 || offset + len > total {
        Seq::empty()
    } else if u16_at(m, dmar + offset) == DMAR_TYPE_DRHD {
        seq![drhd_at(m, dmar + offset)] + units_from(m, dmar, total, offset + len)
    } else {
        units_from(m, dmar, total, offset + len)
    }
}

/// Whether the descriptions of the units from `offset` on lie in memory.
pub open spec fn units_readable(m: Seq<u64>, dmar: int, total: int, offset: int) -> bool
    decreases total - offset,
{
    let len = u16_at(m, dmar + offset + 2);
    if offset + 4 > total || len < 4 || offset + len > total {
        true
    } else {
        &&& u16_at(m, dmar + offset) == DMAR_TYPE_DRHD ==> in_memory(m, dmar + offset, 16)
        &&& units_readable(m, dmar, total, offset + len)
    }
}

fn read_u16(mem: &Memory, phys: u64) -> (r: u16)
    requires
        in_memory(mem@, phys as int, 2),
        phys + 2 <= u64::MAX,
    ensures
        r == u16_at(mem@, phys as int),
{
    mem.read_byte(phys) as u16 + 0x100 * (mem.read_byte(phys + 1) as u16)
}

fn read_u64(mem: &Memory, phys: u64) -> (r: u64)
    requires
        in_memory(mem@, phys as int, 8),
        phys + 8 <= u64::MAX,
    ensures
        r == u64_at(mem@, phys as int),
{
    let lo: u64 = read_u16(mem, phys) as u64 + 0x1_0000 * (read_u16(mem, phys + 2) as u64);
    let hi: u64 = read_u16(mem, phys + 4) as u64 + 0x1_0000 * (read_u16(mem, phys + 6) as u64);
    lo + 0x1_0000_0000 * hi
}

/// The hardware units that the DMAR table lists. There is no result where the table, or the
/// description of a unit, lies outside memory.
pub fn find_units(mem: &Memory, dmar_phys: u64, dmar_len: u32) -> (r: Option<Vec<Drhd>>)
    requires
        8 * mem@.len() <= u64::MAX,
    ensures
        r is Some <==> in_memory(mem@, dmar_phys as int, dmar_len as int) && units_readable(
            mem@,
            dmar_phys as int,
            dmar_len as int,
            DMAR_STRUCTURES as int,
        ),
        r matches Some(units) ==> units@ == units_from(
            mem@,
            dmar_phys as int,
            dmar_len as int,
            DMAR_STRUCTURES as int,
        ),
{
    if !mem.holds(dmar_phys, dmar_len as u64) {
        return None;
    }
    let total: u64 = dmar_len as u64;
    let mut units: Vec<Drhd> = Vec::new();
    let mut offset: u64 = DMAR_STRUCTURES;
    let ghost all = units_from(mem@, dmar_phys as int, total as int, offset as int);
    assert(units@ + all =~= all);
    let mut more = true;
    while more && offset + 4 <= total
        invariant
            total == dmar_len,
            48 <= offset <= total + 48,
            8 * mem@.len() <= u64::MAX,
            in_memory(mem@, dmar_phys as int, total as int),
            all == units_from(
                mem@,
                dmar_phys as int,
                dmar_len as int,
                DMAR_STRUCTURES as int,
            ),
            more ==> units@ + units_from(mem@, dmar_phys as int, total as int, offset as int)
                == all,
            !more ==> units@ == all,
            units_readable(
                mem@,
                dmar_phys as int,
                dmar_len as int,
                DMAR_STRUCTURES as int,
            ) <==> (more ==> units_readable(
                mem@,
                dmar_phys as int,
                total as int,
                offset as int,
            )),
        decreases total + 48 - offset, (if more { 1int } else { 0 }),
    {
        let at: u64 = dmar_phys + offset;
        let struct_type: u16 = read_u16(mem, at);
        let struct_len: u64 = read_u16(mem, at + 2) as u64;
        if struct_len < 4 || offset + struct_len > total {
            assert(units@ + Seq::<Drhd>::empty() =~= units@);
            more = false;
        } else {
            if struct_type as u64 == DMAR_TYPE_DRHD {
                if !mem.holds(at, 16) {
                    return None;
                }
                let unit = Drhd { flags: mem.read_byte(at + 4), reg_base: read_u64(mem, at + 8) };
                let ghost before = units@;
                units.push(unit);
                proof {
                    let tail = units_from(
                        mem@,
                        dmar_phys as int,
                        total as int,
                        offset + struct_len,
                    );
                    assert(before.push(unit) + tail =~= before + (seq![unit] + tail));
                }
            }
            offset = offset + struct_len;
        }
    }
    proof {
        if more {
            assert(units@ + Seq::<Drhd>::empty() =~= units@);
        }
    }
    Some(units)
}

/// Map the registers of a unit and allocate its root table and a context table, both zero.
/// The result is the virtual address of the registers and the two tables. There is none
/// where the registers cannot be mapped, or no two frames are left after that.
pub fn prepare_unit(
    table: &ShardTable,
    window: &mut MmioWindow,
    fa: &mut FrameAllocator,
    mem: &mut Memory,
    pml4_phys: u64,
    reg_base: u64,
) -> (r: Option<(u64, u64, u64)>)
    requires
        old(window).wf(),
        old(fa).wf(),
        old(fa)@.within(old(mem)@.len()),
        isolated(table@, old(mem)@, old(fa)@),
        kernel_ok(table@, old(mem)@, old(fa)@, pml4_phys),
    ensures
        final(window).wf(),
        final(fa).wf(),
        final(fa)@.within(final(mem)@.len()),
        isolated(table@, final(mem)@, final(fa)@),
        kernel_ok(table@, final(mem)@, final(fa)@, pml4_phys),
        ({
            let next = old(window).next();
            let n = pages_for(reg_base, 4096);
            let tables = window_missing(old(mem)@, pml4_phys, next, n);
            &&& r is Some <==> mmio_fits(next, reg_base, 4096) && old(fa)@.capacity() >= tables + 2
            &&& match r {
                None => *final(window) == *old(window) && final(fa)@ == old(fa)@ && final(mem)@
                    == old(mem)@,
                Some((regs, root_table, context_table)) => {
                    &&& regs == next + reg_base % PAGE_4K
                    &&& final(window).next() == next + n * PAGE_4K
                    &&& final(fa)@.capacity() == old(fa)@.capacity() - tables - 2
                    &&& is_zero_frame(final(mem)@, root_table)
                    &&& is_zero_frame(final(mem)@, context_table)
                    &&& root_table != context_table
                    &&& old(fa)@.avail(root_table) && !final(fa)@.avail(root_table)
                    &&& old(fa)@.avail(context_table) && !final(fa)@.avail(context_table)
                    &&& frame_ok(final(mem)@, root_table) && frame_ok(final(mem)@, context_table)
                    &&& forall|j: int|
                        0 <= j < n ==> #[trigger] leaf(final(mem)@, pml4_phys, page(next, j))
                            == Leaf::Page4K(
                            pte_value(page((reg_base - reg_base % PAGE_4K) as u64, j), MMIO_FLAGS),
                        )
                    &&& forall|x: u64|
                        in_half(x, 256, 512) && apart(x, next, n) ==> #[trigger] leaf(
                            final(mem)@,
                            pml4_phys,
                            x,
                        ) == leaf(old(mem)@, pml4_phys, x)
                },
            }
        }),
{
    let ghost m0 = mem@;
    let ghost v0 = fa@;
    let ghost t = table@;
    let ghost next = window.next();
    let ghost n = pages_for(reg_base, 4096);
    let ghost base = (reg_base - reg_base % PAGE_4K) as u64;
    proof {
        lemma_kernel_root(t, m0, v0, pml4_phys);
    }
    let tables: u64 = match mmio_needs(window, mem, pml4_phys, reg_base, 4096) {
        Some(c) => c,
        None => {
            return None;
        },
    };
    if !has_frames(fa, tables + 2) {
        return None;
    }
    let regs: u64 = match map_mmio(window, fa, mem, pml4_phys, reg_base, 4096) {
        Some(v) => v,
        None => {
            return None;
        },
    };
    let ghost m1 = mem@;
    let ghost v1 = fa@;
    proof {
        lemma_kernel_window(t, m0, m1, v0, v1, pml4_phys, next, base, n, MMIO_FLAGS);
        assert(v1.capacity() == v0.capacity() - tables) by {
            reveal(window_mapped);
        }
        fa.lemma_wf();
        v1.lemma_alloc();
    }
    let root_table: u64 = match alloc_frame_zeroed(fa, mem) {
        Some(p) => p,
        None => {
            return None;
        },
    };
    let ghost m2 = mem@;
    let ghost v2 = fa@;
    proof {
        lemma_kernel_alloc(t, m1, v1, pml4_phys);
        fa.lemma_wf();
        v2.lemma_alloc();
    }
    let context_table: u64 = match alloc_frame_zeroed(fa, mem) {
        Some(p) => p,
        None => {
            return None;
        },
    };
    proof {
        lemma_kernel_alloc(t, m2, v2, pml4_phys);
        reveal(window_mapped);
        assert forall|x: u64| in_half(x, 256, 512) implies #[trigger] leaf(mem@, pml4_phys, x)
            == leaf(m1, pml4_phys, x) by {
            reveal(same_leaves);
            assert(leaf(m2, pml4_phys, x) == leaf(m1, pml4_phys, x));
        }
        assert(is_zero_frame(mem@, root_table)) by {
            assert forall|w: int| in_frame(w, root_table) implies #[trigger] mem@[w] == 0 by {
                assert(m2[w] == 0);
            }
        }
        assert forall|j: int| 0 <= j < n implies #[trigger] leaf(mem@, pml4_phys, page(next, j))
            == Leaf::Page4K(pte_value(page(base, j), MMIO_FLAGS)) by {
            assert(leaf(m1, pml4_phys, page(next, j)) == Leaf::Page4K(
                pte_value(page(base, j), MMIO_FLAGS),
            ));
            lemma_window_half(next, reg_base, j);
        }
    }
    Some((regs, root_table, context_table))
}

/// Pages of the device window lie in the upper half.
proof fn lemma_window_half(next: u64, reg_base: u64, j: int)
    requires
        next >= MMIO_VIRT_BASE,
        mmio_fits(next, reg_base, 4096),
        0 <= j < pages_for(reg_base, 4096),
    ensures
        in_half(page(next, j), 256, 512),
{
    let x = page(next, j);
    assert(x >= MMIO_VIRT_BASE);
    assert(x as int / 0x80_0000_0000 == 0x1FF_FFFF);
}

/// Where the set-up of a unit stands.
#[derive(Debug, Clone, Copy, PartialEq, Eq, Structural)]
pub enum UnitPhase {
    Version,
    Capability,
    ExtendedCapability,
    SetRoot,
    TakeRoot,
    /// Waiting for the root table pointer; so many reads are left.
    PollRoot { left: u32 },
    Status,
    Enable { status: u32 },
    /// Waiting for translation; so many reads are left.
    PollEnable { left: u32 },
    Enabled,
    /// The unit did not answer in time.
    TimedOut,
}

/// An access to the registers of a unit.
#[derive(Debug, Clone, Copy, PartialEq, Eq, Structural)]
pub enum UnitAccess {
    Read32 { offset: u64 },
    Read64 { offset: u64 },
    Write32 { offset: u64, value: u32 },
    Write64 { offset: u64, wide: u64 },
}

impl UnitPhase {
    /// The access to make next; none once translation is on or the unit has failed.
    pub open spec fn access(self, root_table: u64) -> Option<UnitAccess> {
        match self {
            UnitPhase::Version => Some(UnitAccess::Read32 { offset: REG_VER }),
            UnitPhase::Capability => Some(UnitAccess::Read64 { offset: REG_CAP }),
            UnitPhase::ExtendedCapability => Some(UnitAccess::Read64 { offset: REG_ECAP }),
            UnitPhase::SetRoot => Some(
                UnitAccess::Write64 { offset: REG_RTADDR, wide: root_table },
            ),
            UnitPhase::TakeRoot => Some(
                UnitAccess::Write32 { offset: REG_GCMD, value: GCMD_SRTP },
            ),
            UnitPhase::PollRoot { left } => Some(UnitAccess::Read32 { offset: REG_GSTS }),
            UnitPhase::Status => Some(UnitAccess::Read32 { offset: REG_GSTS }),
            UnitPhase::Enable { status } => Some(
                UnitAccess::Write32 { offset: REG_GCMD, value: status | GCMD_TE },
            ),
            UnitPhase::PollEnable { left } => Some(UnitAccess::Read32 { offset: REG_GSTS }),
            UnitPhase::Enabled => None,
            UnitPhase::TimedOut => None,
        }
    }

    /// The phase after the access gave `value`.
    pub open spec fn after(self, value: u64) -> UnitPhase {
        match self {
            UnitPhase::Version => UnitPhase::Capability,
            UnitPhase::Capability => UnitPhase::ExtendedCapability,
            UnitPhase::ExtendedCapability => UnitPhase::SetRoot,
            UnitPhase::SetRoot => UnitPhase::TakeRoot,
            UnitPhase::TakeRoot => UnitPhase::PollRoot { left: MAX_POLLS },
            UnitPhase::PollRoot { left } => if value / 0x4000_0000 % 2 == 1 {
                UnitPhase::Status
            } else if left <= 1 {
                UnitPhase::TimedOut
            } else {
                UnitPhase::PollRoot { left: (left - 1) as u32 }
            },
            UnitPhase::Status => UnitPhase::Enable { status: (value % 0x1_0000_0000) as u32 },
            UnitPhase::Enable { status } => UnitPhase::PollEnable { left: MAX_POLLS },
            UnitPhase::PollEnable { left } => if value / 0x8000_0000 % 2 == 1 {
                UnitPhase::Enabled
            } else if left <= 1 {
                UnitPhase::TimedOut
            } else {
                UnitPhase::PollEnable { left: (left - 1) as u32 }
            },
            UnitPhase::Enabled => UnitPhase::Enabled,
            UnitPhase::TimedOut => UnitPhase::TimedOut,
        }
    }

    /// How many accesses are left, at most.
    pub open spec fn left(self) -> int {
        match self {
            UnitPhase::Version => 2 * MAX_POLLS + 7,
            UnitPhase::Capability => 2 * MAX_POLLS + 6,
            UnitPhase::ExtendedCapability => 2 * MAX_POLLS + 5,
            UnitPhase::SetRoot => 2 * MAX_POLLS + 4,
            UnitPhase::TakeRoot => 2 * MAX_POLLS + 3,
            UnitPhase::PollRoot { left } => MAX_POLLS + 2 + left,
            UnitPhase::Status => MAX_POLLS + 2,
            UnitPhase::Enable { status } => MAX_POLLS + 1,
            UnitPhase::PollEnable { left } => left as int,
            UnitPhase::Enabled => 0,
            UnitPhase::TimedOut => 0,
        }
    }

    /// Reads are left while waiting, and no more than there are.
    pub open spec fn wf(self) -> bool {
        match self {
            UnitPhase::PollRoot { left } => 1 <= left <= MAX_POLLS,
            UnitPhase::PollEnable { left } => 1 <= left <= MAX_POLLS,
            _ => true,
        }
    }
}

/// The set-up of one unit: which register comes next, until translation is on or the unit
/// has failed to answer.
#[derive(Debug, Clone, Copy, PartialEq, Eq, Structural)]
pub struct UnitSetup {
    pub phase: UnitPhase,
    pub root_table: u64,
}

/// Start the set-up of a unit.
pub fn process_drhd(root_table: u64) -> (u: UnitSetup)
    ensures
        u.phase == UnitPhase::Version,
        u.phase.wf(),
        u.root_table == root_table,
{
    UnitSetup { phase: UnitPhase::Version, root_table }
}

impl UnitSetup {
    /// The access to make next.
    pub fn pending(&self) -> (a: Option<UnitAccess>)
        ensures
            a == self.phase.access(self.root_table),
    {
        match self.phase {
            UnitPhase::Version => Some(UnitAccess::Read32 { offset: REG_VER }),
            UnitPhase::Capability => Some(UnitAccess::Read64 { offset: REG_CAP }),
            UnitPhase::ExtendedCapability => Some(UnitAccess::Read64 { offset: REG_ECAP }),
            UnitPhase::SetRoot => Some(
                UnitAccess::Write64 { offset: REG_RTADDR, wide: self.root_table },
            ),
            UnitPhase::TakeRoot => Some(
                UnitAccess::Write32 { offset: REG_GCMD, value: GCMD_SRTP },
            ),
            UnitPhase::PollRoot { .. } => Some(UnitAccess::Read32 { offset: REG_GSTS }),
            UnitPhase::Status => Some(UnitAccess::Read32 { offset: REG_GSTS }),
            UnitPhase::Enable { status } => Some(
                UnitAccess::Write32 { offset: REG_GCMD, value: status | GCMD_TE },
            ),
            UnitPhase::PollEnable { .. } => Some(UnitAccess::Read32 { offset: REG_GSTS }),
            UnitPhase::Enabled => None,
            UnitPhase::TimedOut => None,
        }
    }

    /// The pending access is made; `value` is what a read gave.
    pub fn step(&mut self, value: u64)
        requires
            old(self).phase.wf(),
        ensures
            final(self).phase == old(self).phase.after(value),
            final(self).phase.wf(),
            final(self).root_table == old(self).root_table,
    {
        self.phase =
        match self.phase {
            UnitPhase::Version => UnitPhase::Capability,
            UnitPhase::Capability => UnitPhase::ExtendedCapability,
            UnitPhase::ExtendedCapability => UnitPhase::SetRoot,
            UnitPhase::SetRoot => UnitPhase::TakeRoot,
            UnitPhase::TakeRoot => UnitPhase::PollRoot { left: MAX_POLLS },
            UnitPhase::PollRoot { left } => if value / 0x4000_0000 % 2 == 1 {
                UnitPhase::Status
            } else if left <= 1 {
                UnitPhase::TimedOut
            } else {
                UnitPhase::PollRoot { left: left - 1 }
            },
            UnitPhase::Status => UnitPhase::Enable { status: (value % 0x1_0000_0000) as u32 },
            UnitPhase::Enable { .. } => UnitPhase::PollEnable { left: MAX_POLLS },
            UnitPhase::PollEnable { left } => if value / 0x8000_0000 % 2 == 1 {
                UnitPhase::Enabled
            } else if left <= 1 {
                UnitPhase::TimedOut
            } else {
                UnitPhase::PollEnable { left: left - 1 }
            },
            UnitPhase::Enabled => UnitPhase::Enabled,
            UnitPhase::TimedOut => UnitPhase::TimedOut,
        };
    }
}

/// Version number of a unit, from its version register: major and minor.
pub fn version(ver: u32) -> (r: (u32, u32))
    ensures
        r.0 == ver / 16 % 16,
        r.1 == ver % 16,
{
    (ver / 16 % 16, ver % 16)
}

// ---------------------------------------------------------------------------
// Laws
// ---------------------------------------------------------------------------

/// The set-up ends: each access leaves fewer to make.
pub proof fn law_setup_ends(p: UnitPhase, root_table: u64, value: u64)
    requires
        p.wf(),
        p.access(root_table) is Some,
    ensures
        p.after(value).wf(),
        0 <= p.after(value).left() < p.left(),
{
}

/// Translation is enabled only after the unit has taken over the root table: the command
/// for it comes after a status that says so, and no other way leads there.
pub proof fn law_enabled_after_root(p: UnitPhase, value: u64)
    requires
        p.wf(),
        p.after(value) == UnitPhase::Status,
    ensures
        p is PollRoot,
        value / 0x4000_0000 % 2 == 1,
{
}

/// The set-up counts as done only when the unit says that translation is on.
pub proof fn law_done_when_enabled(p: UnitPhase, value: u64)
    requires
        p.wf(),
        p != UnitPhase::Enabled,
        p.after(value) == UnitPhase::Enabled,
    ensures
        p is PollEnable,
        value / 0x8000_0000 % 2 == 1,
{
}

/// With a root table of zeros, no bus has a context table: each of its 256 entries, two
/// words long, has no present bit. So all DMA is blocked.
pub proof fn law_all_dma_blocked(m: Seq<u64>, root_table: u64, bus: int)
    requires
        is_zero_frame(m, root_table),
        0 <= bus < 256,
    ensures
        m[root_table as int / 8 + 2 * bus] == 0,
        m[root_table as int / 8 + 2 * bus + 1] == 0,
{
    assert(in_frame(root_table as int / 8 + 2 * bus, root_table));
    assert(in_frame(root_table as int / 8 + 2 * bus + 1, root_table));
}

/// Whether structure number `k` of the table gives, in its bytes 2 and 3, the distance to the
/// next, which is at least 4.
pub open spec fn followed(m: Seq<u64>, dmar: int, total: int, os: Seq<int>, k: int) -> bool {
    let len = byte_at(m, dmar + os[k] + 2) + 0x100 * byte_at(m, dmar + os[k] + 3);
    4 <= len && os[k] + len <= total && os[k + 1] == os[k] + len
}

/// Whether the table at `dmar` with `total` bytes holds structures at these offsets, one
/// behind the other from byte 48 on, up to the end of the table, the last of the offsets.
pub open spec fn structures_laid_out(m: Seq<u64>, dmar: int, total: int, os: Seq<int>) -> bool {
    &&& os.len() > 0
    &&& os[0] == 48
    &&& os.last() == total
    &&& forall|k: int| 0 <= k < os.len() - 1 ==> #[trigger] followed(m, dmar, total, os, k)
}

/// Whether the units are those of the structures of type 0, their bytes 0 and 1, from number
/// `k` on, in their order, with the flags in byte 4 and the address of the registers in bytes
/// 8 to 15.
pub open spec fn units_match(m: Seq<u64>, dmar: int, os: Seq<int>, k: int, us: Seq<Drhd>) -> bool
    decreases os.len() - k,
{
    if k >= os.len() - 1 {
        us.len() == 0
    } else if byte_at(m, dmar + os[k]) == 0 && byte_at(m, dmar + os[k] + 1) == 0 {
        &&& us.len() > 0
        &&& us[0].flags == byte_at(m, dmar + os[k] + 4)
        &&& crate::acpi::spells8(m, dmar + os[k] + 8, us[0].reg_base as int)
        &&& units_match(m, dmar, os, k + 1, us.drop_first())
    } else {
        units_match(m, dmar, os, k + 1, us)
    }
}

/// All units that the table lists are found, each once, in the order of the table.
pub proof fn law_units_found(m: Seq<u64>, dmar: int, total: int, os: Seq<int>, k: int)
    requires
        structures_laid_out(m, dmar, total, os),
        0 <= k < os.len(),
    ensures
        units_match(m, dmar, os, k, units_from(m, dmar, total, os[k])),
    decreases os.len() - k,
{
    if k < os.len() - 1 {
        assert(followed(m, dmar, total, os, k));
        law_units_found(m, dmar, total, os, k + 1);
        let at = dmar + os[k];
        let rest = units_from(m, dmar, total, os[k + 1]);
        let all = units_from(m, dmar, total, os[k]);
        assert(u16_at(m, dmar + os[k] + 2) == byte_at(m, dmar + os[k] + 2) + 0x100 * byte_at(
            m,
            dmar + os[k] + 3,
        ));
        assert(u16_at(m, at) == 0 <==> byte_at(m, at) == 0 && byte_at(m, at + 1) == 0);
        if u16_at(m, at) == 0 {
            assert(all == seq![drhd_at(m, at)] + rest);
            assert(all.drop_first() =~= rest);
            assert(all[0] == drhd_at(m, at));
        } else {
            assert(all == rest);
        }
    }
}

/// The set-up by its accesses: version, capabilities and extended capabilities are read at
/// offsets 0, 8 and 16; the root table goes to offset 32; bit 30 of the command register at
/// offset 24 makes the unit take it over, which bit 30 of the status at offset 28 shows; then
/// bit 31 is added to the status that was read, and bit 31 of the status shows that
/// translation is on.
pub proof fn law_setup_by_accesses(root_table: u64, value: u64, status: u32, left: u32)
    requires
        left > 1,
    ensures
        UnitPhase::Version.access(root_table) == Some(UnitAccess::Read32 { offset: 0 }),
        UnitPhase::Version.after(value) == UnitPhase::Capability,
        UnitPhase::Capability.access(root_table) == Some(UnitAccess::Read64 { offset: 8 }),
        UnitPhase::Capability.after(value) == UnitPhase::ExtendedCapability,
        UnitPhase::ExtendedCapability.access(root_table) == Some(
            UnitAccess::Read64 { offset: 16 },
        ),
        UnitPhase::ExtendedCapability.after(value) == UnitPhase::SetRoot,
        UnitPhase::SetRoot.access(root_table) == Some(
            UnitAccess::Write64 { offset: 32, wide: root_table },
        ),
        UnitPhase::SetRoot.after(value) == UnitPhase::TakeRoot,
        UnitPhase::TakeRoot.access(root_table) == Some(
            UnitAccess::Write32 { offset: 24, value: 0x4000_0000 },
        ),
        UnitPhase::TakeRoot.after(value) is PollRoot,
        (UnitPhase::PollRoot { left }).access(root_table) == Some(
            UnitAccess::Read32 { offset: 28 },
        ),
        (UnitPhase::PollRoot { left }).after(value) is Status <==> value as int / 0x4000_0000 % 2
            == 1,
        (UnitPhase::PollRoot { left }).after(value) is PollRoot <==> value as int / 0x4000_0000 % 2
            == 0,
        UnitPhase::Status.access(root_table) == Some(UnitAccess::Read32 { offset: 28 }),
        value <= u32::MAX ==> UnitPhase::Status.after(value) == (UnitPhase::Enable {
            status: value as u32,
        }),
        (UnitPhase::Enable { status }).access(root_table) == Some(
            UnitAccess::Write32 { offset: 24, value: status | 0x8000_0000 },
        ),
        (UnitPhase::Enable { status }).after(value) is PollEnable,
        (UnitPhase::PollEnable { left }).access(root_table) == Some(
            UnitAccess::Read32 { offset: 28 },
        ),
        (UnitPhase::PollEnable { left }).after(value) is Enabled <==> value as int / 0x8000_0000 % 2
            == 1,
        (UnitPhase::PollEnable { left }).after(value) is PollEnable <==> value as int / 0x8000_0000
            % 2 == 0,
        UnitPhase::Enabled.access(root_table) is None,
        UnitPhase::TimedOut.access(root_table) is None,
{
}

/// A unit that does not answer fails after the last read, and not before.
pub proof fn law_unit_times_out(value: u64, left: u32)
    requires
        value as int / 0x4000_0000 % 2 == 0,
        value as int / 0x8000_0000 % 2 == 0,
        1 <= left,
    ensures
        (UnitPhase::PollRoot { left }).after(value) is TimedOut <==> left == 1,
        (UnitPhase::PollEnable { left }).after(value) is TimedOut <==> left == 1,
        left > 1 ==> (UnitPhase::PollRoot { left }).after(value) == (UnitPhase::PollRoot {
            left: (left - 1) as u32,
        }),
        left > 1 ==> (UnitPhase::PollEnable { left }).after(value) == (UnitPhase::PollEnable {
            left: (left - 1) as u32,
        }),
{
}

/// A unit is asked 100000 times at most for the root table, and as often for translation.
pub proof fn law_polls(value: u64, status: u32)
    ensures
        UnitPhase::TakeRoot.after(value) == (UnitPhase::PollRoot { left: 100_000 }),
        (UnitPhase::Enable { status }).after(value) == (UnitPhase::PollEnable { left: 100_000 }),
{
}

} // verus!
