//! The global descriptor table: kernel and user segments, and the task state segment.

use vstd::prelude::*;

verus! {

/// Selectors: the number of the entry times eight, and the privilege level.
pub const KERNEL_CS: u16 = 0x08;

pub const KERNEL_DS: u16 = 0x10;

pub const USER_DS: u16 = 0x1B;

pub const USER_CS: u16 = 0x23;

pub const TSS_SELECTOR: u16 = 0x28;

/// A descriptor, by its fields.
#[derive(Debug, Clone, Copy, PartialEq, Eq, Structural)]
pub struct GdtEntry {
    pub limit_low: u16,
    pub base_low: u16,
    pub base_mid: u8,
    pub access: u8,
    pub granularity: u8,
    pub base_high: u8,
}

impl GdtEntry {
    /// The descriptor of a flat segment.
    pub open spec fn flat(access: u8, granularity: u8) -> GdtEntry {
        GdtEntry { limit_low: 0xFFFF, base_low: 0, base_mid: 0, access, granularity, base_high: 0 }
    }

    pub fn null() -> (e: GdtEntry)
        ensures
            e.word() == 0,
    {
        GdtEntry {
            limit_low: 0,
            base_low: 0,
            base_mid: 0,
            access: 0,
            granularity: 0,
            base_high: 0,
        }
    }

    /// 64-bit code for the kernel: present, executable, readable.
    pub fn kernel_code() -> (e: GdtEntry)
        ensures
            e == GdtEntry::flat(0x9A, 0xAF),
    {
        GdtEntry {
            limit_low: 0xFFFF,
            base_low: 0,
            base_mid: 0,
            access: 0x9A,
            granularity: 0xAF,
            base_high: 0,
        }
    }

    /// Data for the kernel: present, writable.
    pub fn kernel_data() -> (e: GdtEntry)
        ensures
            e == GdtEntry::flat(0x92, 0xCF),
    {
        GdtEntry {
            limit_low: 0xFFFF,
            base_low: 0,
            base_mid: 0,
            access: 0x92,
            granularity: 0xCF,
            base_high: 0,
        }
    }

    /// Data for user mode.
    pub fn user_data() -> (e: GdtEntry)
        ensures
            e == GdtEntry::flat(0xF2, 0xCF),
    {
        GdtEntry {
            limit_low: 0xFFFF,
            base_low: 0,
            base_mid: 0,
            access: 0xF2,
            granularity: 0xCF,
            base_high: 0,
        }
    }

    /// 64-bit code for user mode.
    pub fn user_code() -> (e: GdtEntry)
        ensures
            e == GdtEntry::flat(0xFA, 0xAF),
    {
        GdtEntry {
            limit_low: 0xFFFF,
            base_low: 0,
            base_mid: 0,
            access: 0xFA,
            granularity: 0xAF,
            base_high: 0,
        }
    }

    /// The first half of the descriptor of a task state segment: present, available.
    pub fn tss(base: u64, limit: u16) -> (e: GdtEntry)
        ensures
            e.access == 0x89,
            e.granularity == 0,
            e.limit() == limit,
            e.base() == base % 0x1_0000_0000,
    {
        GdtEntry {
            limit_low: limit,
            base_low: (base % 0x1_0000) as u16,
            base_mid: (base / 0x1_0000 % 0x100) as u8,
            access: 0x89,
            granularity: 0,
            base_high: (base / 0x100_0000 % 0x100) as u8,
        }
    }

    /// The base address of the segment, its low 32 bits.
    pub open spec fn base(self) -> int {
        self.base_low + 0x1_0000 * self.base_mid + 0x100_0000 * self.base_high
    }

    /// The limit of the segment.
    pub open spec fn limit(self) -> int {
        self.limit_low + 0x1_0000 * (self.granularity % 16)
    }

    /// The privilege level that may use the segment.
    pub open spec fn privilege(self) -> int {
        (self.access / 32 % 4) as int
    }

    /// The descriptor in memory.
    pub open spec fn word(self) -> int {
        self.limit_low + 0x1_0000 * self.base_low + 0x1_0000_0000 * self.base_mid + 0x100_0000_0000
            * self.access + 0x1_0000_0000_0000 * self.granularity + 0x100_0000_0000_0000
            * self.base_high
    }

    /// The descriptor in memory.
    pub fn encode(&self) -> (w: u64)
        ensures
            w == self.word(),
    {
        self.limit_low as u64 + 0x1_0000 * (self.base_low as u64) + 0x1_0000_0000 * (
        self.base_mid as u64) + 0x100_0000_0000 * (self.access as u64) + 0x1_0000_0000_0000 * (
        self.granularity as u64) + 0x100_0000_0000_0000 * (self.base_high as u64)
    }
}

/// Entry number `i` of the table, for a task state segment at `tss_base`.
pub open spec fn entry_is(i: int, w: u64, tss_base: u64, tss_size: u16) -> bool {
    if i == 0 {
        w == 0
    } else if i == 1 {
        w == GdtEntry::flat(0x9A, 0xAF).word()
    } else if i == 2 {
        w == GdtEntry::flat(0x92, 0xCF).word()
    } else if i == 3 {
        w == GdtEntry::flat(0xF2, 0xCF).word()
    } else if i == 4 {
        w == GdtEntry::flat(0xFA, 0xAF).word()
    } else if i == 5 {
        exists|e: GdtEntry| #[trigger]
            e.word() == w && e.access == 0x89 && e.granularity == 0 && e.limit() == tss_size - 1
                && e.base() == tss_base % 0x1_0000_0000
    } else {
        w == tss_base / 0x1_0000_0000
    }
}

/// The table for a task state segment of `tss_size` bytes at `tss_base`.
pub fn init(tss_base: u64, tss_size: u16) -> (t: [u64; 7])
    requires
        tss_size > 0,
    ensures
        forall|i: int| 0 <= i < 7 ==> entry_is(i, #[trigger] t@[i], tss_base, tss_size),
{
    let tss = GdtEntry::tss(tss_base, tss_size - 1);
    let t = [
        GdtEntry::null().encode(),
        GdtEntry::kernel_code().encode(),
        GdtEntry::kernel_data().encode(),
        GdtEntry::user_data().encode(),
        GdtEntry::user_code().encode(),
        tss.encode(),
        tss_base / 0x1_0000_0000,
    ];
    assert(tss.word() == t@[5]);
    t
}

/// Each selector names the entry it is meant for, with that entry's privilege level.
pub proof fn law_selectors()
    ensures
        KERNEL_CS / 8 == 1 && KERNEL_CS % 8 == GdtEntry::flat(0x9A, 0xAF).privilege(),
        KERNEL_DS / 8 == 2 && KERNEL_DS % 8 == GdtEntry::flat(0x92, 0xCF).privilege(),
        USER_DS / 8 == 3 && USER_DS % 8 == GdtEntry::flat(0xF2, 0xCF).privilege(),
        USER_CS / 8 == 4 && USER_CS % 8 == GdtEntry::flat(0xFA, 0xAF).privilege(),
        TSS_SELECTOR / 8 == 5 && TSS_SELECTOR % 8 == 0,
{
}

/// The segments as the processor reads them: null, then code and data of the kernel, then data
/// and code of user mode, all from address zero on without end. Code is 64-bit code.
pub proof fn law_segment_words(t: Seq<u64>, tss_base: u64, tss_size: u16)
    requires
        t.len() == 7,
        tss_size > 0,
        forall|i: int| 0 <= i < 7 ==> entry_is(i, #[trigger] t[i], tss_base, tss_size),
    ensures
        t[0] == 0,
        t[1] == 0x00AF_9A00_0000_FFFF,
        t[2] == 0x00CF_9200_0000_FFFF,
        t[3] == 0x00CF_F200_0000_FFFF,
        t[4] == 0x00AF_FA00_0000_FFFF,
{
    assert(entry_is(0, t[0], tss_base, tss_size));
    assert(entry_is(1, t[1], tss_base, tss_size));
    assert(entry_is(2, t[2], tss_base, tss_size));
    assert(entry_is(3, t[3], tss_base, tss_size));
    assert(entry_is(4, t[4], tss_base, tss_size));
}

/// The descriptor of the task state segment takes two words. The limit, one less than the
/// size, lies in bits 0 to 15 of the first, the base in its bits 16 to 39 and 56 to 63 and
/// in bits 0 to 31 of the second, and bits 40 to 47 say that it is present and available.
pub proof fn law_task_descriptor(t: Seq<u64>, tss_base: u64, tss_size: u16)
    requires
        t.len() == 7,
        tss_size > 0,
        forall|i: int| 0 <= i < 7 ==> entry_is(i, #[trigger] t[i], tss_base, tss_size),
    ensures
        t[5] as int % 0x1_0000 == tss_size - 1,
        t[5] as int / 0x1_0000 % 0x100_0000 + 0x100_0000 * (t[5] as int / 0x100_0000_0000_0000)
            + 0x1_0000_0000 * t[6] == tss_base,
        t[5] as int / 0x100_0000_0000 % 0x100 == 0x89,
        t[5] as int / 0x1_0000_0000_0000 % 0x100 == 0,
{
    assert(entry_is(5, t[5], tss_base, tss_size));
    assert(entry_is(6, t[6], tss_base, tss_size));
    let e = choose|e: GdtEntry| #[trigger]
        e.word() == t[5] && e.access == 0x89 && e.granularity == 0 && e.limit() == tss_size - 1
            && e.base() == tss_base % 0x1_0000_0000;
    assert(e.limit_low == tss_size - 1);
    let w = e.word();
    assert(w == e.limit_low + 0x1_0000 * (e.base_low + 0x1_0000 * (e.base_mid + 0x100 * (0x89
        + 0x100 * (0x100 * e.base_high)))));
    assert(w / 0x1_0000 == e.base_low + 0x1_0000 * (e.base_mid + 0x100 * (0x89 + 0x100 * (0x100
        * e.base_high))));
    assert(w / 0x1_0000 % 0x100_0000 == e.base_low + 0x1_0000 * e.base_mid);
    assert(w / 0x100_0000_0000_0000 == e.base_high);
    assert(w / 0x100_0000_0000 == 0x89 + 0x1_0000 * e.base_high);
    assert(w / 0x1_0000_0000_0000 == 0x100 * e.base_high);
}

} // verus!
