//! The page tables that the supervisor boots with, and its move to the higher half.
//!
//! The boot tables map the first gigabyte of physical memory three times with 2 MiB pages:
//! where it is, at the direct map, and where the supervisor is linked. Once the supervisor
//! runs in the higher half, the first of these is removed.

use vstd::prelude::*;

use crate::frame::FrameView;
use crate::kernel::{kernel_ok, upper_hidden, user_page};
use crate::links::{link, ways_open};
use crate::mem::{frame_ok, Memory};
use crate::shard::ShardDescriptor;
use crate::vmm::{huge, indices, leaf, lemma_entry_bits, lemma_indices_ok, lemma_missing_below};
use crate::vmm::{lemma_root, lemma_step, path_ok, present, pte_addr, slot, table_at, tree_wf, Leaf};
use crate::vmm::{in_half, HHDM_OFFSET, PARENT_FLAGS_2M};
use crate::window::MMIO_VIRT_BASE;

verus! {

/// Where the boot page tables lie: seven frames, the root first.
pub const BOOT_TABLES: u64 = 0x40_0000;

/// Where the first gigabyte of physical memory is mapped for the supervisor's code.
pub const KERNEL_VMA: u64 = 0xFFFF_FFFF_8000_0000;

/// The supervisor's root page table.
#[derive(Debug)]
pub struct HighHalf {
    pml4: u64,
}

impl HighHalf {
    pub closed spec fn pml4(&self) -> u64 {
        self.pml4
    }

    pub fn new() -> (h: HighHalf)
        ensures
            h.pml4() == 0,
    {
        HighHalf { pml4: 0 }
    }

    /// Set the address of the root table.
    pub fn set_supervisor_pml4(&mut self, pml4_phys: u64)
        ensures
            final(self).pml4() == pml4_phys,
    {
        self.pml4 = pml4_phys;
    }

    /// The address of the root table.
    pub fn supervisor_pml4(&self) -> (r: u64)
        ensures
            r == self.pml4(),
    {
        self.pml4
    }
}

/// Word number `i` of boot table number `p`: the root, and a directory pointer table and a
/// page directory for each of the three mappings. `identity` says whether the first of them
/// is there.
pub open spec fn boot_word(identity: bool, p: int, i: int) -> u64 {
    if p == 0 {
        if i == 0 && identity {
            0x40_1003
        } else if i == 256 {
            0x40_3003
        } else if i == 511 {
            0x40_5003
        } else {
            0
        }
    } else if p == 1 {
        if i == 0 {
            0x40_2003
        } else {
            0
        }
    } else if p == 3 {
        if i == 0 {
            0x40_4003
        } else {
            0
        }
    } else if p == 5 {
        if i == 510 {
            0x40_6003
        } else {
            0
        }
    } else {
        (i * 0x20_0000 + 0x83) as u64
    }
}

/// The boot table number `p`.
pub open spec fn boot_frame(p: int) -> u64 {
    (BOOT_TABLES + 0x1000 * p) as u64
}

/// Whether the memory holds the boot tables.
pub open spec fn boot_tables(m: Seq<u64>, identity: bool) -> bool {
    &&& m.len() >= 0x8_0E00
    &&& forall|p: int, i: int|
        0 <= p < 7 && 0 <= i < 512 ==> #[trigger] m[slot(boot_frame(p), i)] == boot_word(
            identity,
            p,
            i,
        )
}

fn word_for(p: u64, i: u64) -> (w: u64)
    requires
        p < 7,
        i < 512,
    ensures
        w == boot_word(true, p as int, i as int),
{
    if p == 0 {
        if i == 0 {
            0x40_1003
        } else if i == 256 {
            0x40_3003
        } else if i == 511 {
            0x40_5003
        } else {
            0
        }
    } else if p == 1 {
        if i == 0 {
            0x40_2003
        } else {
            0
        }
    } else if p == 3 {
        if i == 0 {
            0x40_4003
        } else {
            0
        }
    } else if p == 5 {
        if i == 510 {
            0x40_6003
        } else {
            0
        }
    } else {
        i * 0x20_0000 + 0x83
    }
}

/// Build the boot page tables. The result is the address of the root.
pub fn build_boot_tables(mem: &mut Memory) -> (pml4: u64)
    requires
        old(mem)@.len() >= 0x8_0E00,
    ensures
        pml4 == BOOT_TABLES,
        boot_tables(final(mem)@, true),
        final(mem)@.len() == old(mem)@.len(),
        forall|w: int|
            0 <= w < old(mem)@.len() && !(0x8_0000 <= w < 0x8_0E00) ==> #[trigger] final(mem)@[w]
                == old(mem)@[w],
{
    let mut k: u64 = 0;
    while k < 3584
        invariant
            k <= 3584,
            mem@.len() == old(mem)@.len(),
            mem@.len() >= 0x8_0E00,
            forall|w: int|
                0 <= w < mem@.len() ==> #[trigger] mem@[w] == (if 0x8_0000 <= w < 0x8_0000 + k {
                    boot_word(true, (w - 0x8_0000) / 512, (w - 0x8_0000) % 512)
                } else {
                    old(mem)@[w]
                }),
        decreases 3584 - k,
    {
        let w: u64 = word_for(k / 512, k % 512);
        mem.write(BOOT_TABLES + 8 * k, w);
        k += 1;
    }
    proof {
        assert forall|p: int, i: int| 0 <= p < 7 && 0 <= i < 512 implies #[trigger] mem@[slot(
            boot_frame(p),
            i,
        )] == boot_word(true, p, i) by {
            let w = slot(boot_frame(p), i);
            assert(w == 0x8_0000 + 512 * p + i);
            assert((w - 0x8_0000) / 512 == p && (w - 0x8_0000) % 512 == i);
        }
    }
    BOOT_TABLES
}

/// Remove the mapping of low addresses from the root table: entry 0 is cleared.
pub fn remove_identity_mapping(mem: &mut Memory, pml4_phys: u64)
    requires
        frame_ok(old(mem)@, pml4_phys),
    ensures
        final(mem)@ == old(mem)@.update(slot(pml4_phys, 0), 0),
        forall|x: u64|
            indices(x)[0] == 0 ==> (#[trigger] leaf(final(mem)@, pml4_phys, x)) is Unmapped,
{
    mem.write(pml4_phys, 0);
    proof {
        let m = mem@;
        assert(!present(0)) by {
            lemma_entry_bits(0, 0);
        }
        assert forall|x: u64| indices(x)[0] == 0 implies (#[trigger] leaf(
            m,
            pml4_phys,
            x,
        )) is Unmapped by {
            lemma_step(m, pml4_phys, indices(x), 0);
            lemma_root(m, pml4_phys, indices(x));
            lemma_missing_below(m, pml4_phys, x, 1, 2);
            lemma_missing_below(m, pml4_phys, x, 1, 3);
        }
    }
}

/// The boot table that a path leads to.
pub open spec fn boot_table(identity: bool, q: Seq<int>) -> Option<u64> {
    if q.len() == 0 {
        Some(BOOT_TABLES)
    } else if q.len() == 1 {
        if q[0] == 0 && identity {
            Some(boot_frame(1))
        } else if q[0] == 256 {
            Some(boot_frame(3))
        } else if q[0] == 511 {
            Some(boot_frame(5))
        } else {
            None
        }
    } else if q.len() == 2 {
        if q[0] == 0 && q[1] == 0 && identity {
            Some(boot_frame(2))
        } else if q[0] == 256 && q[1] == 0 {
            Some(boot_frame(4))
        } else if q[0] == 511 && q[1] == 510 {
            Some(boot_frame(6))
        } else {
            None
        }
    } else {
        None
    }
}

/// The bits of the entries of boot tables.
proof fn lemma_boot_bits(i: u64)
    requires
        i < 512,
    ensures
        present(0x40_1003) && pte_addr(0x40_1003) == boot_frame(1),
        present(0x40_2003) && pte_addr(0x40_2003) == boot_frame(2),
        present(0x40_3003) && pte_addr(0x40_3003) == boot_frame(3),
        present(0x40_4003) && pte_addr(0x40_4003) == boot_frame(4),
        present(0x40_5003) && pte_addr(0x40_5003) == boot_frame(5),
        present(0x40_6003) && pte_addr(0x40_6003) == boot_frame(6),
        !present(0),
        ({
            let e = (i * 0x20_0000 + 0x83) as u64;
            present(e) && huge(e) && pte_addr(e) == i * 0x20_0000
        }),
{
    assert(0x40_1003u64 & 1 != 0 && 0x40_2003u64 & 1 != 0 && 0x40_3003u64 & 1 != 0 && 0x40_4003u64
        & 1 != 0 && 0x40_5003u64 & 1 != 0 && 0x40_6003u64 & 1 != 0 && 0u64 & 1 == 0 && 0x40_1003u64
        & 0x000F_FFFF_FFFF_F000 == 0x40_1000 && 0x40_2003u64 & 0x000F_FFFF_FFFF_F000 == 0x40_2000
        && 0x40_3003u64 & 0x000F_FFFF_FFFF_F000 == 0x40_3000 && 0x40_4003u64 & 0x000F_FFFF_FFFF_F000
        == 0x40_4000 && 0x40_5003u64 & 0x000F_FFFF_FFFF_F000 == 0x40_5000 && 0x40_6003u64
        & 0x000F_FFFF_FFFF_F000 == 0x40_6000) by (bit_vector);
    let e = (i * 0x20_0000 + 0x83) as u64;
    assert(e & 1 != 0 && e & 0x80 != 0 && e & 0x000F_FFFF_FFFF_F000 == i * 0x20_0000)
        by (bit_vector)
        requires
            i < 512,
            e == (i * 0x20_0000 + 0x83) as u64,
    ;
}

/// The tables that paths lead to.
proof fn lemma_boot_table(m: Seq<u64>, identity: bool, q: Seq<int>)
    requires
        boot_tables(m, identity),
        path_ok(q, 0, 512),
    ensures
        table_at(m, BOOT_TABLES, q) == boot_table(identity, q),
    decreases q.len(),
{
    if q.len() == 0 {
        lemma_root(m, BOOT_TABLES, q);
        assert(q.take(0) =~= q);
    } else {
        let l = q.len() - 1;
        let p = q.take(l);
        assert(path_ok(p, 0, 512)) by {
            assert forall|k: int| 0 <= k < p.len() implies 0 <= #[trigger] p[k] < 512 by {
                assert(q[k] == p[k]);
            }
        }
        lemma_boot_table(m, identity, p);
        lemma_step(m, BOOT_TABLES, q, l);
        assert(q.take(l + 1) =~= q);
        let i = q[l];
        assert(0 <= i < 512);
        lemma_boot_bits(i as u64);
        if boot_table(identity, p) is Some {
            let t = boot_table(identity, p)->0;
            let n = if l == 0 {
                0int
            } else if l == 1 {
                if p[0] == 0 {
                    1
                } else if p[0] == 256 {
                    3
                } else {
                    5
                }
            } else {
                if p[0] == 0 {
                    2
                } else if p[0] == 256 {
                    4
                } else {
                    6
                }
            };
            assert(t == boot_frame(n));
            assert(m[slot(boot_frame(n), i)] == boot_word(identity, n, i));
        }
    }
}

/// The boot tables are in order.
pub proof fn law_boot_tree(m: Seq<u64>, identity: bool)
    requires
        boot_tables(m, identity),
    ensures
        tree_wf(m, BOOT_TABLES, 0, 256),
        tree_wf(m, BOOT_TABLES, 256, 512),
{
    assert forall|p: Seq<int>, lo: int, hi: int|
        0 <= lo <= hi <= 512 && #[trigger] path_ok(p, lo, hi) implies table_at(m, BOOT_TABLES, p)
        == boot_table(identity, p) by {
        assert(path_ok(p, 0, 512));
        lemma_boot_table(m, identity, p);
    }
    assert forall|p: Seq<int>, q: Seq<int>|
        boot_table(identity, p) is Some && #[trigger] boot_table(identity, p)
            == #[trigger] boot_table(identity, q) implies p == q by {
        assert(p =~= q);
    }
    assert(tree_wf(m, BOOT_TABLES, 0, 256)) by {
        assert forall|p: Seq<int>, q: Seq<int>|
            path_ok(p, 0, 256) && path_ok(q, 0, 256) && table_at(m, BOOT_TABLES, p) is Some && (
            #[trigger] table_at(m, BOOT_TABLES, p)) == (#[trigger] table_at(m, BOOT_TABLES, q)) implies p
            == q by {
            assert(boot_table(identity, p) == boot_table(identity, q));
        }
    }
    assert(tree_wf(m, BOOT_TABLES, 256, 512)) by {
        assert forall|p: Seq<int>, q: Seq<int>|
            path_ok(p, 256, 512) && path_ok(q, 256, 512) && table_at(m, BOOT_TABLES, p) is Some && (
            #[trigger] table_at(m, BOOT_TABLES, p)) == (#[trigger] table_at(m, BOOT_TABLES, q)) implies p
            == q by {
            assert(boot_table(identity, p) == boot_table(identity, q));
        }
    }
}

/// What the boot tables map: the addresses of the three mappings to 2 MiB pages, and nothing
/// else.
pub open spec fn boot_leaf(identity: bool, x: u64) -> Leaf {
    let p = indices(x);
    if (p[0] == 0 && p[1] == 0 && identity) || (p[0] == 256 && p[1] == 0) || (p[0] == 511 && p[1]
        == 510) {
        Leaf::Page2M((p[2] * 0x20_0000 + 0x83) as u64)
    } else {
        Leaf::Unmapped
    }
}

/// Every address is mapped as the three mappings say.
pub proof fn law_boot_leaf(m: Seq<u64>, identity: bool, x: u64)
    requires
        boot_tables(m, identity),
    ensures
        leaf(m, BOOT_TABLES, x) == boot_leaf(identity, x),
{
    let p = indices(x);
    lemma_indices_ok(x, 2, 0, 512);
    lemma_indices_ok(x, 3, 0, 512);
    lemma_boot_table(m, identity, p.take(2));
    lemma_boot_table(m, identity, p.take(3));
    let i = p[2];
    assert(0 <= i < 512);
    lemma_boot_bits(i as u64);
    assert(p.take(2)[0] == p[0] && p.take(2)[1] == p[1]);
    if boot_table(identity, p.take(2)) is Some {
        let n = if p[0] == 0 {
            2int
        } else if p[0] == 256 {
            4
        } else {
            6
        };
        assert(m[slot(boot_frame(n), i)] == boot_word(identity, n, i));
    }
}

/// The physical address that an address of a 2 MiB page is translated to.
pub open spec fn physical(l: Leaf, x: u64) -> Option<int> {
    match l {
        Leaf::Page2M(e) => Some(pte_addr(e) + x as int % 0x20_0000),
        _ => None,
    }
}

/// Each of the first gigabyte's physical addresses is found at itself, in the direct map
/// and where the supervisor is linked.
#[verifier::rlimit(30)]
pub proof fn law_boot_translation(m: Seq<u64>, a: u64)
    requires
        boot_tables(m, true),
        a < 0x4000_0000,
    ensures
        physical(leaf(m, BOOT_TABLES, a), a) == Some(a as int),
        physical(leaf(m, BOOT_TABLES, (HHDM_OFFSET + a) as u64), (HHDM_OFFSET + a) as u64) == Some(
            a as int,
        ),
        physical(leaf(m, BOOT_TABLES, (KERNEL_VMA + a) as u64), (KERNEL_VMA + a) as u64) == Some(
            a as int,
        ),
{
    lemma_boot_indices(a);
    lemma_boot_physical(m, a, a);
    lemma_boot_physical(m, a, (HHDM_OFFSET + a) as u64);
    lemma_boot_physical(m, a, (KERNEL_VMA + a) as u64);
}

proof fn lemma_boot_indices(a: u64)
    requires
        a < 0x4000_0000,
    ensures
        ({
            let h = (HHDM_OFFSET + a) as u64;
            let k = (KERNEL_VMA + a) as u64;
            &&& indices(a)[0] == 0 && indices(a)[1] == 0 && indices(a)[2] == a as int / 0x20_0000
            &&& indices(h)[0] == 256 && indices(h)[1] == 0 && indices(h)[2] == a as int / 0x20_0000
            &&& indices(k)[0] == 511 && indices(k)[1] == 510 && indices(k)[2] == a as int
                / 0x20_0000
            &&& h as int % 0x20_0000 == a as int % 0x20_0000
            &&& k as int % 0x20_0000 == a as int % 0x20_0000
        }),
{
    let h = HHDM_OFFSET + a;
    let k = KERNEL_VMA + a;
    assert(h / 0x20_0000 == 0x7FF_FC00_0000 + a as int / 0x20_0000);
    assert(k / 0x20_0000 == 0x7FF_FFFF_FC00 + a as int / 0x20_0000);
    assert(h / 0x4000_0000 == 0x3_FFFE_0000);
    assert(k / 0x4000_0000 == 0x3_FFFF_FFFE);
    assert(h / 0x80_0000_0000 == 0x1FF_FF00);
    assert(k / 0x80_0000_0000 == 0x1FF_FFFF);
}

/// An address of one of the mappings, whose last bits are those of `a`.
proof fn lemma_boot_physical(m: Seq<u64>, a: u64, x: u64)
    requires
        boot_tables(m, true),
        a < 0x4000_0000,
        boot_leaf(true, x) is Page2M,
        indices(x)[2] == a as int / 0x20_0000,
        x as int % 0x20_0000 == a as int % 0x20_0000,
    ensures
        physical(leaf(m, BOOT_TABLES, x), x) == Some(a as int),
{
    law_boot_leaf(m, true, x);
    lemma_boot_bits((a as int / 0x20_0000) as u64);
}

/// Removing the mapping of low addresses leaves the other two as they are, and no low
/// address is mapped.
pub proof fn law_identity_removed(m: Seq<u64>, x: u64)
    requires
        boot_tables(m, true),
    ensures
        boot_tables(m.update(slot(BOOT_TABLES, 0), 0), false),
        leaf(m.update(slot(BOOT_TABLES, 0), 0), BOOT_TABLES, x) == (if indices(x)[0] == 0 {
            Leaf::Unmapped
        } else {
            leaf(m, BOOT_TABLES, x)
        }),
{
    let m2 = m.update(slot(BOOT_TABLES, 0), 0);
    assert forall|p: int, i: int| 0 <= p < 7 && 0 <= i < 512 implies #[trigger] m2[slot(
        boot_frame(p),
        i,
    )] == boot_word(false, p, i) by {
        assert(slot(boot_frame(p), i) == 0x8_0000 + 512 * p + i);
        assert(m[slot(boot_frame(p), i)] == boot_word(true, p, i));
    }
    law_boot_leaf(m, true, x);
    law_boot_leaf(m2, false, x);
}

/// Where no shard has memory and the boot tables are not free, the supervisor's half of the
/// address space is in order.
pub proof fn lemma_boot_kernel(
    t: Seq<ShardDescriptor>,
    m: Seq<u64>,
    v: FrameView,
    identity: bool,
)
    requires
        boot_tables(m, identity),
        forall|i: int| 0 <= i < t.len() ==> !(#[trigger] t[i]).live(),
        forall|p: int| 0 <= p < 7 ==> !v.avail(#[trigger] boot_frame(p)),
    ensures
        kernel_ok(t, m, v, BOOT_TABLES),
{
    law_boot_tree(m, identity);
    assert forall|q: Seq<int>| path_ok(q, 256, 512) implies (#[trigger] table_at(
        m,
        BOOT_TABLES,
        q,
    ) matches Some(f) ==> !v.avail(f)) by {
        assert(path_ok(q, 0, 512));
        lemma_boot_table(m, identity, q);
        if boot_table(identity, q) is Some {
            assert(!v.avail(boot_frame(0)) && !v.avail(boot_frame(1)) && !v.avail(boot_frame(2))
                && !v.avail(boot_frame(3)) && !v.avail(boot_frame(4)) && !v.avail(boot_frame(5))
                && !v.avail(boot_frame(6)));
        }
    }
    assert forall|x: u64| x >= MMIO_VIRT_BASE implies !(#[trigger] leaf(
        m,
        BOOT_TABLES,
        x,
    ) is Page2M) by {
        law_boot_leaf(m, identity, x);
        assert(x as int / 0x4000_0000 == 0x3_FFFF_FFFF);
        assert(indices(x)[1] == 511);
        assert(x as int / 0x80_0000_0000 == 0x1FF_FFFF);
        assert(indices(x)[0] == 511);
    }
    assert(upper_hidden(m, BOOT_TABLES)) by {
        reveal(upper_hidden);
        assert forall|x: u64| in_half(x, 256, 512) implies !user_page(#[trigger] leaf(
            m,
            BOOT_TABLES,
            x,
        )) by {
            law_boot_leaf(m, identity, x);
            let i = indices(x)[2] as u64;
            assert(i < 512 ==> ((i * 0x20_0000 + 0x83) as u64) & 4 == 0) by (bit_vector);
        }
    }
    lemma_boot_links(m, identity);
    reveal(kernel_ok);
}

/// The entries that lead to the boot tables are present and allow writing.
proof fn lemma_boot_links(m: Seq<u64>, identity: bool)
    requires
        boot_tables(m, identity),
    ensures
        ways_open(m, BOOT_TABLES, 256, 512, PARENT_FLAGS_2M),
{
    reveal(ways_open);
    assert forall|q: Seq<int>|
        path_ok(q, 256, 512) && q.len() > 0 && (#[trigger] table_at(m, BOOT_TABLES, q)) is Some implies link(
        m,
        BOOT_TABLES,
        q,
    ) & PARENT_FLAGS_2M == PARENT_FLAGS_2M by {
        let p = q.drop_last();
        assert(path_ok(q, 0, 512));
        assert(path_ok(p, 0, 512)) by {
            assert forall|i: int| 0 <= i < p.len() implies 0 <= #[trigger] p[i] < 512 by {
                assert(p[i] == q[i]);
            }
        }
        lemma_boot_table(m, identity, q);
        lemma_boot_table(m, identity, p);
        let n = if q.len() == 1 {
            0int
        } else if q[0] == 256 {
            3
        } else {
            5
        };
        assert(table_at(m, BOOT_TABLES, p) == Some(boot_frame(n)));
        assert(m[slot(boot_frame(n), q.last())] == boot_word(identity, n, q.last()));
        assert(0x40_3003u64 & 3 == 3 && 0x40_5003u64 & 3 == 3 && 0x40_4003u64 & 3 == 3
            && 0x40_6003u64 & 3 == 3) by (bit_vector);
    }
}

} // verus!
