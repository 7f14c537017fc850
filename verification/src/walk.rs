//! How the processor translates an address, from the words of the page tables.

use vstd::prelude::*;

use crate::vmm::{executable, huge, indices, leaf, present, pte_addr, pte_value, table_at, user};
use crate::vmm::{writable, Leaf};

verus! {

/// The entry for `virt` in the table at `t`, where `span` bytes are translated by each entry.
pub open spec fn walked(m: Seq<u64>, t: u64, virt: u64, span: int) -> u64 {
    m[t as int / 8 + virt as int / span % 512]
}

/// Translation walks down four tables of 512 entries, each of which translates 512 GiB,
/// 1 GiB, 2 MiB and 4 KiB. It ends at an entry whose bit 0 is clear, at one of the third table
/// with bit 7 set, which is a page of 2 MiB, or at one of the fourth, which is a page of 4 KiB.
/// Bits 12 to 51 of the other entries give the next table.
pub proof fn law_four_level_walk(m: Seq<u64>, root: u64, virt: u64)
    ensures
        ({
            let mask: u64 = 0x000F_FFFF_FFFF_F000;
            let e0 = walked(m, root, virt, 0x80_0000_0000);
            let e1 = walked(m, e0 & mask, virt, 0x4000_0000);
            let e2 = walked(m, e1 & mask, virt, 0x20_0000);
            let e3 = walked(m, e2 & mask, virt, 0x1000);
            leaf(m, root, virt) == (if e0 & 1 == 0 || e1 & 1 == 0 || e2 & 1 == 0 {
                Leaf::Unmapped
            } else if e2 & 0x80 != 0 {
                Leaf::Page2M(e2)
            } else if e3 & 1 == 0 {
                Leaf::Unmapped
            } else {
                Leaf::Page4K(e3)
            })
        }),
{
    reveal_with_fuel(table_at, 4);
    let p = indices(virt);
    assert(p.take(3).drop_last() =~= p.take(2));
    assert(p.take(2).drop_last() =~= p.take(1));
    assert(p.take(1).drop_last() =~= p.take(0));
    assert(p.take(3).last() == p[2] && p.take(2).last() == p[1] && p.take(1).last() == p[0]);
    assert(table_at(m, root, p.take(0)) == Some(root));
}

/// Flags and address of an entry by their bits: present, writable and for user mode are bits
/// 0, 1 and 2, not executable is bit 63, and the address is bits 12 to 51.
pub proof fn law_entry_bits(e: u64, phys: u64, flags: u64)
    ensures
        present(e) <==> e & 1 != 0,
        writable(e) <==> e & 2 != 0,
        user(e) <==> e & 4 != 0,
        huge(e) <==> e & 0x80 != 0,
        executable(e) <==> e & 0x8000_0000_0000_0000 == 0,
        pte_addr(e) == e & 0x000F_FFFF_FFFF_F000,
        pte_value(phys, flags) == (phys & 0x000F_FFFF_FFFF_F000) | flags,
{
}

} // verus!
