//! How the parts are put together: the numbers and places that hardware, firmware and programs
//! rely on.

use vstd::prelude::*;

use crate::aslr::{law_placed, placeable, vaddr_for};
use crate::bytes::{le16, le32};
use crate::capability::{holds, permits, rights_text, type_text};
use crate::gpu::{first_bar, map_size, partition, receiver_caps, sender_caps, vram_visible};
use crate::highhalf::{boot_tables, law_boot_leaf};
use crate::idt::fault_text;
use crate::mkfs::{data_blocks, greeting, hello_name, image_with, lcg, low_bits, model_blocks};
use crate::mkfs::{model_name, ModelShape};
use crate::pci::{class_text, first_display, BarInfo, PciDevice};
use crate::scheduler::swept;
use crate::shard::{ShardDescriptor, ShardState};
use crate::shard_gpu::device_present;
use crate::shared::MemoryRegionType;
use crate::vmm::{direct_phys, direct_virt, indices, leaf, AddressMap, Leaf};
use crate::window::{page, pages_for};

verus! {

/// Once the higher half is active, the byte at physical address `a` is found 0xFFFF_8000_0000_0000
/// above it; before, where it is.
pub proof fn law_direct_map(map: AddressMap, a: int)
    ensures
        map.higher_half_active ==> direct_virt(map, a) == a + 0xFFFF_8000_0000_0000 && direct_phys(
            map,
            a + 0xFFFF_8000_0000_0000,
        ) == a,
        !map.higher_half_active ==> direct_virt(map, a) == a && direct_phys(map, a) == a,
{
}

/// The boot tables start at 0x40_0000. They map the first gigabyte in pages of 2 MiB, present and
/// writable, at itself, 0xFFFF_8000_0000_0000 above and 0xFFFF_FFFF_8000_0000 above.
pub proof fn law_three_mappings(m: Seq<u64>, a: u64)
    requires
        boot_tables(m, true),
        a < 0x4000_0000,
    ensures
        ({
            let e = Leaf::Page2M((a / 0x20_0000 * 0x20_0000 + 0x83) as u64);
            &&& leaf(m, 0x40_0000, a) == e
            &&& leaf(m, 0x40_0000, (a + 0xFFFF_8000_0000_0000) as u64) == e
            &&& leaf(m, 0x40_0000, (a + 0xFFFF_FFFF_8000_0000) as u64) == e
        }),
{
    let h = (a + 0xFFFF_8000_0000_0000) as u64;
    let k = (a + 0xFFFF_FFFF_8000_0000) as u64;
    law_boot_leaf(m, true, a);
    law_boot_leaf(m, true, h);
    law_boot_leaf(m, true, k);
    lemma_parts(a);
    lemma_parts(h);
    lemma_parts(k);
}

/// The entries that translate an address of the first gigabyte or of its copies.
proof fn lemma_parts(x: u64)
    ensures
        x < 0x4000_0000 ==> indices(x)[0] == 0 && indices(x)[1] == 0 && indices(x)[2] == x as int
            / 0x20_0000,
        0xFFFF_8000_0000_0000 <= x < 0xFFFF_8000_4000_0000 ==> indices(x)[0] == 256 && indices(x)[1]
            == 0 && indices(x)[2] == (x - 0xFFFF_8000_0000_0000) / 0x20_0000,
        0xFFFF_FFFF_8000_0000 <= x < 0xFFFF_FFFF_C000_0000 ==> indices(x)[0] == 511 && indices(x)[1]
            == 510 && indices(x)[2] == (x - 0xFFFF_FFFF_8000_0000) / 0x20_0000,
{
    let a = x as int;
    if a < 0x4000_0000 {
        assert(a / 0x80_0000_0000 == 0 && a / 0x4000_0000 == 0 && a / 0x20_0000 < 512);
    }
    if 0xFFFF_8000_0000_0000 <= a < 0xFFFF_8000_4000_0000 {
        let b = a - 0xFFFF_8000_0000_0000;
        assert(a / 0x80_0000_0000 == 0x1FF_FF00);
        assert(a / 0x4000_0000 == 0x3_FFFE_0000);
        assert(a / 0x20_0000 == 0x7FF_FC00_0000 + b / 0x20_0000);
        assert(b / 0x20_0000 < 512);
    }
    if 0xFFFF_FFFF_8000_0000 <= a < 0xFFFF_FFFF_C000_0000 {
        let b = a - 0xFFFF_FFFF_8000_0000;
        assert(a / 0x80_0000_0000 == 0x1FF_FFFF);
        assert(a / 0x4000_0000 == 0x3_FFFF_FFFE);
        assert(a / 0x20_0000 == 0x7FF_FFFF_FC00 + b / 0x20_0000);
        assert(b / 0x20_0000 < 512);
    }
}

/// Device memory takes as many pages as hold all of its bytes, and no more.
pub proof fn law_pages_for(phys_base: u64, size: u64)
    ensures
        pages_for(phys_base, size) * 4096 >= phys_base % 4096 + size,
        (pages_for(phys_base, size) - 1) * 4096 < phys_base % 4096 + size,
{
}

/// The supervisor sees every byte of video memory, at the same place in its page: present,
/// writable, for the kernel alone, not cached and not executable.
pub proof fn law_video_memory_visible(m: Seq<u64>, sup: u64, next: u64, vram: BarInfo, k: int)
    requires
        vram_visible(m, sup, next, vram),
        0 <= k < vram.size,
    ensures
        ({
            let j = (vram.phys_base % 4096 + k) / 4096;
            leaf(m, sup, (next + j * 4096) as u64) == Leaf::Page4K(
                (((vram.phys_base / 4096 * 4096 + j * 4096) as u64) & 0x000F_FFFF_FFFF_F000)
                    | 0x8000_0000_0000_001B,
            )
        }),
{
    let j = (vram.phys_base % 4096 + k) / 4096;
    let base = (vram.phys_base - vram.phys_base % 4096) as u64;
    assert(0 <= j < pages_for(vram.phys_base, vram.size));
    assert(page(next, j) == (next + j * 4096) as u64);
    assert(page(base, j) == (base + j * 4096) as u64);
}

/// An address that is drawn for device memory is a page boundary from the end of the stack,
/// 0x80_0000, on, and the memory ends before 0x3F00_0000. There is a choice where there is one
/// page to spare.
pub proof fn law_drawn_in_region(x: u64, size: u64)
    requires
        size + 4096 <= 0x3E80_0000,
    ensures
        placeable(size),
        vaddr_for(x, size) % 4096 == 0,
        0x80_0000 <= vaddr_for(x, size),
        vaddr_for(x, size) + size <= 0x3F00_0000,
{
    law_placed(x, size);
}

/// Device memory that does not fit with a page to spare cannot be placed.
pub proof fn law_too_large_to_place(size: u64)
    requires
        size + 4096 > 0x3E80_0000,
    ensures
        !placeable(size),
{
}

/// What the shard of the first partition may do: send on channel 0, and copy to partition 1.
/// That of the second may receive on channel 0. Neither may do anything else.
pub proof fn law_gpu_shards_may(
    a: ShardDescriptor,
    b: ShardDescriptor,
    cap_type: u8,
    resource: u32,
    right: u16,
)
    requires
        a.caps@ == sender_caps(),
        b.caps@ == receiver_caps(),
        right == 1 || right == 2 || right == 4,
    ensures
        holds(a, cap_type, resource, right) <==> cap_type == 1 && resource == 0 && right == 1
            || cap_type == 4 && resource == 1 && right == 1,
        holds(b, cap_type, resource, right) <==> cap_type == 1 && resource == 0 && right == 2,
{
    assert(1u16 & 1 == 1 && 1u16 & 2 == 0 && 1u16 & 4 == 0 && 2u16 & 1 == 0 && 2u16 & 2 == 2
        && 2u16 & 4 == 0) by (bit_vector);
    if cap_type == 1 && resource == 0 && right == 1 {
        assert(permits(a.caps@[0], cap_type, resource, right));
    }
    if cap_type == 4 && resource == 1 && right == 1 {
        assert(permits(a.caps@[1], cap_type, resource, right));
    }
    if cap_type == 1 && resource == 0 && right == 2 {
        assert(permits(b.caps@[0], cap_type, resource, right));
    }
    assert forall|i: int| 0 <= i < 16 && permits(
        #[trigger] a.caps@[i],
        cap_type,
        resource,
        right,
    ) implies i < 2 by {}
    assert forall|i: int| 0 <= i < 16 && permits(
        #[trigger] b.caps@[i],
        cap_type,
        resource,
        right,
    ) implies i < 1 by {}
}

/// Registers are the first memory that is not prefetchable, and video memory the first that is,
/// of the base addresses that have a size.
pub proof fn law_first_bar(bars: Seq<BarInfo>, prefetchable: bool, i: int, n: int)
    requires
        0 <= i <= n <= bars.len(),
        n < bars.len() ==> bars[n].size > 0 && bars[n].is_memory && bars[n].prefetchable
            == prefetchable,
        forall|k: int|
            i <= k < n ==> (#[trigger] bars[k]).size == 0 || !bars[k].is_memory
                || bars[k].prefetchable != prefetchable,
    ensures
        first_bar(bars, prefetchable, i) == (if n < bars.len() {
            Some(bars[n])
        } else {
            None
        }),
    decreases n - i,
{
    if i < n {
        assert(bars[i].size == 0 || !bars[i].is_memory || bars[i].prefetchable != prefetchable);
        law_first_bar(bars, prefetchable, i + 1, n);
    }
}

/// A shard sees half of video memory, or 32 MiB of it where half is more.
pub proof fn law_seen_half(vram: BarInfo)
    ensures
        map_size(vram) == (if vram.size / 2 < 0x200_0000 {
            vram.size / 2
        } else {
            0x200_0000
        }),
{
    crate::gpu::law_partition_halves(vram.size);
    assert(partition(vram.size, 0).vram_size == vram.size / 2);
}

/// Once shards are swept, none is in the state of having exited: one that had is destroyed, with
/// no memory and no capability left. All others are as they were.
pub proof fn law_none_left(s: ShardDescriptor, s2: ShardDescriptor, c: int)
    requires
        swept(s, s2),
        0 <= c < 16,
    ensures
        s2.state != ShardState::Exited,
        s.state == ShardState::Exited ==> s2.state == ShardState::Destroyed && s2.frame_count == 0
            && !s2.caps@[c].valid && s2.exit_code == s.exit_code,
        s.state != ShardState::Exited ==> s2 == s,
{
    if s.state == ShardState::Exited {
        assert(!s2.caps@[c].valid);
    }
}

/// A device is there unless its identification reads as all zeros or all ones.
pub proof fn law_device_present(id: u16)
    ensures
        !device_present(id) <==> id == 0 || id == 0xFFFF,
{
}

/// The display controller is the first device of class 3.
pub proof fn law_first_display(devices: Seq<PciDevice>, i: int)
    ensures
        first_display(devices, i) <==> 0 <= i < devices.len() && devices[i].class == 3 && (forall|
            j: int,
        |
            0 <= j < i ==> (#[trigger] devices[j]).class != 3),
{
}

/// The types of memory by their numbers at handoff; no two have the same.
pub proof fn law_region_numbers(a: MemoryRegionType, b: MemoryRegionType)
    ensures
        MemoryRegionType::Usable.number() == 0,
        MemoryRegionType::Reserved.number() == 1,
        MemoryRegionType::AcpiReclaimable.number() == 2,
        MemoryRegionType::SupervisorCode.number() == 3,
        MemoryRegionType::BootloaderReclaimable.number() == 4,
        MemoryRegionType::AcpiNvs.number() == 5,
        MemoryRegionType::Mmio.number() == 6,
        a.number() == b.number() ==> a == b,
{
}

/// The generator of weights is linear: two states that differ by `d` lead to states that differ
/// by `d` times the same number, and zero leads to a number of its own.
pub proof fn law_weights_generator(s: u64, d: u64)
    requires
        s + d <= u64::MAX,
    ensures
        lcg(0) == 1442695040888963407,
        (lcg((s + d) as u64) - lcg(s) - d * 6364136223846793005) % 0x1_0000_0000_0000_0000 == 0,
{
    let m = 0x1_0000_0000_0000_0000int;
    let a = 6364136223846793005int;
    let c = 1442695040888963407int;
    let x = s * a + c;
    let y = (s + d) * a + c;
    assert(y == x + d * a) by (nonlinear_arith)
        requires
            x == s * a + c,
            y == (s + d) * a + c,
    ;
    assert(y % m - x % m - d * a == m * (x / m) - m * (y / m));
    assert((m * (x / m) - m * (y / m)) % m == 0) by {
        assert(m * (x / m) - m * (y / m) == m * (x / m - y / m));
        vstd::arithmetic::div_mod::lemma_mod_multiples_basic(x / m - y / m, m);
    }
}

/// The weights of the embedded model: 1024 for the tokens; in each of two layers 64 for norms,
/// four times 1024 for attention and three times 2048 for the rest; 32 for the last norm, and
/// twice 128 for rotations.
pub proof fn law_weights_add_up()
    ensures
        ModelShape::spec_embedded().weights() == 1024 + 2 * (64 + 4 * 1024 + 3 * 2048) + 32 + 2
            * 128,
        ModelShape::spec_embedded().numbers() == seq![32u32, 64, 2, 4, 4, 32, 32],
{
    let s = ModelShape::spec_embedded();
    let d = s.dim as int;
    let head = d / s.heads as int;
    let kv = s.kv_heads * head;
    let layer = 2 * d + 2 * (d * d) + 2 * (d * kv) + 3 * (d * s.hidden_dim);
    assert(head == 8);
    assert(kv == 32) by (nonlinear_arith)
        requires
            kv == s.kv_heads * head,
            s.kv_heads == 4,
            head == 8,
    ;
    assert(s.seq_len * head == 256) by (nonlinear_arith)
        requires
            s.seq_len == 32,
            head == 8,
    ;
    assert(d * d == 1024 && d * kv == 1024 && d * s.hidden_dim == 2048 && s.vocab_size * d == 1024)
        by (nonlinear_arith)
        requires
            d == 32,
            kv == 32,
            s.hidden_dim == 64,
            s.vocab_size == 32,
    ;
    assert(s.layers * layer == 2 * layer) by (nonlinear_arith)
        requires
            s.layers == 2,
    ;
}

/// Whether the bytes are those of the text.
pub open spec fn spells(b: Seq<u8>, text: Seq<char>) -> bool {
    b.len() == text.len() && forall|i: int| 0 <= i < b.len() ==> #[trigger] b[i] == text[i] as u8
}

/// The names of the files and the text of the greeting.
pub proof fn law_file_names()
    ensures
        spells(hello_name(), "hello.txt"@),
        spells(model_name(), "model.bin"@),
        spells(greeting(), "Hello from coconutFS!\n"@),
{
    reveal_strlit("hello.txt");
    reveal_strlit("model.bin");
    reveal_strlit("Hello from coconutFS!\n");
}

/// The books of the image balance: blocks in use and free ones are all 128, both records of them
/// agree, and a block is marked in the bitmap exactly where it is in use. Of 32 inodes, 12 are
/// taken.
pub proof fn law_image_books(img: Seq<u8>, model: Seq<u8>, j: int)
    requires
        image_with(img, model),
        0 <= j < 16,
    ensures
        img.len() == 128 * 1024,
        le32(img, 1028) == 128,
        le32(img, 1036) + 11 + (model.len() + 1023) / 1024 + (if model.len() > 12 * 1024 {
            1int
        } else {
            0
        }) == 128,
        le16(img, 2060) == le32(img, 1036),
        le32(img, 1024) == 32,
        le32(img, 1040) == 20,
        le16(img, 2062) == 20,
        le16(img, 4096) == 0x0FFF,
        le16(img, 1080) == 0xEF53,
        8 * (j + 1) <= 128 - le32(img, 1036) ==> img[3072 + j] == 0xFF,
        8 * j >= 128 - le32(img, 1036) ==> img[3072 + j] == 0,
{
    let used = 128 - le32(img, 1036);
    assert(data_blocks(model.len() as int) > 12 <==> model.len() > 12 * 1024);
    assert(model_blocks(model.len() as int) == used - 11);
    assert(img[3072 + j] == low_bits(used - 8 * j));
}

/// The inodes of the image: the root directory, number 2, and the files, 11 and 12, which
/// everyone can read and the owner alone can write, with their sizes, their numbers of links and
/// their first blocks.
pub proof fn law_image_inodes(img: Seq<u8>, model: Seq<u8>)
    requires
        image_with(img, model),
        model.len() > 0,
    ensures
        le16(img, 5248) == 0x41ED,
        le32(img, 5252) == 1024,
        le16(img, 5274) == 2,
        le32(img, 5288) == 9,
        le16(img, 6400) == 0x81A4,
        le32(img, 6404) == 22,
        le16(img, 6426) == 1,
        le32(img, 6440) == 10,
        le16(img, 6528) == 0x81A4,
        le32(img, 6532) == model.len(),
        le16(img, 6554) == 1,
        le32(img, 6568) == 11,
{
    assert(le32(img, 5248 + 40 + 4 * 0int) == 9);
    assert(le32(img, 6400 + 40 + 4 * 0int) == 10);
    assert(data_blocks(model.len() as int) > 0);
    assert(le32(img, 6528 + 40 + 4 * 0int) == 11);
}

/// The kinds of capabilities by name.
pub proof fn law_type_names(cap_type: u8)
    ensures
        type_text(1) == "CHANNEL"@,
        type_text(2) == "SHARD"@,
        type_text(3) == "MEMORY"@,
        type_text(4) == "GPU_DMA"@,
        cap_type == 0 || cap_type > 4 ==> type_text(cap_type) == "UNKNOWN"@,
{
}

/// The rights on a channel by name: the text has SEND in it where bit 0 is set, RECV where bit 1
/// is, and GRANT where bit 2 is; these are the ones with the letters S, V and G.
pub proof fn law_right_names(rights: u16)
    ensures
        rights & 1 != 0 <==> rights_text(1, rights).contains('S'),
        rights & 2 != 0 <==> rights_text(1, rights).contains('V'),
        rights & 4 != 0 <==> rights_text(1, rights).contains('G'),
{
    reveal_strlit("SEND");
    reveal_strlit("RECV");
    reveal_strlit("GRANT");
    reveal_strlit("NONE");
    reveal_strlit("SEND|RECV");
    reveal_strlit("SEND|GRANT");
    reveal_strlit("RECV|GRANT");
    reveal_strlit("SEND|RECV|GRANT");
    let t = rights_text(1, rights);
    if rights & 1 != 0 {
        assert(t[0] == 'S');
    }
    if rights & 2 != 0 {
        if rights & 1 != 0 {
            assert(t[8] == 'V');
        } else {
            assert(t[3] == 'V');
        }
    }
    if rights & 4 != 0 {
        if rights & 1 != 0 && rights & 2 != 0 {
            assert(t[10] == 'G');
        } else if rights & 1 != 0 || rights & 2 != 0 {
            assert(t[5] == 'G');
        } else {
            assert(t[0] == 'G');
        }
    }
}

/// The exceptions by name.
pub proof fn law_fault_names(vector: u64)
    ensures
        fault_text(0) == "Divide Error"@,
        fault_text(8) == "Double Fault"@,
        fault_text(13) == "General Protection Fault"@,
        fault_text(14) == "Page Fault"@,
        vector != 0 && vector != 8 && vector != 13 && vector != 14 ==> fault_text(vector)
            == "Unknown Interrupt"@,
{
}

/// The devices by name, those with a name of their own subclass first.
pub proof fn law_class_names(subclass: u8)
    ensures
        class_text(0, 0) == "Non-VGA unclassified"@,
        class_text(1, subclass) == "Mass storage controller"@,
        class_text(2, subclass) == "Network controller"@,
        class_text(3, 0) == "VGA compatible controller"@,
        subclass != 0 ==> class_text(3, subclass) == "Display controller"@,
        class_text(4, subclass) == "Multimedia controller"@,
        class_text(6, 0) == "Host bridge"@,
        class_text(6, 1) == "ISA bridge"@,
        class_text(6, 4) == "PCI bridge"@,
        subclass != 0 && subclass != 1 && subclass != 4 ==> class_text(6, subclass)
            == "Bridge device"@,
        class_text(8, subclass) == "System peripheral"@,
        class_text(12, 3) == "USB controller"@,
        subclass != 3 ==> class_text(12, subclass) == "Serial bus controller"@,
{
}

} // verus!
