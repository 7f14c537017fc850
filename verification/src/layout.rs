//! What lies where in memory that user code or a device reads, address by address.

use vstd::prelude::*;

use crate::bytes::{law_put_then_read, le32, le64, put};
use crate::gpu::GpuPartition;
use crate::hal::{bar_range, config_page, hal_leaves, hal_shard, min, vram_range, DeviceRange};
use crate::hal::DEVICE_FLAGS;
use crate::mem::{byte_at, bytes_at, page_of};
use crate::pci::BarInfo;
use crate::shard::{code_pages, first_free, is_zero_page, shard_leaf, ShardDescriptor, ShardState};
use crate::vmm::{in_half, indices, leaf, pte_value, Leaf, PTE_PRESENT};
use crate::vram::{aligned_next, alloc_fits, alloc_wf, allocated, allocation, cell, count_of, dot};
use crate::vram::{find_allocation, freed, law_dot, law_matrix_product, lemma_allocated};
use crate::vram::{lemma_freed, next_of, product, ring_completed, ring_made, ring_submitted};
use crate::vram::total_of;
use crate::window::{apart, lemma_one_gib, one_gib, page};

verus! {

/// Number of pages for code of `len` bytes: as many as it fills or starts, and at least one.
pub open spec fn pages_filled(len: int, pages: int) -> bool {
    pages >= 1 && len <= 4096 * pages && (pages > 1 ==> 4096 * (pages - 1) < len)
}

proof fn lemma_pages_filled(len: int, pages: int)
    requires
        0 <= len,
        pages_filled(len, pages),
    ensures
        code_pages(len) == pages,
{
}

/// Byte number `k` of a shard's code lies at address 0x1000 + `k`, on a page that is present
/// and for user mode, executable and not writable. Zeros follow to the end of the last page.
pub proof fn law_code_by_bytes(
    s: ShardDescriptor,
    m: Seq<u64>,
    code: Seq<u8>,
    pages: int,
    k: int,
)
    requires
        pages_filled(code.len() as int, pages),
        pages <= 30,
        forall|j: int|
            1 <= j <= code_pages(code.len() as int) ==> bytes_at(
                m,
                (#[trigger] s.frames()[j]) as int,
                4096,
            ) == page_of(code, j - 1),
        forall|x: u64|
            in_half(x, 0, 256) ==> #[trigger] leaf(m, s.pml4_phys, x) == shard_leaf(
                s.frames(),
                code_pages(code.len() as int),
                x,
            ),
        0 <= k < 4096 * pages,
    ensures
        ({
            let frame = s.frames()[1 + k / 4096];
            &&& leaf(m, s.pml4_phys, (0x1000 + k) as u64) == Leaf::Page4K(
                (frame & 0x000F_FFFF_FFFF_F000) | 5,
            )
            &&& byte_at(m, frame + k % 4096) == (if k < code.len() {
                code[k]
            } else {
                0
            })
        }),
{
    lemma_pages_filled(code.len() as int, pages);
    let x = (0x1000 + k) as u64;
    let j = 1 + k / 4096;
    let p = indices(x);
    assert(x < 0x20_0000);
    assert(p[0] == 0 && p[1] == 0 && p[2] == 0 && p[3] == j) by {
        assert(x as int / 0x1000 == j);
    }
    assert(indices(0x7F_F000)[2] == 3);
    assert(indices(x) != indices(0x7F_F000));
    assert(4u64 | 1 == 5) by (bit_vector);
    assert(in_half(x, 0, 256));
    let b = bytes_at(m, s.frames()[j] as int, 4096);
    assert(b == page_of(code, j - 1));
    assert(b[k % 4096] == byte_at(m, s.frames()[j] + k % 4096));
    assert((j - 1) * 4096 + k % 4096 == k);
}

/// The stack of a new shard is the page from 0x7F_F000 to 0x80_0000: present, writable, for
/// user mode, not executable, and zero. Nothing else of the lower half is mapped.
pub proof fn law_stack_by_bytes(
    s: ShardDescriptor,
    m: Seq<u64>,
    code: Seq<u8>,
    pages: int,
    x: u64,
    k: int,
)
    requires
        pages_filled(code.len() as int, pages),
        pages <= 30,
        is_zero_page(m, s.frames()[code_pages(code.len() as int) + 1]),
        forall|x: u64|
            in_half(x, 0, 256) ==> #[trigger] leaf(m, s.pml4_phys, x) == shard_leaf(
                s.frames(),
                code_pages(code.len() as int),
                x,
            ),
        x < 0x8000_0000_0000,
        0 <= k < 4096,
    ensures
        0x7F_F000 <= x < 0x80_0000 ==> leaf(m, s.pml4_phys, x) == Leaf::Page4K(
            (s.frames()[pages + 1] & 0x000F_FFFF_FFFF_F000) | 0x8000_0000_0000_0007,
        ),
        byte_at(m, s.frames()[pages + 1] + k) == 0,
        !(0x7F_F000 <= x < 0x80_0000) && !(0x1000 <= x < 0x1000 + 4096 * pages) ==> leaf(
            m,
            s.pml4_phys,
            x,
        ) is Unmapped,
{
    lemma_pages_filled(code.len() as int, pages);
    assert(0x8000_0000_0000_0006u64 | 1 == 0x8000_0000_0000_0007) by (bit_vector);
    let b = bytes_at(m, s.frames()[pages + 1] as int, 4096);
    assert(b[k] == 0);
    let p = indices(x);
    let q = indices(0x7F_F000);
    assert(q[0] == 0 && q[1] == 0 && q[2] == 3 && q[3] == 511);
    lemma_low_address(x);
    assert(in_half(x, 0, 256));
    if 0x7F_F000 <= x < 0x80_0000 {
        assert(x as int / 0x1000 == 0x7FF);
        assert(p =~= q);
    } else {
        if p == q {
            assert(p[0] == 0 && p[1] == 0 && p[2] == 3 && p[3] == 511);
        }
    }
}

/// The numbers of the entries for an address of the lower half make up its page number.
pub proof fn lemma_low_address(x: u64)
    requires
        x < 0x8000_0000_0000,
    ensures
        0 <= indices(x)[0] < 256,
        x as int / 0x1000 == ((indices(x)[0] * 512 + indices(x)[1]) * 512 + indices(x)[2]) * 512
            + indices(x)[3],
{
    let a = x as int;
    assert(a / 0x80_0000_0000 < 256);
    assert(a / 0x80_0000_0000 % 512 == a / 0x80_0000_0000);
    assert(a / 0x4000_0000 == a / 0x80_0000_0000 * 512 + a / 0x4000_0000 % 512);
    assert(a / 0x20_0000 == a / 0x4000_0000 * 512 + a / 0x20_0000 % 512);
    assert(a / 0x1000 == a / 0x20_0000 * 512 + a / 0x1000 % 512);
}

/// A new shard gets the lowest slot that has never been used; there is none where all have.
pub proof fn law_lowest_slot(t: Seq<ShardDescriptor>, i: int, id: int)
    requires
        0 <= i <= id <= t.len(),
        id < t.len() ==> t[id].state == ShardState::Free,
        forall|j: int| i <= j < id ==> (#[trigger] t[j]).state != ShardState::Free,
    ensures
        first_free(t, i) == id,
    decreases id - i,
{
    if i < id {
        assert(t[i].state != ShardState::Free);
        law_lowest_slot(t, i + 1, id);
    }
}

/// A page that is in a window is mapped there.
proof fn lemma_seen(m: Seq<u64>, root: u64, virt: u64, phys: u64, pages: int, j: int)
    requires
        forall|j: int|
            0 <= j < pages ==> #[trigger] leaf(m, root, page(virt, j)) == Leaf::Page4K(
                pte_value(page(phys, j), DEVICE_FLAGS | PTE_PRESENT),
            ),
        0 <= j < pages,
    ensures
        leaf(m, root, (virt + j * 4096) as u64) == Leaf::Page4K(
            (((phys + j * 4096) as u64) & 0x000F_FFFF_FFFF_F000) | 0x8000_0000_0000_001F,
        ),
{
    assert(0x8000_0000_0000_001Eu64 | 1 == 0x8000_0000_0000_001F) by (bit_vector);
    assert(page(virt, j) == (virt + j * 4096) as u64);
    assert(page(phys, j) == (phys + j * 4096) as u64);
}

/// The shard of a partition sees the device registers page by page, from their address on and
/// as many as hold them: present, writable, for user mode, not cached and not executable.
pub proof fn law_registers_by_pages(
    s: ShardDescriptor,
    m: Seq<u64>,
    code: Seq<u8>,
    p: GpuPartition,
    mmio: BarInfo,
    mmio_vaddr: u64,
    vram: DeviceRange,
    j: int,
)
    requires
        hal_shard(s, m, code, p, bar_range(mmio, mmio_vaddr, mmio.size), vram),
        0 <= j,
        j * 4096 < mmio.size,
    ensures
        leaf(m, s.pml4_phys, (mmio_vaddr + j * 4096) as u64) == Leaf::Page4K(
            (((mmio.phys_base + j * 4096) as u64) & 0x000F_FFFF_FFFF_F000)
                | 0x8000_0000_0000_001F,
        ),
{
    reveal(hal_shard);
    let a = bar_range(mmio, mmio_vaddr, mmio.size);
    assert(a.pages == (mmio.size + 4095) / 4096);
    assert(j < a.pages);
    assert(forall|j: int|
        0 <= j < a.pages ==> #[trigger] leaf(m, s.pml4_phys, page(a.virt, j)) == Leaf::Page4K(
            pte_value(page(a.phys, j), DEVICE_FLAGS | PTE_PRESENT),
        )) by {
        reveal(hal_leaves);
    }
    lemma_seen(m, s.pml4_phys, mmio_vaddr, mmio.phys_base, a.pages as int, j);
}

/// The shard of a partition sees its own part of video memory, up to 32 MiB of it, from its
/// address on: present, writable, for user mode, not cached and not executable.
pub proof fn law_video_memory_by_pages(
    s: ShardDescriptor,
    m: Seq<u64>,
    code: Seq<u8>,
    p: GpuPartition,
    mmio: DeviceRange,
    vram: BarInfo,
    vram_vaddr: u64,
    j: int,
)
    requires
        hal_shard(s, m, code, p, mmio, vram_range(vram, p, vram_vaddr)),
        vram.phys_base + p.vram_offset <= u64::MAX,
        0 <= j < 8192,
        j * 4096 < p.vram_size,
    ensures
        leaf(m, s.pml4_phys, (vram_vaddr + j * 4096) as u64) == Leaf::Page4K(
            (((vram.phys_base + p.vram_offset + j * 4096) as u64) & 0x000F_FFFF_FFFF_F000)
                | 0x8000_0000_0000_001F,
        ),
{
    reveal(hal_shard);
    let a = vram_range(vram, p, vram_vaddr);
    let size = min(p.vram_size, 0x200_0000);
    assert(a.pages == (size + 4095) / 4096);
    assert(j * 4096 < size);
    assert(j < a.pages);
    assert(forall|j: int|
        0 <= j < a.pages ==> #[trigger] leaf(m, s.pml4_phys, page(a.virt, j)) == Leaf::Page4K(
            pte_value(page(a.phys, j), DEVICE_FLAGS | PTE_PRESENT),
        )) by {
        reveal(hal_leaves);
    }
    lemma_seen(m, s.pml4_phys, vram_vaddr, a.phys, a.pages as int, j);
}

/// An address outside a window is on none of its pages.
pub proof fn lemma_apart(x: u64, virt: u64, n: int)
    requires
        0 <= n,
        one_gib(virt, n),
        virt < 0x4000_0000,
        x < 0x8000_0000_0000,
        x < virt || virt + n * 4096 <= x,
    ensures
        apart(x, virt, n),
{
    lemma_low_address(x);
    assert forall|j: int| 0 <= j < n implies indices(x) != #[trigger] indices(page(virt, j)) by {
        lemma_one_gib(virt, n, j);
        let y = page(virt, j);
        assert(y < 0x4000_0000);
        lemma_low_address(y);
        assert(j * 4096 <= (n - 1) * 4096);
        if indices(x) == indices(y) {
            assert(x as int / 0x1000 == y as int / 0x1000);
            assert(y <= x < y + 4096);
        }
    }
}

/// Behind the last byte that a shard sees of device memory, and before the first, nothing is
/// mapped but the code, the stack and the configuration page.
pub proof fn law_no_more_is_seen(
    s: ShardDescriptor,
    m: Seq<u64>,
    code: Seq<u8>,
    p: GpuPartition,
    mmio: BarInfo,
    mmio_vaddr: u64,
    vram: BarInfo,
    vram_vaddr: u64,
    x: u64,
)
    requires
        hal_shard(
            s,
            m,
            code,
            p,
            bar_range(mmio, mmio_vaddr, mmio.size),
            vram_range(vram, p, vram_vaddr),
        ),
        bar_range(mmio, mmio_vaddr, mmio.size).wf(),
        vram_range(vram, p, vram_vaddr).wf(),
        0x80_0000 <= x < 0x8000_0000_0000,
        x < mmio_vaddr || mmio_vaddr + (mmio.size + 4095) / 4096 * 4096 <= x,
        x < vram_vaddr || vram_vaddr + (p.vram_size + 4095) / 4096 * 4096 <= x || vram_vaddr
            + 0x200_0000 <= x,
    ensures
        leaf(m, s.pml4_phys, x) is Unmapped,
{
    reveal(hal_shard);
    reveal(hal_leaves);
    let a = bar_range(mmio, mmio_vaddr, mmio.size);
    let b = vram_range(vram, p, vram_vaddr);
    let size = min(p.vram_size, 0x200_0000);
    assert(a.pages == (mmio.size + 4095) / 4096);
    assert(b.pages == (size + 4095) / 4096);
    lemma_low_address(x);
    lemma_apart(x, mmio_vaddr, a.pages as int);
    lemma_apart(x, vram_vaddr, b.pages as int);
    lemma_low_address(0x4000);
    lemma_low_address(0x7F_F000);
    let pages = code_pages(code.len() as int);
    assert(x as int / 0x1000 >= 0x800);
    assert(indices(x) != indices(0x4000));
    assert(indices(x) != indices(0x7F_F000));
    assert(in_half(x, 0, 256));
}

/// The configuration page lies at 0x4000, for reading alone. It starts with "GPCF", then come
/// the number of the partition, its size, its compute units, and at 0x18 and 0x20 where video
/// memory and the registers are mapped.
pub proof fn law_configuration_by_words(
    s: ShardDescriptor,
    m: Seq<u64>,
    code: Seq<u8>,
    p: GpuPartition,
    mmio: BarInfo,
    mmio_vaddr: u64,
    vram: BarInfo,
    vram_vaddr: u64,
)
    requires
        hal_shard(
            s,
            m,
            code,
            p,
            bar_range(mmio, mmio_vaddr, mmio.size),
            vram_range(vram, p, vram_vaddr),
        ),
    ensures
        ({
            let frame = s.frames()[code_pages(code.len() as int) + 2];
            let b = bytes_at(m, frame as int, 4096);
            &&& leaf(m, s.pml4_phys, 0x4000) == Leaf::Page4K(
                (frame & 0x000F_FFFF_FFFF_F000) | 0x8000_0000_0000_0005,
            )
            &&& le32(b, 0) == 0x4750_4346
            &&& le32(b, 4) == p.id
            &&& le64(b, 8) == p.vram_size
            &&& le32(b, 16) == p.cu_count
            &&& le64(b, 0x18) == vram_vaddr
            &&& le64(b, 0x20) == mmio_vaddr
        }),
{
    reveal(hal_shard);
    reveal(config_page);
    assert(0x8000_0000_0000_0004u64 | 1 == 0x8000_0000_0000_0005) by (bit_vector);
}

/// An allocation starts at the next multiple of 64 from where free memory starts. There is
/// room exactly where it ends before the end of memory and the table has fewer than 255
/// entries.
pub proof fn law_allocation_place(v: Seq<u8>, size: u32)
    ensures
        aligned_next(v) % 64 == 0,
        le32(v, 8) <= aligned_next(v) < le32(v, 8) + 64,
        alloc_fits(v, size) <==> aligned_next(v) + size <= le32(v, 12) && le32(v, 4) < 255,
{
}

/// An allocation by its words: one more in the count at byte 4, free memory from its end on at
/// byte 8, and in the table from byte 16 on, 16 bytes an entry, its type, offset and size.
/// The entries before stay, and so does all memory behind the first page.
pub proof fn law_allocation_by_words(v: Seq<u8>, alloc_type: u32, size: u32, i: int, k: int)
    requires
        alloc_wf(v),
        alloc_fits(v, size),
        0 <= i < le32(v, 4),
        0x1000 <= k < v.len(),
    ensures
        ({
            let w = allocated(v, alloc_type, size);
            let n = le32(v, 4);
            &&& le32(w, 0) == 0x5641_4C4C
            &&& le32(w, 4) == n + 1
            &&& le32(w, 8) == aligned_next(v) + size
            &&& le32(w, 12) == le32(v, 12)
            &&& allocation(w, n).alloc_type == alloc_type
            &&& allocation(w, n).offset == aligned_next(v)
            &&& allocation(w, n).size == size
            &&& allocation(w, i) == allocation(v, i)
            &&& w[k] == v[k]
        }),
{
    lemma_allocated(v, alloc_type, size);
}

/// Entry number `i` of the table lies at byte 16 + 16 `i`: type, offset and size.
pub proof fn law_table_by_words(v: Seq<u8>, i: int)
    ensures
        allocation(v, i).alloc_type == le32(v, 16 + 16 * i) as u32,
        allocation(v, i).offset == le32(v, 16 + 16 * i + 4) as u32,
        allocation(v, i).size == le32(v, 16 + 16 * i + 8) as u32,
        count_of(v) == le32(v, 4),
        next_of(v) == le32(v, 8),
        total_of(v) == le32(v, 12),
{
}

/// Freeing sets every byte of the allocation to zero and its type to zero, and keeps all other
/// allocations and all other memory.
pub proof fn law_freed_by_bytes(v: Seq<u8>, i: int, j: int, k: int)
    requires
        alloc_wf(v),
        0 <= i < count_of(v),
        0 <= j < count_of(v),
        j != i,
        0x1000 <= k < v.len(),
    ensures
        ({
            let a = allocation(v, i);
            let w = freed(v, i);
            &&& w[k] == (if a.offset <= k < a.offset + a.size {
                0
            } else {
                v[k]
            })
            &&& allocation(w, i).alloc_type == 0
            &&& allocation(w, j) == allocation(v, j)
            &&& count_of(w) == count_of(v)
            &&& next_of(w) == next_of(v)
        }),
{
    lemma_freed(v, i);
}

/// What is freed is the first allocation that starts at the offset; there is none where no
/// allocation does.
pub proof fn law_found_by_offset(v: Seq<u8>, offset: u32, i: int, n: int)
    requires
        0 <= i <= n <= count_of(v),
        n < count_of(v) ==> allocation(v, n).offset == offset,
        forall|j: int| i <= j < n ==> (#[trigger] allocation(v, j)).offset != offset,
    ensures
        find_allocation(v, offset, i) == n,
    decreases n - i,
{
    if i < n {
        assert(allocation(v, i).offset != offset);
        law_found_by_offset(v, offset, i + 1, n);
    }
}

/// A ring by its words: "RING", the positions for writing and reading, and the size 0x1000.
/// A command is 32 bytes behind the header: what to do, its state, where the matrices are and
/// their size, and a fence. Submitting it moves the position for writing behind it, and
/// completing it changes its state to 1 and moves the position for reading.
pub proof fn law_ring_by_words(v: Seq<u8>, base: int, a: u32, b: u32, c: u32, dim: u32)
    requires
        0 <= base,
        base + 0x30 <= v.len(),
    ensures
        ({
            let v0 = ring_made(v, base);
            let v1 = ring_submitted(v0, base, a, b, c, dim);
            let v2 = ring_completed(v1, base);
            &&& le32(v0, base) == 0x474E_4952
            &&& le32(v0, base + 4) == 0
            &&& le32(v0, base + 8) == 0
            &&& le32(v0, base + 12) == 0x1000
            &&& ring_words(v1, base, 32, 0, 0, a, b, c, dim)
            &&& ring_words(v2, base, 32, 32, 1, a, b, c, dim)
        }),
{
    let m0 = put(v, base, 4, 0x474E_4952);
    let m1 = put(m0, base + 4, 4, 0);
    let m2 = put(m1, base + 8, 4, 0);
    lemma_word(v, base, 0x474E_4952);
    lemma_word(m0, base + 4, 0);
    lemma_word(m1, base + 8, 0);
    lemma_word(m2, base + 12, 0x1000);
    let v0 = ring_made(v, base);
    let e = base + 16;
    let w1 = put(v0, e, 4, 1);
    let w2 = put(w1, e + 4, 4, 0);
    let w3 = put(w2, e + 8, 4, a as int);
    let w4 = put(w3, e + 12, 4, b as int);
    let w5 = put(w4, e + 16, 4, c as int);
    let w6 = put(w5, e + 20, 4, dim as int);
    let w7 = put(w6, e + 24, 4, 1);
    let w8 = put(w7, e + 28, 4, 0);
    lemma_word(v0, e, 1);
    lemma_word(w1, e + 4, 0);
    lemma_word(w2, e + 8, a as int);
    lemma_word(w3, e + 12, b as int);
    lemma_word(w4, e + 16, c as int);
    lemma_word(w5, e + 20, dim as int);
    lemma_word(w6, e + 24, 1);
    lemma_word(w7, e + 28, 0);
    lemma_word(w8, base + 4, 32);
    let v1 = put(w8, base + 4, 4, 32);
    assert(v1 == ring_submitted(v0, base, a, b, c, dim));
    let z = put(v1, e + 4, 4, 1);
    lemma_word(v1, e + 4, 1);
    lemma_word(z, base + 8, 32);
    assert(put(z, base + 8, 4, 32) == ring_completed(v1, base));
}

/// The words of a ring that holds a command.
pub open spec fn ring_words(
    v: Seq<u8>,
    base: int,
    written: int,
    taken: int,
    state: int,
    a: u32,
    b: u32,
    c: u32,
    dim: u32,
) -> bool {
    &&& le32(v, base) == 0x474E_4952
    &&& le32(v, base + 4) == written
    &&& le32(v, base + 8) == taken
    &&& le32(v, base + 12) == 0x1000
    &&& le32(v, base + 16) == 1
    &&& le32(v, base + 20) == state
    &&& le32(v, base + 24) == a
    &&& le32(v, base + 28) == b
    &&& le32(v, base + 32) == c
    &&& le32(v, base + 36) == dim
    &&& le32(v, base + 40) == 1
    &&& le32(v, base + 44) == 0
}

/// A word that is written can be read, and all others stay.
proof fn lemma_word(v: Seq<u8>, at: int, x: int)
    requires
        0 <= at,
        at + 4 <= v.len(),
        0 <= x < 0x1_0000_0000,
    ensures
        put(v, at, 4, x).len() == v.len(),
        le32(put(v, at, 4, x), at) == x,
        forall|w: int|
            0 <= w && w + 4 <= v.len() && (w + 4 <= at || at + 4 <= w) ==> #[trigger] le32(
                put(v, at, 4, x),
                w,
            ) == le32(v, w),
{
    law_put_then_read(v, at, 4, x);
}

/// The product of two matrices of four rows and columns, 32-bit numbers row by row: each entry
/// is the sum of the four products of row and column, modulo 2^32.
pub proof fn law_product_by_words(v: Seq<u8>, a: int, b: int, c: int, i: int, j: int)
    requires
        0 <= a,
        0 <= b,
        0 <= c,
        a + 64 <= v.len(),
        b + 64 <= v.len(),
        c + 64 <= v.len(),
        a + 64 <= c || c + 64 <= a,
        b + 64 <= c || c + 64 <= b,
        0 <= i < 4,
        0 <= j < 4,
    ensures
        le32(product(v, a, b, c, 16), c + 16 * i + 4 * j) == (le32(v, a + 16 * i) * le32(
            v,
            b + 4 * j,
        ) + le32(v, a + 16 * i + 4) * le32(v, b + 16 + 4 * j) + le32(v, a + 16 * i + 8) * le32(
            v,
            b + 32 + 4 * j,
        ) + le32(v, a + 16 * i + 12) * le32(v, b + 48 + 4 * j)) % 0x1_0000_0000,
{
    law_matrix_product(v, a, b, c, 16);
    law_dot(v, a, b, i, j);
    let m = 4 * i + j;
    assert(m / 4 == i && m % 4 == j);
    assert(le32(product(v, a, b, c, 16), c + 4 * m) == dot(v, a, b, m / 4, m % 4, 4));
    assert(cell(v, a, i, 0) == le32(v, a + 16 * i));
    assert(cell(v, b, 0, j) == le32(v, b + 4 * j));
}

} // verus!
