//! The program of a GPU shard: it tests its video memory, has the device multiply two
//! matrices, clears up, and tries a copy between the partitions.

use vstd::prelude::*;

use crate::bytes::{law_put_then_read, le32, put, read_u32_le, write_u32_le};
use crate::gpu::{copied, GpuPartition};
use crate::vram::{aligned_next, alloc_fits, alloc_wf, allocated, allocation, cell, count_of, dot};
use crate::vram::{entry_at, find_allocation, law_command_round_trip, law_dot, law_matrix_product};
use crate::vram::{lemma_allocated, lemma_freed, matmul_4x4, product, ring_completed, ring_made};
use crate::vram::{ring_submitted, total_of, zero_range};
use crate::vram::{CommandRing, VramAllocator, ALLOC_MAGIC, ALLOC_PAGE, RING_MAGIC, RING_SIZE};

verus! {

/// Size of a 4 x 4 matrix of 32-bit numbers.
pub const MATRIX_SIZE: u32 = 64;

/// Where the ring and the matrices end.
pub const BUFFERS_END: u32 = 0x20C0;

/// The value that is written and read back first.
pub const TEST_PATTERN: u32 = 0xDEAD_BEEF;

/// Where the test data for copies lie, in both partitions.
pub const DMA_OFFSET: u64 = 0x10_0000;

/// Number of bytes of test data.
pub const DMA_LEN: u64 = 64;

/// Whether the device identifies itself at all.
pub open spec fn device_present(vbe_id: u16) -> bool {
    vbe_id != 0xFFFF && vbe_id != 0
}

/// The offsets of the ring and the three matrices.
#[derive(Debug, Clone, Copy, PartialEq, Eq, Structural)]
pub struct Buffers {
    pub ring: u32,
    pub a: u32,
    pub b: u32,
    pub c: u32,
}

/// The allocator holds the four buffers.
spec fn holds_buffers(v: Seq<u8>, total: u32) -> bool {
    &&& alloc_wf(v)
    &&& total_of(v) == total
    &&& count_of(v) == 4
    &&& allocation(v, 0).offset == 0x1000 && allocation(v, 0).size == 0x1000
    &&& allocation(v, 1).offset == 0x2000 && allocation(v, 1).size == MATRIX_SIZE
    &&& allocation(v, 2).offset == 0x2040 && allocation(v, 2).size == MATRIX_SIZE
    &&& allocation(v, 3).offset == 0x2080 && allocation(v, 3).size == MATRIX_SIZE
}

/// The header of an allocator for `total` bytes that has allocated nothing.
pub open spec fn allocator_made(v: Seq<u8>, total: u32) -> Seq<u8> {
    put(
        put(put(put(v, 0, 4, ALLOC_MAGIC as int), 4, 4, 0), 8, 4, ALLOC_PAGE as int),
        12,
        4,
        total as int,
    )
}

/// The kind and the size of buffer number `i`.
pub open spec fn buffer_kind(i: int) -> (u32, u32) {
    if i == 0 {
        (1, RING_SIZE)
    } else {
        (2, MATRIX_SIZE)
    }
}

/// The buffers from number `i` on are allocated, up to the first for which there is no room.
#[verifier::opaque]
pub open spec fn buffers_taken(v: Seq<u8>, i: int) -> Seq<u8>
    decreases 4 - i,
{
    let (kind, size) = buffer_kind(i);
    if i >= 4 || !alloc_fits(v, size) {
        v
    } else {
        buffers_taken(allocated(v, kind, size), i + 1)
    }
}

/// Taking one buffer, where there is room, leaves the others to be taken.
proof fn lemma_taken(v: Seq<u8>, i: int)
    ensures
        i >= 4 ==> buffers_taken(v, i) == v,
        i < 4 ==> buffers_taken(v, i) == (if alloc_fits(v, buffer_kind(i).1) {
            buffers_taken(allocated(v, buffer_kind(i).0, buffer_kind(i).1), i + 1)
        } else {
            v
        }),
{
    reveal_with_fuel(buffers_taken, 1);
}

/// What is left of a test that fails: the pattern, and where the device is there, the
/// buffers for which there was room.
pub open spec fn test_failed(v: Seq<u8>, total: u32, vbe_id: u16) -> Seq<u8> {
    let w = put(v, 0, 4, TEST_PATTERN as int);
    if device_present(vbe_id) {
        buffers_taken(allocator_made(w, total), 0)
    } else {
        w
    }
}

/// Initialize the allocator, and allocate a ring and three matrices.
fn allocate_buffers(vram: &mut [u8], total: u32) -> (r: Option<Buffers>)
    requires
        old(vram)@.len() >= ALLOC_PAGE,
        total <= old(vram)@.len(),
    ensures
        final(vram)@.len() == old(vram)@.len(),
        r is Some <==> total >= BUFFERS_END,
        r matches Some(b) ==> b == (Buffers { ring: 0x1000, a: 0x2000, b: 0x2040, c: 0x2080 })
            && holds_buffers(final(vram)@, total),
        final(vram)@ == buffers_taken(allocator_made(old(vram)@, total), 0),
        forall|k: int| ALLOC_PAGE <= k < old(vram)@.len() ==> #[trigger] final(vram)@[k] == old(
            vram,
        )@[k],
{
    let ghost v = vram@;
    let mut allocator = VramAllocator::init(vram, total);
    let ghost v0 = vram@;
    assert(forall|k: int| ALLOC_PAGE <= k < v.len() ==> #[trigger] v0[k] == v[k]);
    assert(aligned_next(v0) == 0x1000);
    proof {
        lemma_taken(v0, 0);
    }
    let ring: u32 = match allocator.allocate(vram, 1, RING_SIZE) {
        Some(x) => x,
        None => {
            return None;
        },
    };
    let ghost v1 = vram@;
    proof {
        lemma_allocated(v0, 1, RING_SIZE);
        lemma_taken(v1, 1);
        assert(aligned_next(v1) == 0x2000);
    }
    let a: u32 = match allocator.allocate(vram, 2, MATRIX_SIZE) {
        Some(x) => x,
        None => {
            return None;
        },
    };
    let ghost v2 = vram@;
    proof {
        lemma_allocated(v1, 2, MATRIX_SIZE);
        lemma_taken(v2, 2);
        assert(aligned_next(v2) == 0x2040);
    }
    let b: u32 = match allocator.allocate(vram, 2, MATRIX_SIZE) {
        Some(x) => x,
        None => {
            return None;
        },
    };
    let ghost v3 = vram@;
    proof {
        lemma_allocated(v2, 2, MATRIX_SIZE);
        lemma_taken(v3, 3);
        assert(aligned_next(v3) == 0x2080);
    }
    let c: u32 = match allocator.allocate(vram, 2, MATRIX_SIZE) {
        Some(x) => x,
        None => {
            return None;
        },
    };
    proof {
        lemma_allocated(v3, 2, MATRIX_SIZE);
        let v4 = vram@;
        lemma_taken(v4, 4);
        assert(allocation(v4, 0) == allocation(v3, 0) && allocation(v3, 0) == allocation(v2, 0)
            && allocation(v2, 0) == allocation(v1, 0));
        assert(allocation(v4, 1) == allocation(v3, 1) && allocation(v3, 1) == allocation(v2, 1));
        assert(allocation(v4, 2) == allocation(v3, 2));
        assert forall|k: int| ALLOC_PAGE <= k < v.len() implies #[trigger] v4[k] == v[k] by {
            assert(v4[k] == v3[k] && v3[k] == v2[k] && v2[k] == v1[k] && v1[k] == v0[k]);
        }
    }
    if allocator.alloc_count(vram) != 4 {
        return None;
    }
    Some(Buffers { ring, a, b, c })
}

/// The numbers from 1 on, in row-major order.
pub open spec fn counts_up(v: Seq<u8>, at: int) -> bool {
    forall|i: int| 0 <= i < 16 ==> #[trigger] word(v, at, i) == i + 1
}

/// Word number `i` from `at` on.
pub open spec fn word(v: Seq<u8>, at: int, i: int) -> int {
    le32(v, at + 4 * i)
}

/// Write the numbers 1 to 16.
fn write_counts(vram: &mut [u8], at: usize)
    requires
        at + 64 <= old(vram)@.len(),
    ensures
        final(vram)@.len() == old(vram)@.len(),
        counts_up(final(vram)@, at as int),
        forall|k: int|
            0 <= k < old(vram)@.len() && !(at <= k < at + 64) ==> #[trigger] final(vram)@[k] == old(
                vram,
            )@[k],
{
    let ghost v0 = vram@;
    let mut i: u32 = 0;
    while i < 16
        invariant
            i <= 16,
            v0 == old(vram)@,
            vram@.len() == v0.len(),
            at + 64 <= vram@.len(),
            forall|k: int| 0 <= k < i ==> #[trigger] word(vram@, at as int, k) == k + 1,
            forall|k: int|
                0 <= k < v0.len() && !(at <= k < at + 64) ==> #[trigger] vram@[k] == v0[k],
        decreases 16 - i,
    {
        let ghost v = vram@;
        assert(vram.len() == vram@.len());
        write_u32_le(vram, at + 4 * i as usize, i + 1);
        proof {
            law_put_then_read(v, at + 4 * i, 4, i + 1);
            assert forall|k: int| 0 <= k < i implies #[trigger] word(vram@, at as int, k) == k + 1 by {
                assert(word(v, at as int, k) == k + 1);
            }
        }
        i += 1;
    }
}

/// Twice the unit matrix.
pub open spec fn doubles(v: Seq<u8>, at: int) -> bool {
    forall|i: int|
        0 <= i < 16 ==> #[trigger] word(v, at, i) == (if i % 5 == 0 {
            2int
        } else {
            0
        })
}

/// Write twice the unit matrix.
fn write_doubles(vram: &mut [u8], at: usize)
    requires
        at + 64 <= old(vram)@.len(),
    ensures
        final(vram)@.len() == old(vram)@.len(),
        doubles(final(vram)@, at as int),
        forall|k: int|
            0 <= k < old(vram)@.len() && !(at <= k < at + 64) ==> #[trigger] final(vram)@[k] == old(
                vram,
            )@[k],
{
    let ghost v0 = vram@;
    let mut i: u32 = 0;
    while i < 16
        invariant
            i <= 16,
            v0 == old(vram)@,
            vram@.len() == v0.len(),
            at + 64 <= vram@.len(),
            forall|k: int|
                0 <= k < i ==> #[trigger] word(vram@, at as int, k) == (if k % 5 == 0 {
                    2int
                } else {
                    0
                }),
            forall|k: int|
                0 <= k < v0.len() && !(at <= k < at + 64) ==> #[trigger] vram@[k] == v0[k],
        decreases 16 - i,
    {
        let ghost v = vram@;
        assert(vram.len() == vram@.len());
        let x: u32 = if i % 5 == 0 {
            2
        } else {
            0
        };
        write_u32_le(vram, at + 4 * i as usize, x);
        proof {
            law_put_then_read(v, at + 4 * i, 4, x as int);
            assert forall|k: int| 0 <= k < i implies #[trigger] word(vram@, at as int, k) == (if k
                % 5 == 0 {
                2int
            } else {
                0
            }) by {
                assert(word(v, at as int, k) == (if k % 5 == 0 {
                    2int
                } else {
                    0
                }));
            }
        }
        i += 1;
    }
}

/// Multiplying by twice the unit matrix doubles every entry.
pub proof fn law_product_doubles(v: Seq<u8>, a: int, b: int, i: int)
    requires
        counts_up(v, a),
        doubles(v, b),
        0 <= i < 16,
    ensures
        dot(v, a, b, i / 4, i % 4, 4) == 2 * (i + 1),
{
    let r = i / 4;
    let c = i % 4;
    law_dot(v, a, b, r, c);
    assert forall|k: int| 0 <= k < 4 implies #[trigger] cell(v, a, r, k) == 4 * r + k + 1 by {
        assert(word(v, a, 4 * r + k) == 4 * r + k + 1);
    }
    assert forall|k: int| 0 <= k < 4 implies #[trigger] cell(v, b, k, c) == (if k == c {
        2int
    } else {
        0
    }) by {
        assert(word(v, b, 4 * k + c) == (if (4 * k + c) % 5 == 0 {
            2int
        } else {
            0
        }));
        assert((4 * k + c) % 5 == 0 <==> k == c);
    }
    assert(cell(v, b, 0, c) == (if 0 == c {
        2int
    } else {
        0
    }));
    assert(cell(v, b, 1, c) == (if 1 == c {
        2int
    } else {
        0
    }));
    assert(cell(v, b, 2, c) == (if 2 == c {
        2int
    } else {
        0
    }));
    assert(cell(v, b, 3, c) == (if 3 == c {
        2int
    } else {
        0
    }));
    assert(cell(v, a, r, c) * 2 == 2 * (i + 1));
}

/// Every number from 1 on doubled, in row-major order.
pub open spec fn counts_by_two(v: Seq<u8>, at: int) -> bool {
    forall|i: int| 0 <= i < 16 ==> #[trigger] word(v, at, i) == 2 * (i + 1)
}

/// Video memory with a new ring that holds one command, complete: to multiply the matrices
/// of the buffers.
pub open spec fn ring_used(v: Seq<u8>, bufs: Buffers) -> Seq<u8> {
    let base = bufs.ring as int;
    ring_completed(
        ring_submitted(ring_made(v, base), base, bufs.a, bufs.b, bufs.c, 4),
        base,
    )
}

/// What a ring holds depends on no byte outside it.
proof fn lemma_ring_same(u: Seq<u8>, v: Seq<u8>, w: Seq<u8>, bufs: Buffers)
    requires
        bufs.ring + RING_SIZE <= u.len(),
        u.len() == v.len() == w.len(),
        forall|k: int|
            bufs.ring <= k < bufs.ring + RING_SIZE ==> #[trigger] v[k] == ring_made(
                u,
                bufs.ring as int,
            )[k],
        forall|k: int|
            bufs.ring <= k < bufs.ring + RING_SIZE ==> #[trigger] w[k] == ring_submitted(
                v,
                bufs.ring as int,
                bufs.a,
                bufs.b,
                bufs.c,
                4,
            )[k],
    ensures
        forall|k: int|
            bufs.ring <= k < bufs.ring + RING_SIZE ==> #[trigger] ring_completed(
                w,
                bufs.ring as int,
            )[k] == ring_used(u, bufs)[k],
{
}

/// Have the product of two matrices computed through the ring, and check it. The ring holds
/// the completed command, and the three matrices are in their buffers.
fn compute(vram: &mut [u8], bufs: Buffers) -> (r: bool)
    requires
        bufs == (Buffers { ring: 0x1000, a: 0x2000, b: 0x2040, c: 0x2080 }),
        old(vram)@.len() >= BUFFERS_END,
    ensures
        r,
        final(vram)@.len() == old(vram)@.len(),
        forall|k: int|
            bufs.ring <= k < bufs.ring + RING_SIZE ==> #[trigger] final(vram)@[k] == ring_used(
                old(vram)@,
                bufs,
            )[k],
        counts_up(final(vram)@, bufs.a as int),
        doubles(final(vram)@, bufs.b as int),
        counts_by_two(final(vram)@, bufs.c as int),
        forall|k: int|
            0 <= k < old(vram)@.len() && !(0x1000 <= k < BUFFERS_END) ==> #[trigger] final(vram)@[k]
                == old(vram)@[k],
{
    let ghost v0 = vram@;
    assert(vram.len() == vram@.len());
    let mut ring = CommandRing::init(vram, bufs.ring as usize);
    let ghost v1 = vram@;
    proof {
        let x1 = put(v0, 0x1000, 4, RING_MAGIC as int);
        law_put_then_read(v0, 0x1000, 4, RING_MAGIC as int);
        assert(le32(v1, 0x1000) == le32(x1, 0x1000));
    }
    if !ring.verify(vram) {
        return false;
    }
    write_counts(vram, bufs.a as usize);
    let ghost v2 = vram@;
    write_doubles(vram, bufs.b as usize);
    let ghost v3 = vram@;
    ring.submit_matmul(vram, bufs.a, bufs.b, bufs.c, 4);
    let ghost v4 = vram@;
    proof {
        law_command_round_trip(v3, 0x1000, bufs.a, bufs.b, bufs.c, 4);
    }
    let (cmd_a, cmd_b, cmd_c, _dim) = ring.read_command(vram);
    matmul_4x4(vram, cmd_a as usize, cmd_b as usize, cmd_c as usize);
    let ghost v5 = vram@;
    proof {
        law_matrix_product(v4, 0x2000, 0x2040, 0x2080, 16);
    }
    ring.complete(vram);
    let ghost v6 = vram@;
    proof {
        assert(counts_up(v4, 0x2000)) by {
            assert forall|i: int| 0 <= i < 16 implies #[trigger] word(v4, 0x2000, i) == i + 1 by {
                assert(word(v2, 0x2000, i) == i + 1);
            }
        }
        assert(doubles(v4, 0x2040)) by {
            assert forall|i: int| 0 <= i < 16 implies #[trigger] word(v4, 0x2040, i) == (if i % 5
                == 0 {
                2int
            } else {
                0
            }) by {
                assert(word(v3, 0x2040, i) == word(v4, 0x2040, i));
            }
        }
        assert forall|i: int| 0 <= i < 16 implies #[trigger] word(v6, 0x2080, i) == 2 * (i + 1)
            && word(v6, 0x2000, i) == i + 1 by {
            law_product_doubles(v4, 0x2000, 0x2040, i);
            assert(word(v5, 0x2080, i) == dot(v4, 0x2000, 0x2040, i / 4, i % 4, 4));
            assert(word(v4, 0x2000, i) == i + 1);
        }
        assert(counts_by_two(v6, 0x2080));
        assert(counts_up(v6, 0x2000)) by {
            assert forall|i: int| 0 <= i < 16 implies #[trigger] word(v6, 0x2000, i) == i + 1 by {
                assert(word(v6, 0x2080, i) == 2 * (i + 1));
            }
        }
        assert(doubles(v6, 0x2040)) by {
            assert forall|i: int| 0 <= i < 16 implies #[trigger] word(v6, 0x2040, i) == (if i % 5
                == 0 {
                2int
            } else {
                0
            }) by {
                assert(word(v4, 0x2040, i) == word(v6, 0x2040, i));
            }
        }
        lemma_ring_same(v0, v3, v5, bufs);
    }
    let mut i: u32 = 0;
    while i < 16
        invariant
            i <= 16,
            vram@ == v6,
            v6.len() >= BUFFERS_END,
            bufs == (Buffers { ring: 0x1000, a: 0x2000, b: 0x2040, c: 0x2080 }),
            forall|k: int|
                0 <= k < 16 ==> #[trigger] word(v6, 0x2080, k) == 2 * (k + 1) && word(v6, 0x2000, k)
                    == k + 1,
        decreases 16 - i,
    {
        assert(vram.len() == vram@.len());
        assert(word(v6, 0x2080, i as int) == 2 * (i + 1));
        let a_val: u32 = read_u32_le(vram, bufs.a as usize + 4 * i as usize);
        let c_val: u32 = read_u32_le(vram, bufs.c as usize + 4 * i as usize);
        if c_val != a_val * 2 {
            return false;
        }
        i += 1;
    }
    true
}

/// The allocator does not depend on the memory behind its page.
proof fn lemma_same_page(v: Seq<u8>, w: Seq<u8>, total: u32)
    requires
        holds_buffers(v, total),
        w.len() == v.len(),
        forall|k: int| 0 <= k < ALLOC_PAGE ==> #[trigger] w[k] == v[k],
    ensures
        holds_buffers(w, total),
{
    assert forall|i: int| 0 <= i < 255 implies #[trigger] allocation(w, i) == allocation(v, i) by {
        assert(entry_at(i) + 16 <= ALLOC_PAGE);
    }
}

/// Free all buffers, the last one first, and check that they are zero.
#[verifier::rlimit(30)]
fn release_buffers(vram: &mut [u8], bufs: Buffers, Ghost(total): Ghost<u32>) -> (r: bool)
    requires
        bufs == (Buffers { ring: 0x1000, a: 0x2000, b: 0x2040, c: 0x2080 }),
        holds_buffers(old(vram)@, total),
        old(vram)@.len() >= BUFFERS_END,
    ensures
        r,
        final(vram)@.len() == old(vram)@.len(),
        forall|k: int|
            ALLOC_PAGE <= k < old(vram)@.len() ==> #[trigger] final(vram)@[k] == (if k
                < BUFFERS_END {
                0
            } else {
                old(vram)@[k]
            }),
{
    let ghost v0 = vram@;
    let mut allocator = VramAllocator {  };
    proof {
        reveal_with_fuel(find_allocation, 5);
        lemma_freed(v0, 3);
    }
    if !allocator.free(vram, bufs.c) {
        return false;
    }
    let ghost v1 = vram@;
    proof {
        reveal_with_fuel(find_allocation, 5);
        lemma_freed(v1, 2);
    }
    if !allocator.free(vram, bufs.b) {
        return false;
    }
    let ghost v2 = vram@;
    proof {
        reveal_with_fuel(find_allocation, 5);
        lemma_freed(v2, 1);
    }
    if !allocator.free(vram, bufs.a) {
        return false;
    }
    let ghost v3 = vram@;
    proof {
        reveal_with_fuel(find_allocation, 5);
        lemma_freed(v3, 0);
    }
    if !allocator.free(vram, bufs.ring) {
        return false;
    }
    proof {
        let v4 = vram@;
        assert forall|k: int| ALLOC_PAGE <= k < v0.len() implies #[trigger] v4[k] == (if k
            < BUFFERS_END {
            0
        } else {
            v0[k]
        }) by {
            assert(v1[k] == (if 0x2080 <= k < 0x20C0 {
                0
            } else {
                v0[k]
            }));
            assert(v2[k] == (if 0x2040 <= k < 0x2080 {
                0
            } else {
                v1[k]
            }));
            assert(v3[k] == (if 0x2000 <= k < 0x2040 {
                0
            } else {
                v2[k]
            }));
        }
        assert(vram.len() == vram@.len());
    }
    if read_u32_le(vram, bufs.c as usize) != 0 || read_u32_le(vram, bufs.b as usize) != 0
        || read_u32_le(vram, bufs.a as usize) != 0 || read_u32_le(vram, bufs.ring as usize) != 0 {
        return false;
    }
    true
}

/// Test video memory and have the device compute: write and read back a pattern, check that
/// the device identifies itself, allocate buffers, multiply, check the product, free and
/// clear everything. `total` is the size of the partition, `vbe_id` what the identification
/// register holds. The result says whether all checks passed.
pub fn self_test(vram: &mut [u8], total: u32, vbe_id: u16) -> (ok: bool)
    requires
        old(vram)@.len() >= ALLOC_PAGE,
        total <= old(vram)@.len(),
    ensures
        ok == (device_present(vbe_id) && total >= BUFFERS_END),
        final(vram)@ == (if ok {
            zero_range(old(vram)@, 0, BUFFERS_END as int)
        } else {
            test_failed(old(vram)@, total, vbe_id)
        }),
        forall|k: int|
            BUFFERS_END <= k < old(vram)@.len() ==> #[trigger] final(vram)@[k] == old(vram)@[k],
        final(vram)@.len() == old(vram)@.len(),
{
    let ghost v0 = vram@;
    write_u32_le(vram, 0, TEST_PATTERN);
    proof {
        law_put_then_read(v0, 0, 4, TEST_PATTERN as int);
    }
    if read_u32_le(vram, 0) != TEST_PATTERN {
        return false;
    }
    if vbe_id == 0xFFFF || vbe_id == 0 {
        return false;
    }
    let bufs: Buffers = match allocate_buffers(vram, total) {
        Some(b) => b,
        None => {
            return false;
        },
    };
    let ghost v1 = vram@;
    if !compute(vram, bufs) {
        return false;
    }
    proof {
        lemma_same_page(v1, vram@, total);
    }
    if !release_buffers(vram, bufs, Ghost(total)) {
        return false;
    }
    let allocator = VramAllocator {  };
    allocator.zero_page(vram);
    assert(vram@ =~= zero_range(v0, 0, BUFFERS_END as int));
    true
}

/// Write the test data. The result is the argument of the copy that sends it: the offset in
/// the target and the length.
pub fn dma_sender(vram: &mut [u8]) -> (r: u64)
    requires
        old(vram)@.len() >= DMA_OFFSET + DMA_LEN,
    ensures
        final(vram)@.len() == old(vram)@.len(),
        counts_up(final(vram)@, DMA_OFFSET as int),
        forall|k: int|
            0 <= k < old(vram)@.len() && !(DMA_OFFSET <= k < DMA_OFFSET + DMA_LEN)
                ==> #[trigger] final(vram)@[k] == old(vram)@[k],
        r as int / 0x1_0000_0000 == DMA_OFFSET,
        r as int % 0x1_0000_0000 == DMA_LEN,
        r == 0x10_0000_0000_0040,
        counts_up(final(vram)@, 0x10_0000),
{
    assert(vram.len() == vram@.len());
    write_counts(vram, DMA_OFFSET as usize);
    DMA_OFFSET * 0x1_0000_0000 + DMA_LEN
}

/// Check the test data that was sent.
pub fn dma_receiver(vram: &[u8]) -> (r: bool)
    requires
        vram@.len() >= DMA_OFFSET + DMA_LEN,
    ensures
        r == counts_up(vram@, DMA_OFFSET as int),
        r == counts_up(vram@, 0x10_0000),
{
    assert(vram.len() == vram@.len());
    let mut i: u32 = 0;
    while i < 16
        invariant
            i <= 16,
            vram@.len() >= DMA_OFFSET + DMA_LEN,
            forall|k: int| 0 <= k < i ==> #[trigger] word(vram@, DMA_OFFSET as int, k) == k + 1,
        decreases 16 - i,
    {
        assert(vram.len() == vram@.len());
        if read_u32_le(vram, DMA_OFFSET as usize + 4 * i as usize) != i + 1 {
            assert(word(vram@, DMA_OFFSET as int, i as int) != i + 1);
            return false;
        }
        i += 1;
    }
    true
}

/// What the first partition's shard writes, the second partition's shard finds after the
/// copy.
pub proof fn law_test_data_arrives(v: Seq<u8>, from: GpuPartition, to: GpuPartition)
    requires
        from.vram_offset + from.vram_size <= v.len(),
        to.vram_offset + to.vram_size <= v.len(),
        from.vram_size >= DMA_OFFSET + DMA_LEN,
        to.vram_size >= DMA_OFFSET + DMA_LEN,
        counts_up(v, from.vram_offset + DMA_OFFSET),
    ensures
        counts_up(
            copied(
                v,
                from.vram_offset + DMA_OFFSET,
                to.vram_offset + DMA_OFFSET,
                DMA_LEN as int,
            ),
            to.vram_offset + DMA_OFFSET,
        ),
{
    let s = from.vram_offset + DMA_OFFSET;
    let d = to.vram_offset + DMA_OFFSET;
    let w = copied(v, s, d, DMA_LEN as int);
    assert forall|i: int| 0 <= i < 16 implies #[trigger] word(w, d, i) == i + 1 by {
        assert(word(v, s, i) == i + 1);
        assert(w[d + 4 * i] == v[s + 4 * i]);
        assert(w[d + 4 * i + 1] == v[s + 4 * i + 1]);
        assert(w[d + 4 * i + 2] == v[s + 4 * i + 2]);
        assert(w[d + 4 * i + 3] == v[s + 4 * i + 3]);
    }
}

} // verus!
