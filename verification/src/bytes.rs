//! Little-endian numbers in byte sequences.

use vstd::prelude::*;

verus! {

/// The number in two bytes from `at` on, the low byte first.
pub open spec fn le16(data: Seq<u8>, at: int) -> int {
    data[at] + 0x100 * data[at + 1]
}

/// The number in four bytes from `at` on, the low byte first.
pub open spec fn le32(data: Seq<u8>, at: int) -> int {
    le16(data, at) + 0x1_0000 * le16(data, at + 2)
}

/// The number in eight bytes from `at` on, the low byte first.
pub open spec fn le64(data: Seq<u8>, at: int) -> int {
    le32(data, at) + 0x1_0000_0000 * le32(data, at + 4)
}

/// The bytes with the `n` bytes from `at` on replaced by those of `v`, the low byte first.
pub open spec fn put(data: Seq<u8>, at: int, n: int, v: int) -> Seq<u8> {
    Seq::new(
        data.len(),
        |i: int|
            if at <= i < at + n {
                byte_of(v, i - at)
            } else {
                data[i]
            },
    )
}

/// Byte number `k` of `v`, the low byte first.
pub open spec fn byte_of(v: int, k: int) -> u8
    decreases k,
{
    if k <= 0 {
        (v % 0x100) as u8
    } else {
        byte_of(v / 0x100, k - 1)
    }
}

pub fn read_u16_le(data: &[u8], offset: usize) -> (r: u16)
    requires
        offset + 2 <= data@.len(),
    ensures
        r == le16(data@, offset as int),
{
    assert(data.len() == data@.len());
    data[offset] as u16 + 0x100 * (data[offset + 1] as u16)
}

pub fn read_u32_le(data: &[u8], offset: usize) -> (r: u32)
    requires
        offset + 4 <= data@.len(),
    ensures
        r == le32(data@, offset as int),
{
    assert(data.len() == data@.len());
    read_u16_le(data, offset) as u32 + 0x1_0000 * (read_u16_le(data, offset + 2) as u32)
}

pub fn read_u64_le(data: &[u8], offset: usize) -> (r: u64)
    requires
        offset + 8 <= data@.len(),
    ensures
        r == le64(data@, offset as int),
{
    assert(data.len() == data@.len());
    read_u32_le(data, offset) as u64 + 0x1_0000_0000 * (read_u32_le(data, offset + 4) as u64)
}

/// Write the low `n` bytes of a number.
fn write_le(data: &mut [u8], offset: usize, n: usize, v: u64)
    requires
        n <= 8,
        offset + n <= old(data)@.len(),
    ensures
        final(data)@ == put(old(data)@, offset as int, n as int, v as int),
{
    let ghost before = data@;
    let mut k: usize = 0;
    let mut rest: u64 = v;
    while k < n
        invariant
            k <= n <= 8,
            before == old(data)@,
            data@.len() == before.len(),
            offset + n <= data@.len(),
            forall|j: int| 0 <= j < 8 - k ==> byte_of(v as int, j + k) == #[trigger] byte_of(
                rest as int,
                j,
            ),
            forall|i: int|
                0 <= i < before.len() ==> #[trigger] data@[i] == (if offset <= i < offset + k {
                    byte_of(v as int, i - offset)
                } else {
                    before[i]
                }),
        decreases n - k,
    {
        let ghost now = data@;
        assert(data.len() == data@.len());
        data[offset + k] = (rest % 0x100) as u8;
        proof {
            assert(byte_of(rest as int, 0) == (rest % 0x100) as u8);
            assert(byte_of(v as int, k as int) == (rest % 0x100) as u8);
            assert forall|j: int| 0 <= j < 8 - (k + 1) implies byte_of(v as int, j + (k + 1))
                == #[trigger] byte_of((rest / 0x100) as int, j) by {
                assert(byte_of(rest as int, j + 1) == byte_of((rest / 0x100) as int, j));
            }
        }
        rest = rest / 0x100;
        k += 1;
    }
    assert(data@ =~= put(before, offset as int, n as int, v as int));
}

pub fn write_u16_le(data: &mut [u8], offset: usize, v: u16)
    requires
        offset + 2 <= old(data)@.len(),
    ensures
        final(data)@ == put(old(data)@, offset as int, 2, v as int),
{
    write_le(data, offset, 2, v as u64)
}

pub fn write_u32_le(data: &mut [u8], offset: usize, v: u32)
    requires
        offset + 4 <= old(data)@.len(),
    ensures
        final(data)@ == put(old(data)@, offset as int, 4, v as int),
{
    write_le(data, offset, 4, v as u64)
}

pub fn write_u64_le(data: &mut [u8], offset: usize, v: u64)
    requires
        offset + 8 <= old(data)@.len(),
    ensures
        final(data)@ == put(old(data)@, offset as int, 8, v as int),
{
    write_le(data, offset, 8, v)
}

/// The bytes of a number add up to it.
proof fn lemma_bytes_of(v: int)
    requires
        0 <= v < 0x1_0000_0000_0000_0000,
    ensures
        v < 0x1_0000 ==> v == byte_of(v, 0) + 0x100 * byte_of(v, 1),
        v < 0x1_0000_0000 ==> v == byte_of(v, 0) + 0x100 * byte_of(v, 1) + 0x1_0000 * byte_of(v, 2)
            + 0x100_0000 * byte_of(v, 3),
        v == byte_of(v, 0) + 0x100 * byte_of(v, 1) + 0x1_0000 * byte_of(v, 2) + 0x100_0000
            * byte_of(v, 3) + 0x1_0000_0000 * byte_of(v, 4) + 0x100_0000_0000 * byte_of(v, 5)
            + 0x1_0000_0000_0000 * byte_of(v, 6) + 0x100_0000_0000_0000 * byte_of(v, 7),
{
    reveal_with_fuel(byte_of, 9);
    let v1 = v / 0x100;
    let v2 = v1 / 0x100;
    let v3 = v2 / 0x100;
    let v4 = v3 / 0x100;
    let v5 = v4 / 0x100;
    let v6 = v5 / 0x100;
    let v7 = v6 / 0x100;
    assert(byte_of(v, 1) == (v1 % 0x100) as u8);
    assert(byte_of(v, 2) == (v2 % 0x100) as u8);
    assert(byte_of(v, 3) == (v3 % 0x100) as u8);
    assert(byte_of(v, 4) == (v4 % 0x100) as u8);
    assert(byte_of(v, 5) == (v5 % 0x100) as u8);
    assert(byte_of(v, 6) == (v6 % 0x100) as u8);
    assert(byte_of(v, 7) == (v7 % 0x100) as u8);
}

/// A number that was written is read back, and the bytes around it stay.
pub proof fn law_put_then_read(data: Seq<u8>, at: int, n: int, v: int)
    requires
        0 <= at,
        at + n <= data.len(),
        n == 2 || n == 4 || n == 8,
        0 <= v,
        n == 2 ==> v < 0x1_0000,
        n == 4 ==> v < 0x1_0000_0000,
        n == 8 ==> v < 0x1_0000_0000_0000_0000,
    ensures
        n == 2 ==> le16(put(data, at, n, v), at) == v,
        n == 4 ==> le32(put(data, at, n, v), at) == v,
        n == 8 ==> le64(put(data, at, n, v), at) == v,
        forall|i: int|
            0 <= i < data.len() && !(at <= i < at + n) ==> #[trigger] put(data, at, n, v)[i]
                == data[i],
{
    lemma_bytes_of(v);
    let p = put(data, at, n, v);
    assert(p[at] == byte_of(v, 0) && p[at + 1] == byte_of(v, 1));
    if n >= 4 {
        assert(p[at + 2] == byte_of(v, 2) && p[at + 3] == byte_of(v, 3));
    }
    if n == 8 {
        assert(p[at + 4] == byte_of(v, 4) && p[at + 5] == byte_of(v, 5) && p[at + 6] == byte_of(
            v,
            6,
        ) && p[at + 7] == byte_of(v, 7));
    }
}

/// Numbers lie in memory with the byte of the least weight first.
pub proof fn law_low_byte_first(data: Seq<u8>, at: int)
    ensures
        le16(data, at) == data[at] + 0x100 * data[at + 1],
        le32(data, at) == data[at] + 0x100 * data[at + 1] + 0x1_0000 * data[at + 2] + 0x100_0000
            * data[at + 3],
        le64(data, at) == data[at] + 0x100 * data[at + 1] + 0x1_0000 * data[at + 2] + 0x100_0000
            * data[at + 3] + 0x1_0000_0000 * data[at + 4] + 0x100_0000_0000 * data[at + 5]
            + 0x1_0000_0000_0000 * data[at + 6] + 0x100_0000_0000_0000 * data[at + 7],
{
}

} // verus!
