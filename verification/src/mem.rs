//! Physical memory as the supervisor sees it through its direct map.

use vstd::prelude::*;

verus! {

/// Size of a page frame in bytes.
pub const FRAME_SIZE: u64 = 4096;

/// Number of 64-bit words in a page frame.
pub const FRAME_WORDS: usize = 512;

/// Physical memory from address zero, as 64-bit words.
pub struct Memory {
    words: Vec<u64>,
}

impl View for Memory {
    type V = Seq<u64>;

    closed spec fn view(&self) -> Seq<u64> {
        self.words@
    }
}

/// A frame-aligned address whose whole frame lies inside the memory `m`.
pub open spec fn frame_ok(m: Seq<u64>, phys: u64) -> bool {
    &&& phys % 4096 == 0
    &&& phys as int / 8 + 512 <= m.len()
}

/// Whether word number `w` lies in the frame at `phys`.
pub open spec fn in_frame(w: int, phys: u64) -> bool {
    phys as int / 8 <= w < phys as int / 8 + 512
}

/// The memory `m` with the frame at `phys` set to zero.
pub open spec fn zeroed(m: Seq<u64>, phys: u64) -> Seq<u64> {
    Seq::new(
        m.len(),
        |w: int|
            if in_frame(w, phys) {
                0
            } else {
                m[w]
            },
    )
}

/// Whether every word of the frame at `phys` is zero.
pub open spec fn is_zero_frame(m: Seq<u64>, phys: u64) -> bool {
    forall|w: int| in_frame(w, phys) ==> #[trigger] m[w] == 0
}

/// The byte at physical address `a`.
pub open spec fn byte_at(m: Seq<u64>, a: int) -> u8 {
    ((m[a / 8] >> ((a % 8) * 8) as u64) & 0xff) as u8
}

/// The bytes of `m` from `a` on, `n` of them.
pub open spec fn bytes_at(m: Seq<u64>, a: int, n: int) -> Seq<u8> {
    Seq::new(n as nat, |k: int| byte_at(m, a + k))
}

/// The word that holds eight bytes, the first in the low bits.
pub open spec fn word_of(b: Seq<u8>) -> u64 {
    (b[0] as u64) | ((b[1] as u64) << 8) | ((b[2] as u64) << 16) | ((b[3] as u64) << 24) | ((
    b[4] as u64) << 32) | ((b[5] as u64) << 40) | ((b[6] as u64) << 48) | ((b[7] as u64) << 56)
}

/// Reading back the bytes of a word.
pub proof fn lemma_word_bytes(b: Seq<u8>)
    requires
        b.len() == 8,
    ensures
        forall|i: int|
            0 <= i < 8 ==> ((word_of(b) >> ((#[trigger] (i * 8)) as u64)) & 0xff) as u8 == b[i],
{
    let (b0, b1, b2, b3) = (b[0], b[1], b[2], b[3]);
    let (b4, b5, b6, b7) = (b[4], b[5], b[6], b[7]);
    let w = word_of(b);
    assert((w >> 0u64) & 0xff == b0 as u64 && (w >> 8u64) & 0xff == b1 as u64 && (w >> 16u64) & 0xff
        == b2 as u64 && (w >> 24u64) & 0xff == b3 as u64 && (w >> 32u64) & 0xff == b4 as u64 && (w
        >> 40u64) & 0xff == b5 as u64 && (w >> 48u64) & 0xff == b6 as u64 && (w >> 56u64) & 0xff
        == b7 as u64) by (bit_vector)
        requires
            w == (b0 as u64) | ((b1 as u64) << 8) | ((b2 as u64) << 16) | ((b3 as u64) << 24) | ((
            b4 as u64) << 32) | ((b5 as u64) << 40) | ((b6 as u64) << 48) | ((b7 as u64) << 56),
    ;
    assert forall|i: int| 0 <= i < 8 implies ((w >> ((#[trigger] (i * 8)) as u64)) & 0xff) as u8
        == b[i] by {
        assert(i == 0 || i == 1 || i == 2 || i == 3 || i == 4 || i == 5 || i == 6 || i == 7);
    }
}

/// Page number `k` of `data`, filled up with zeros.
pub open spec fn page_of(data: Seq<u8>, k: int) -> Seq<u8> {
    Seq::new(
        FRAME_SIZE as nat,
        |i: int|
            if k * FRAME_SIZE + i < data.len() {
                data[k * FRAME_SIZE + i]
            } else {
                0
            },
    )
}

/// Byte number `i` of `data`, or zero beyond its end.
fn byte_or_zero(data: &[u8], i: usize) -> (b: u8)
    ensures
        b == (if i < data@.len() {
            data@[i as int]
        } else {
            0
        }),
{
    if i < data.len() {
        data[i]
    } else {
        0
    }
}

impl Memory {
    /// Write page number `k` of `data` into the frame at `phys`, filled up with zeros.
    pub fn write_page(&mut self, phys: u64, data: &[u8], k: usize)
        requires
            frame_ok(old(self)@, phys),
            (k + 1) * 4096 <= usize::MAX,
        ensures
            final(self)@.len() == old(self)@.len(),
            forall|w: int|
                0 <= w < old(self)@.len() && !in_frame(w, phys) ==> #[trigger] final(self)@[w]
                    == old(self)@[w],
            bytes_at(final(self)@, phys as int, FRAME_SIZE as int) == page_of(data@, k as int),
    {
        let base: usize = k * 4096;
        let mut j: usize = 0;
        let ghost page = page_of(data@, k as int);
        while j < FRAME_WORDS
            invariant
                j <= FRAME_WORDS,
                base == k * 4096,
                base + 4096 <= usize::MAX,
                frame_ok(self@, phys),
                self@.len() == old(self)@.len(),
                page == page_of(data@, k as int),
                forall|w: int|
                    0 <= w < self@.len() && !in_frame(w, phys) ==> #[trigger] self@[w]
                        == old(self)@[w],
                forall|i: int|
                    0 <= i < j ==> #[trigger] self@[phys as int / 8 + i] == word_of(
                        page.subrange(8 * i, 8 * i + 8),
                    ),
            decreases FRAME_WORDS - j,
        {
            let at: usize = base + 8 * j;
            let b0: u8 = byte_or_zero(data, at);
            let b1: u8 = byte_or_zero(data, at + 1);
            let b2: u8 = byte_or_zero(data, at + 2);
            let b3: u8 = byte_or_zero(data, at + 3);
            let b4: u8 = byte_or_zero(data, at + 4);
            let b5: u8 = byte_or_zero(data, at + 5);
            let b6: u8 = byte_or_zero(data, at + 6);
            let b7: u8 = byte_or_zero(data, at + 7);
            let word: u64 = (b0 as u64) | ((b1 as u64) << 8) | ((b2 as u64) << 16) | ((b3 as u64)
                << 24) | ((b4 as u64) << 32) | ((b5 as u64) << 40) | ((b6 as u64) << 48) | ((
            b7 as u64) << 56);
            assert(word == word_of(page.subrange(8 * j as int, 8 * j + 8)));
            self.write(phys + 8 * (j as u64), word);
            j += 1;
        }
        proof {
            let bytes = bytes_at(self@, phys as int, FRAME_SIZE as int);
            assert forall|i: int| 0 <= i < FRAME_SIZE implies bytes[i] == page[i] by {
                let q = i / 8;
                let b = page.subrange(8 * q, 8 * q + 8);
                assert(self@[phys as int / 8 + q] == word_of(b));
                assert((phys as int + i) / 8 == phys as int / 8 + q);
                assert((phys as int + i) % 8 == i % 8);
                lemma_word_bytes(b);
                assert(((word_of(b) >> (((i % 8) * 8) as u64)) & 0xff) as u8 == b[i % 8]);
            }
            assert(bytes =~= page);
        }
    }

    /// Take the given words as physical memory.
    pub fn new(words: Vec<u64>) -> (mem: Memory)
        ensures
            mem@ == words@,
    {
        Memory { words }
    }

    /// The words of the memory.
    pub fn words(&self) -> (words: &Vec<u64>)
        ensures
            words@ == self@,
    {
        &self.words
    }

    /// Whether `len` bytes from `phys` on lie inside the memory.
    pub fn holds(&self, phys: u64, len: u64) -> (r: bool)
        ensures
            r == (phys + len <= 8 * self@.len()),
    {
        phys as u128 + len as u128 <= 8 * (self.words.len() as u128)
    }

    /// The number of the word that holds the byte at `phys`.
    fn index_of(&self, phys: u64) -> (i: usize)
        requires
            phys as int / 8 < self@.len(),
        ensures
            i == phys as int / 8,
    {
        assert(self.words.len() == self@.len());
        (phys / 8) as usize
    }

    /// Read the word at `phys`.
    pub fn read(&self, phys: u64) -> (word: u64)
        requires
            phys % 8 == 0,
            phys as int / 8 < self@.len(),
        ensures
            word == self@[phys as int / 8],
    {
        self.words[self.index_of(phys)]
    }

    /// Write the word at `phys`.
    pub fn write(&mut self, phys: u64, word: u64)
        requires
            phys % 8 == 0,
            phys as int / 8 < old(self)@.len(),
        ensures
            final(self)@ == old(self)@.update(phys as int / 8, word),
    {
        let i: usize = self.index_of(phys);
        self.words[i] = word;
    }

    /// Read the byte at `phys`.
    pub fn read_byte(&self, phys: u64) -> (b: u8)
        requires
            phys < 8 * self@.len(),
        ensures
            b == byte_at(self@, phys as int),
    {
        ((self.words[self.index_of(phys)] >> ((phys % 8) * 8)) & 0xff) as u8
    }

    /// Zero the frame at `phys`.
    pub fn zero_frame(&mut self, phys: u64)
        requires
            frame_ok(old(self)@, phys),
        ensures
            final(self)@ == zeroed(old(self)@, phys),
    {
        let base: usize = self.index_of(phys);
        assert(self.words.len() == self@.len());
        let mut k: usize = 0;
        while k < FRAME_WORDS
            invariant
                k <= FRAME_WORDS,
                base == phys as int / 8,
                base + 512 <= self@.len(),
                self@.len() == old(self)@.len(),
                forall|w: int|
                    0 <= w < self@.len() ==> #[trigger] self@[w] == (if base <= w < base + k {
                        0
                    } else {
                        old(self)@[w]
                    }),
            decreases FRAME_WORDS - k,
        {
            assert(self.words.len() == self@.len());
            self.words[base + k] = 0;
            k += 1;
        }
        assert(self@ =~= zeroed(old(self)@, phys));
    }
}

/// A word holds its eight bytes with the one at the lowest address in the lowest bits.
pub proof fn law_word_holds_bytes(m: Seq<u64>, w: int)
    requires
        0 <= w < m.len(),
    ensures
        m[w] == byte_at(m, 8 * w) + 0x100 * byte_at(m, 8 * w + 1) + 0x1_0000 * byte_at(
            m,
            8 * w + 2,
        ) + 0x100_0000 * byte_at(m, 8 * w + 3) + 0x1_0000_0000 * byte_at(m, 8 * w + 4)
            + 0x100_0000_0000 * byte_at(m, 8 * w + 5) + 0x1_0000_0000_0000 * byte_at(m, 8 * w + 6)
            + 0x100_0000_0000_0000 * byte_at(m, 8 * w + 7),
{
    let x = m[w];
    assert(x == ((x >> 0u64) & 0xff) as u8 + 0x100 * (((x >> 8u64) & 0xff) as u8) + 0x1_0000 * (((x
        >> 16u64) & 0xff) as u8) + 0x100_0000 * (((x >> 24u64) & 0xff) as u8) + 0x1_0000_0000 * (((x
        >> 32u64) & 0xff) as u8) + 0x100_0000_0000 * (((x >> 40u64) & 0xff) as u8)
        + 0x1_0000_0000_0000 * (((x >> 48u64) & 0xff) as u8) + 0x100_0000_0000_0000 * (((x
        >> 56u64) & 0xff) as u8)) by (bit_vector);
    assert forall|k: int| 0 <= k < 8 implies #[trigger] byte_at(m, 8 * w + k) == ((x >> ((k
        * 8) as u64)) & 0xff) as u8 by {
        assert((8 * w + k) / 8 == w && (8 * w + k) % 8 == k);
    }
    assert(byte_at(m, 8 * w + 0) == ((x >> 0u64) & 0xff) as u8);
    assert(byte_at(m, 8 * w + 1) == ((x >> 8u64) & 0xff) as u8);
    assert(byte_at(m, 8 * w + 2) == ((x >> 16u64) & 0xff) as u8);
    assert(byte_at(m, 8 * w + 3) == ((x >> 24u64) & 0xff) as u8);
    assert(byte_at(m, 8 * w + 4) == ((x >> 32u64) & 0xff) as u8);
    assert(byte_at(m, 8 * w + 5) == ((x >> 40u64) & 0xff) as u8);
    assert(byte_at(m, 8 * w + 6) == ((x >> 48u64) & 0xff) as u8);
    assert(byte_at(m, 8 * w + 7) == ((x >> 56u64) & 0xff) as u8);
}

} // verus!
