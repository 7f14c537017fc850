//! Makes the filesystem image that is embedded as a ramdisk.
//!
//! The image is an ext2 filesystem of revision 0 with blocks of 1024 bytes. Its root
//! directory holds "hello.txt" and "model.bin".

use vstd::prelude::*;

use crate::bytes::{law_put_then_read, le16, le32, put, write_u16_le, write_u32_le};
use crate::ext2::{block_entries, count_files, dir_entries, file_block, file_byte, find, has_inode};
use crate::ext2::{inode_at, inode_view, is_image, is_named, lemma_read_len, lookup_spec};
use crate::ext2::{read_bytes, root_entries, strip, super_block_size, super_inode_size, DirEntry};
use crate::ext2::{Ext2Fs, EXT2_MAGIC, ROOT_INODE};

verus! {

pub const BLOCK_SIZE: usize = 1024;

pub const TOTAL_BLOCKS: usize = 128;

pub const IMAGE_SIZE: usize = 0x2_0000;

pub const TOTAL_INODES: u32 = 32;

/// The first block of the model's data; the blocks before it hold the superblock, the group
/// descriptor, the bitmaps, the inodes, the root directory and the greeting.
pub const MODEL_START: usize = 11;

/// A regular file that everyone can read.
pub const FILE_MODE: u16 = 0x81A4;

/// A directory that everyone can read.
pub const DIR_MODE: u16 = 0x41ED;

// ---------------------------------------------------------------------------
// The model
// ---------------------------------------------------------------------------

/// A linear congruential generator, for weights that are always the same.
#[derive(Debug)]
pub struct Lcg {
    state: u64,
}

/// The state after `s`.
pub open spec fn lcg(s: u64) -> int {
    (s * 6364136223846793005 + 1442695040888963407) % 0x1_0000_0000_0000_0000
}

impl Lcg {
    pub closed spec fn state(&self) -> u64 {
        self.state
    }

    pub fn new(seed: u64) -> (g: Lcg)
        ensures
            g.state() == seed,
    {
        Lcg { state: seed }
    }

    /// The next state.
    pub fn next(&mut self) -> (r: u64)
        ensures
            r == lcg(old(self).state()),
            final(self).state() == r,
    {
        let wide: u128 = self.state as u128 * 6364136223846793005 + 1442695040888963407;
        self.state = (wide % 0x1_0000_0000_0000_0000) as u64;
        self.state
    }

    /// The upper half of the next state, from which a weight is made.
    pub fn next_weight(&mut self) -> (r: u32)
        ensures
            r == lcg(old(self).state()) / 0x1_0000_0000,
            final(self).state() == lcg(old(self).state()),
    {
        let bits: u64 = self.next();
        (bits / 0x1_0000_0000) as u32
    }
}

/// The shape of a language model.
#[derive(Debug, Clone, Copy, PartialEq, Eq, Structural)]
pub struct ModelShape {
    pub dim: u32,
    pub hidden_dim: u32,
    pub layers: u32,
    pub heads: u32,
    pub kv_heads: u32,
    pub vocab_size: u32,
    pub seq_len: u32,
}

impl ModelShape {
    pub open spec fn spec_embedded() -> ModelShape {
        ModelShape {
            dim: 32,
            hidden_dim: 64,
            layers: 2,
            heads: 4,
            kv_heads: 4,
            vocab_size: 32,
            seq_len: 32,
        }
    }

    /// The model that is put into the image.
    pub fn embedded() -> (s: ModelShape)
        ensures
            s == ModelShape::spec_embedded(),
    {
        ModelShape {
            dim: 32,
            hidden_dim: 64,
            layers: 2,
            heads: 4,
            kv_heads: 4,
            vocab_size: 32,
            seq_len: 32,
        }
    }

    /// The numbers that a model file starts with.
    pub open spec fn numbers(self) -> Seq<u32> {
        seq![
            self.dim,
            self.hidden_dim,
            self.layers,
            self.heads,
            self.kv_heads,
            self.vocab_size,
            self.seq_len,
        ]
    }

    /// How many weights follow them: the embedding, and for each layer two norms, four
    /// attention matrices and three for the feed-forward part; a last norm and two tables
    /// of rotations.
    pub open spec fn weights(self) -> int {
        let d = self.dim as int;
        let head_size = d / self.heads as int;
        let kv_dim = self.kv_heads * head_size;
        let rotations = self.seq_len * head_size / 2;
        let layer = 2 * d + 2 * (d * d) + 2 * (d * kv_dim) + 3 * (d * self.hidden_dim);
        self.vocab_size * d + self.layers * layer + d + 2 * rotations
    }

    /// How many weights the embedded model has.
    pub fn embedded_weights() -> (n: usize)
        ensures
            n == ModelShape::spec_embedded().weights(),
    {
        let d: usize = 32;
        let head_size: usize = d / 4;
        let kv_dim: usize = 4 * head_size;
        let rotations: usize = 32 * head_size / 2;
        let layer: usize = 2 * d + 2 * (d * d) + 2 * (d * kv_dim) + 3 * (d * 64);
        32 * d + 2 * layer + d + 2 * rotations
    }

    /// Write the numbers that a model file starts with.
    pub fn header(&self) -> (r: Vec<u8>)
        ensures
            r@.len() == 28,
            forall|k: int| 0 <= k < 7 ==> le32(r@, 4 * k) == #[trigger] self.numbers()[k],
    {
        let nums: [u32; 7] = [
            self.dim,
            self.hidden_dim,
            self.layers,
            self.heads,
            self.kv_heads,
            self.vocab_size,
            self.seq_len,
        ];
        let mut r: Vec<u8> = vec![0u8; 28];
        let mut i: usize = 0;
        assert(nums@ =~= self.numbers());
        while i < 7
            invariant
                i <= 7,
                r@.len() == 28,
                nums@ == self.numbers(),
                forall|k: int| 0 <= k < i ==> le32(r@, 4 * k) == #[trigger] self.numbers()[k],
            decreases 7 - i,
        {
            let ghost before = r@;
            write_u32_le(r.as_mut_slice(), 4 * i, nums[i]);
            proof {
                law_put_then_read(before, 4 * i, 4, nums@[i as int] as int);
            }
            i += 1;
        }
        r
    }
}

// ---------------------------------------------------------------------------
// The image
// ---------------------------------------------------------------------------

/// Number of blocks for `len` bytes of data.
pub open spec fn data_blocks(len: int) -> int {
    (len + 1023) / 1024
}

/// Number of blocks that the model takes: its data, and a block of pointers where the direct
/// ones do not reach.
pub open spec fn model_blocks(len: int) -> int {
    data_blocks(len) + (if data_blocks(len) > 12 {
        1int
    } else {
        0
    })
}

/// The first block that is not used.
pub open spec fn first_free_block(len: int) -> int {
    MODEL_START + model_blocks(len)
}

/// The block that holds part number `k` of the model. Block 23 holds pointers.
pub open spec fn part_block(k: int) -> int {
    if k < 12 {
        MODEL_START + k
    } else {
        MODEL_START + k + 1
    }
}

/// Where byte number `p` of the model lies.
pub open spec fn part_at(p: int) -> int {
    1024 * part_block(p / 1024) + p % 1024
}

/// Nothing but zeros from `lo` up to `hi`.
pub open spec fn blank(img: Seq<u8>, lo: int, hi: int) -> bool {
    forall|k: int| lo <= k < hi ==> #[trigger] img[k] == 0
}

/// The byte whose lowest `n` bits are set.
pub open spec fn low_bits(n: int) -> int
    decreases n,
{
    if n <= 0 {
        0
    } else if n >= 8 {
        0xFF
    } else {
        2 * low_bits(n - 1) + 1
    }
}

pub open spec fn superblock(img: Seq<u8>, free: int) -> bool {
    &&& le32(img, 1024) == TOTAL_INODES
    &&& le32(img, 1028) == TOTAL_BLOCKS
    &&& le32(img, 1032) == 0
    &&& le32(img, 1036) == free
    &&& le32(img, 1040) == TOTAL_INODES - 12
    &&& le32(img, 1044) == 1
    &&& le32(img, 1048) == 0
    &&& le32(img, 1052) == 0
    &&& le32(img, 1056) == TOTAL_BLOCKS
    &&& le32(img, 1060) == TOTAL_BLOCKS
    &&& le32(img, 1064) == TOTAL_INODES
    &&& blank(img, 1068, 1074)
    &&& le16(img, 1074) == 0xFFFF
    &&& blank(img, 1076, 1080)
    &&& le16(img, 1080) == EXT2_MAGIC
    &&& le16(img, 1082) == 1
    &&& le16(img, 1084) == 1
    &&& blank(img, 1086, 2048)
}

pub open spec fn group_descriptor(img: Seq<u8>, free: int) -> bool {
    &&& le32(img, 2048) == 3
    &&& le32(img, 2052) == 4
    &&& le32(img, 2056) == 5
    &&& le16(img, 2060) == free
    &&& le16(img, 2062) == TOTAL_INODES - 12
    &&& le16(img, 2064) == 1
    &&& blank(img, 2066, 3072)
}

/// The blocks before number `used` and the first twelve inodes are marked.
pub open spec fn bitmaps(img: Seq<u8>, used: int) -> bool {
    &&& forall|j: int| 0 <= j < 1024 ==> #[trigger] img[3072 + j] == low_bits(used - 8 * j)
    &&& le16(img, 4096) == 0x0FFF
    &&& blank(img, 4098, 5120)
}

/// An inode of `n` blocks from `first` on, with a block of pointers unless `indirect` is zero.
pub open spec fn inode_record(
    img: Seq<u8>,
    at: int,
    mode: int,
    size: int,
    links: int,
    sectors: int,
    first: int,
    n: int,
    indirect: int,
) -> bool {
    &&& le16(img, at) == mode
    &&& blank(img, at + 2, at + 4)
    &&& le32(img, at + 4) == size
    &&& blank(img, at + 8, at + 26)
    &&& le16(img, at + 26) == links
    &&& le32(img, at + 28) == sectors
    &&& blank(img, at + 32, at + 40)
    &&& forall|k: int| 0 <= k < n ==> #[trigger] le32(img, at + 40 + 4 * k) == first + k
    &&& blank(img, at + 40 + 4 * n, at + 88)
    &&& le32(img, at + 88) == indirect
    &&& blank(img, at + 92, at + 128)
}

/// The inodes of the root directory, the greeting and the model; all others are blank.
pub open spec fn inode_table(img: Seq<u8>, len: int) -> bool {
    &&& blank(img, 5120, 5248)
    &&& inode_record(img, 5248, DIR_MODE as int, 1024, 2, 2, 9, 1, 0)
    &&& blank(img, 5376, 6400)
    &&& inode_record(img, 6400, FILE_MODE as int, 22, 1, 2, 10, 1, 0)
    &&& inode_record(
        img,
        6528,
        FILE_MODE as int,
        len,
        1,
        2 * model_blocks(len),
        MODEL_START as int,
        if data_blocks(len) < 12 {
            data_blocks(len)
        } else {
            12
        },
        if data_blocks(len) > 12 {
            23
        } else {
            0
        },
    )
    &&& blank(img, 6656, 9216)
}

pub open spec fn hello_name() -> Seq<u8> {
    seq![0x68, 0x65, 0x6C, 0x6C, 0x6F, 0x2E, 0x74, 0x78, 0x74]
}

pub open spec fn model_name() -> Seq<u8> {
    seq![0x6D, 0x6F, 0x64, 0x65, 0x6C, 0x2E, 0x62, 0x69, 0x6E]
}

/// "Hello from coconutFS!" and the end of a line.
pub open spec fn greeting() -> Seq<u8> {
    seq![
        0x48, 0x65, 0x6C, 0x6C, 0x6F, 0x20, 0x66, 0x72, 0x6F, 0x6D, 0x20,
        0x63, 0x6F, 0x63, 0x6F, 0x6E, 0x75, 0x74, 0x46, 0x53, 0x21, 0x0A,
    ]
}

/// A directory entry.
pub open spec fn entry(img: Seq<u8>, at: int, ino: int, rec_len: int, name: Seq<u8>) -> bool {
    &&& le32(img, at) == ino
    &&& le16(img, at + 4) == rec_len
    &&& le16(img, at + 6) == name.len()
    &&& img.subrange(at + 8, at + 8 + name.len()) == name
}

pub open spec fn root_directory(img: Seq<u8>) -> bool {
    &&& entry(img, 9216, 2, 12, seq![0x2Eu8])
    &&& blank(img, 9225, 9228)
    &&& entry(img, 9228, 2, 12, seq![0x2Eu8, 0x2Eu8])
    &&& blank(img, 9238, 9240)
    &&& entry(img, 9240, 11, 20, hello_name())
    &&& blank(img, 9257, 9260)
    &&& entry(img, 9260, 12, 980, model_name())
    &&& blank(img, 9277, 10240)
}

/// The data of both files, the pointers to the later parts of the model, and nothing else.
pub open spec fn file_data(img: Seq<u8>, model: Seq<u8>) -> bool {
    let n = data_blocks(model.len() as int);
    &&& img.subrange(10240, 10262) == greeting()
    &&& blank(img, 10262, 11264)
    &&& forall|p: int|
        0 <= p < 1024 * n ==> #[trigger] img[part_at(p)] == (if p < model.len() {
            model[p]
        } else {
            0
        })
    &&& n > 12 ==> {
        &&& forall|k: int| 12 <= k < n ==> #[trigger] le32(img, 23552 + 4 * (k - 12)) == part_block(k)
        &&& blank(img, 23552 + 4 * (n - 12), 24576)
    }
    &&& blank(img, 1024 * first_free_block(model.len() as int), IMAGE_SIZE as int)
}

/// The image with the given model.
pub open spec fn image_with(img: Seq<u8>, model: Seq<u8>) -> bool {
    let len = model.len() as int;
    &&& img.len() == IMAGE_SIZE
    &&& blank(img, 0, 1024)
    &&& superblock(img, TOTAL_BLOCKS - first_free_block(len))
    &&& group_descriptor(img, TOTAL_BLOCKS - first_free_block(len))
    &&& bitmaps(img, first_free_block(len))
    &&& inode_table(img, len)
    &&& root_directory(img)
    &&& file_data(img, model)
}

/// Where `a` and `b` can differ: from `lo` up to `hi`.
spec fn same_outside(a: Seq<u8>, b: Seq<u8>, lo: int, hi: int) -> bool {
    &&& a.len() == b.len()
    &&& forall|k: int| 0 <= k < a.len() && !(lo <= k < hi) ==> #[trigger] a[k] == b[k]
}

fn set16(img: &mut [u8], at: usize, v: u16)
    requires
        at + 2 <= old(img)@.len(),
    ensures
        le16(final(img)@, at as int) == v,
        same_outside(final(img)@, old(img)@, at as int, at + 2),
{
    let ghost before = img@;
    write_u16_le(img, at, v);
    proof {
        law_put_then_read(before, at as int, 2, v as int);
    }
}

fn set32(img: &mut [u8], at: usize, v: u32)
    requires
        at + 4 <= old(img)@.len(),
    ensures
        le32(final(img)@, at as int) == v,
        same_outside(final(img)@, old(img)@, at as int, at + 4),
{
    let ghost before = img@;
    write_u32_le(img, at, v);
    proof {
        law_put_then_read(before, at as int, 4, v as int);
    }
}

/// Copy `n` bytes of `src`, from number `from` on.
fn copy(img: &mut [u8], at: usize, src: &[u8], from: usize, n: usize)
    requires
        at + n <= old(img)@.len(),
        from + n <= src@.len(),
    ensures
        forall|k: int| 0 <= k < n ==> #[trigger] final(img)@[at + k] == src@[from + k],
        final(img)@.subrange(at as int, at + n) == src@.subrange(from as int, from + n),
        same_outside(final(img)@, old(img)@, at as int, at + n),
{
    let ghost before = img@;
    let mut i: usize = 0;
    while i < n
        invariant
            i <= n,
            before == old(img)@,
            at + n <= img@.len(),
            from + n <= src@.len(),
            img@.len() == before.len(),
            forall|k: int|
                0 <= k < img@.len() ==> #[trigger] img@[k] == (if at <= k < at + i {
                    src@[from + (k - at)]
                } else {
                    before[k]
                }),
        decreases n - i,
    {
        assert(img.len() == img@.len() && src.len() == src@.len());
        img[at + i] = src[from + i];
        i += 1;
    }
    assert(img@.subrange(at as int, at + n) =~= src@.subrange(from as int, from + n));
}

fn write_superblock(img: &mut [u8], free: u32)
    requires
        old(img)@.len() == IMAGE_SIZE,
        blank(old(img)@, 1024, 2048),
    ensures
        superblock(final(img)@, free as int),
        same_outside(final(img)@, old(img)@, 1024, 2048),
{
    set32(img, 1024, TOTAL_INODES);
    set32(img, 1028, TOTAL_BLOCKS as u32);
    set32(img, 1036, free);
    set32(img, 1040, TOTAL_INODES - 12);
    set32(img, 1044, 1);
    set32(img, 1056, TOTAL_BLOCKS as u32);
    set32(img, 1060, TOTAL_BLOCKS as u32);
    set32(img, 1064, TOTAL_INODES);
    set16(img, 1074, 0xFFFF);
    set16(img, 1080, EXT2_MAGIC);
    set16(img, 1082, 1);
    set16(img, 1084, 1);
}

fn write_group_descriptor(img: &mut [u8], free: u16)
    requires
        old(img)@.len() == IMAGE_SIZE,
        blank(old(img)@, 2048, 3072),
    ensures
        group_descriptor(final(img)@, free as int),
        same_outside(final(img)@, old(img)@, 2048, 3072),
{
    set32(img, 2048, 3);
    set32(img, 2052, 4);
    set32(img, 2056, 5);
    set16(img, 2060, free);
    set16(img, 2062, TOTAL_INODES as u16 - 12);
    set16(img, 2064, 1);
}

/// The byte whose lowest `n` bits are set.
fn low_bits_byte(n: usize) -> (b: u8)
    ensures
        b == low_bits(n as int),
{
    let mut b: u8 = 0;
    let mut i: usize = 0;
    if n >= 8 {
        return 0xFF;
    }
    while i < n
        invariant
            i <= n < 8,
            b == low_bits(i as int),
            i == 0 ==> b == 0,
            i == 1 ==> b == 1,
            i == 2 ==> b == 3,
            i == 3 ==> b == 7,
            i == 4 ==> b == 15,
            i == 5 ==> b == 31,
            i == 6 ==> b == 63,
            i == 7 ==> b == 127,
        decreases n - i,
    {
        b = 2 * b + 1;
        i += 1;
    }
    b
}

fn write_bitmaps(img: &mut [u8], used: usize)
    requires
        old(img)@.len() == IMAGE_SIZE,
        blank(old(img)@, 3072, 5120),
        used <= TOTAL_BLOCKS,
    ensures
        bitmaps(final(img)@, used as int),
        same_outside(final(img)@, old(img)@, 3072, 5120),
{
    let ghost before = img@;
    let mut j: usize = 0;
    while j < 1024
        invariant
            j <= 1024,
            before == old(img)@,
            img@.len() == IMAGE_SIZE,
            blank(before, 3072, 5120),
            used <= TOTAL_BLOCKS,
            forall|k: int| 0 <= k < j ==> #[trigger] img@[3072 + k] == low_bits(used - 8 * k),
            forall|k: int| 3072 + j <= k < 5120 ==> #[trigger] img@[k] == 0,
            same_outside(img@, before, 3072, 5120),
        decreases 1024 - j,
    {
        let left: usize = if used > 8 * j {
            used - 8 * j
        } else {
            0
        };
        img[3072 + j] = low_bits_byte(left);
        j += 1;
    }
    let ghost now = img@;
    set16(img, 4096, 0x0FFF);
    assert forall|k: int| 0 <= k < 1024 implies #[trigger] img@[3072 + k] == low_bits(used - 8 * k) by {
        assert(now[3072 + k] == low_bits(used - 8 * k));
    }
}

fn write_inode(
    img: &mut [u8],
    at: usize,
    mode: u16,
    size: u32,
    links: u16,
    sectors: u32,
    first: u32,
    n: usize,
    indirect: u32,
)
    requires
        old(img)@.len() == IMAGE_SIZE,
        at + 128 <= IMAGE_SIZE,
        blank(old(img)@, at as int, at + 128),
        n <= 12,
        first <= TOTAL_BLOCKS,
    ensures
        inode_record(
            final(img)@,
            at as int,
            mode as int,
            size as int,
            links as int,
            sectors as int,
            first as int,
            n as int,
            indirect as int,
        ),
        same_outside(final(img)@, old(img)@, at as int, at + 128),
{
    set16(img, at, mode);
    set32(img, at + 4, size);
    set16(img, at + 26, links);
    set32(img, at + 28, sectors);
    set32(img, at + 88, indirect);
    let ghost before = img@;
    let mut i: usize = 0;
    while i < n
        invariant
            i <= n <= 12,
            first <= TOTAL_BLOCKS,
            at + 128 <= IMAGE_SIZE,
            img@.len() == IMAGE_SIZE,
            blank(before, at + 40, at + 88),
            same_outside(img@, before, at + 40, at + 40 + 4 * i),
            forall|k: int| 0 <= k < i ==> #[trigger] le32(img@, at + 40 + 4 * k) == first + k,
        decreases n - i,
    {
        let ghost now = img@;
        set32(img, at + 40 + 4 * i, first + i as u32);
        assert forall|k: int| 0 <= k < i implies #[trigger] le32(img@, at + 40 + 4 * k) == first
            + k by {
            assert(le32(now, at + 40 + 4 * k) == first + k);
        }
        i += 1;
    }
}

fn write_entry(img: &mut [u8], at: usize, ino: u32, rec_len: u16, name: &[u8])
    requires
        old(img)@.len() == IMAGE_SIZE,
        name@.len() <= 255,
        at + 8 + name@.len() <= IMAGE_SIZE,
    ensures
        entry(final(img)@, at as int, ino as int, rec_len as int, name@),
        same_outside(final(img)@, old(img)@, at as int, at + 8 + name@.len()),
{
    set32(img, at, ino);
    set16(img, at + 4, rec_len);
    set16(img, at + 6, name.len() as u16);
    copy(img, at + 8, name, 0, name.len());
    assert(name@.subrange(0, name@.len() as int) =~= name@);
}

fn write_root_directory(img: &mut [u8])
    requires
        old(img)@.len() == IMAGE_SIZE,
        blank(old(img)@, 9216, 10240),
    ensures
        root_directory(final(img)@),
        same_outside(final(img)@, old(img)@, 9216, 10240),
{
    let dot: [u8; 1] = [0x2E];
    let dots: [u8; 2] = [0x2E, 0x2E];
    let hello: [u8; 9] = [0x68, 0x65, 0x6C, 0x6C, 0x6F, 0x2E, 0x74, 0x78, 0x74];
    let model: [u8; 9] = [0x6D, 0x6F, 0x64, 0x65, 0x6C, 0x2E, 0x62, 0x69, 0x6E];
    assert(dot@ =~= seq![0x2Eu8]);
    assert(dots@ =~= seq![0x2Eu8, 0x2Eu8]);
    assert(hello@ =~= hello_name());
    assert(model@ =~= model_name());
    write_entry(img, 9216, 2, 12, dot.as_slice());
    let ghost v1 = img@;
    write_entry(img, 9228, 2, 12, dots.as_slice());
    let ghost v2 = img@;
    write_entry(img, 9240, 11, 20, hello.as_slice());
    let ghost v3 = img@;
    write_entry(img, 9260, 12, 980, model.as_slice());
    proof {
        let v = img@;
        assert(v.subrange(9224, 9225) =~= v1.subrange(9224, 9225));
        assert(v.subrange(9236, 9238) =~= v2.subrange(9236, 9238));
        assert(v.subrange(9248, 9257) =~= v3.subrange(9248, 9257));
    }
}

fn write_greeting(img: &mut [u8])
    requires
        old(img)@.len() == IMAGE_SIZE,
    ensures
        final(img)@.subrange(10240, 10262) == greeting(),
        same_outside(final(img)@, old(img)@, 10240, 10262),
{
    let text: [u8; 22] = [
        0x48, 0x65, 0x6C, 0x6C, 0x6F, 0x20, 0x66, 0x72, 0x6F, 0x6D, 0x20,
        0x63, 0x6F, 0x63, 0x6F, 0x6E, 0x75, 0x74, 0x46, 0x53, 0x21, 0x0A,
    ];
    copy(img, 10240, text.as_slice(), 0, 22);
    assert(text@.subrange(0, 22) =~= greeting());
}

/// The model's data, with `n` parts written so far.
spec fn parts_written(img: Seq<u8>, model: Seq<u8>, n: int) -> bool {
    &&& forall|p: int|
        0 <= p < 1024 * n ==> #[trigger] img[part_at(p)] == (if p < model.len() {
            model[p]
        } else {
            0
        })
    &&& blank(img, 1024 * part_block(n), IMAGE_SIZE as int)
    &&& blank(img, 23552, 24576)
}

/// Write the model's data into its blocks.
fn write_parts(img: &mut [u8], model: &[u8], n: usize)
    requires
        old(img)@.len() == IMAGE_SIZE,
        blank(old(img)@, 11264, IMAGE_SIZE as int),
        n == data_blocks(model@.len() as int),
        first_free_block(model@.len() as int) <= TOTAL_BLOCKS,
    ensures
        parts_written(final(img)@, model@, n as int),
        same_outside(final(img)@, old(img)@, 11264, IMAGE_SIZE as int),
{
    let ghost before = img@;
    let mut k: usize = 0;
    while k < n
        invariant
            k <= n,
            n == data_blocks(model@.len() as int),
            first_free_block(model@.len() as int) <= TOTAL_BLOCKS,
            img@.len() == IMAGE_SIZE,
            parts_written(img@, model@, k as int),
            same_outside(img@, before, 11264, IMAGE_SIZE as int),
        decreases n - k,
    {
        let ghost now = img@;
        assert(model.len() == model@.len());
        let from: usize = 1024 * k;
        let size: usize = if model.len() - from < 1024 {
            model.len() - from
        } else {
            1024
        };
        let block: usize = if k < 12 {
            MODEL_START + k
        } else {
            MODEL_START + k + 1
        };
        let at: usize = 1024 * block;
        copy(img, at, model, from, size);
        proof {
            assert forall|p: int| 0 <= p < 1024 * (k + 1) implies #[trigger] img@[part_at(p)] == (if p
                < model@.len() {
                model@[p]
            } else {
                0
            }) by {
                if p < 1024 * k {
                    assert(now[part_at(p)] == (if p < model@.len() {
                        model@[p]
                    } else {
                        0
                    }));
                } else {
                    assert(p / 1024 == k);
                    assert(part_at(p) == at + (p - from));
                    if p - from < size {
                        assert(img@[at + (p - from)] == model@[from + (p - from)]);
                    }
                }
            }
        }
        k += 1;
    }
}

/// Write the pointers to the parts of the model from number 12 on.
fn write_pointers(img: &mut [u8], n: usize)
    requires
        old(img)@.len() == IMAGE_SIZE,
        blank(old(img)@, 23552, 24576),
        12 <= n <= TOTAL_BLOCKS,
    ensures
        forall|k: int|
            12 <= k < n ==> #[trigger] le32(final(img)@, 23552 + 4 * (k - 12)) == part_block(k),
        blank(final(img)@, 23552 + 4 * (n - 12), 24576),
        same_outside(final(img)@, old(img)@, 23552, 24576),
{
    let ghost before = img@;
    let mut i: usize = 12;
    while i < n
        invariant
            12 <= i <= n <= TOTAL_BLOCKS,
            img@.len() == IMAGE_SIZE,
            blank(before, 23552, 24576),
            same_outside(img@, before, 23552, 23552 + 4 * (i - 12)),
            forall|k: int|
                12 <= k < i ==> #[trigger] le32(img@, 23552 + 4 * (k - 12)) == part_block(k),
        decreases n - i,
    {
        let ghost now = img@;
        set32(img, 23552 + 4 * (i - 12), (MODEL_START + i + 1) as u32);
        assert forall|k: int| 12 <= k < i implies #[trigger] le32(img@, 23552 + 4 * (k - 12))
            == part_block(k) by {
            assert(le32(now, 23552 + 4 * (k - 12)) == part_block(k));
        }
        i += 1;
    }
}

/// `a` and `b` agree from `lo` up to `hi`.
spec fn same_inside(a: Seq<u8>, b: Seq<u8>, lo: int, hi: int) -> bool {
    forall|k: int| lo <= k < hi ==> #[trigger] a[k] == b[k]
}

proof fn lemma_superblock_kept(a: Seq<u8>, b: Seq<u8>, free: int)
    requires
        same_inside(b, a, 1024, 2048),
        superblock(a, free),
    ensures
        superblock(b, free),
{
}

proof fn lemma_group_kept(a: Seq<u8>, b: Seq<u8>, free: int)
    requires
        same_inside(b, a, 2048, 3072),
        group_descriptor(a, free),
    ensures
        group_descriptor(b, free),
{
}

proof fn lemma_bitmaps_kept(a: Seq<u8>, b: Seq<u8>, used: int)
    requires
        same_inside(b, a, 3072, 5120),
        bitmaps(a, used),
    ensures
        bitmaps(b, used),
{
    assert forall|j: int| 0 <= j < 1024 implies #[trigger] b[3072 + j] == low_bits(used - 8 * j) by {
        assert(a[3072 + j] == low_bits(used - 8 * j));
    }
}

proof fn lemma_inode_kept(
    a: Seq<u8>,
    b: Seq<u8>,
    at: int,
    mode: int,
    size: int,
    links: int,
    sectors: int,
    first: int,
    n: int,
    indirect: int,
)
    requires
        same_inside(b, a, at, at + 128),
        0 <= n <= 12,
        inode_record(a, at, mode, size, links, sectors, first, n, indirect),
    ensures
        inode_record(b, at, mode, size, links, sectors, first, n, indirect),
{
    assert forall|k: int| 0 <= k < n implies #[trigger] le32(b, at + 40 + 4 * k) == first + k by {
        assert(le32(a, at + 40 + 4 * k) == first + k);
    }
}

proof fn lemma_directory_kept(a: Seq<u8>, b: Seq<u8>)
    requires
        a.len() == IMAGE_SIZE,
        b.len() == IMAGE_SIZE,
        same_inside(b, a, 9216, 10240),
        root_directory(a),
    ensures
        root_directory(b),
{
    assert(b.subrange(9224, 9225) =~= a.subrange(9224, 9225));
    assert(b.subrange(9236, 9238) =~= a.subrange(9236, 9238));
    assert(b.subrange(9248, 9257) =~= a.subrange(9248, 9257));
    assert(b.subrange(9268, 9277) =~= a.subrange(9268, 9277));
}

/// Writing the pointers leaves the parts alone.
proof fn lemma_parts_kept(a: Seq<u8>, b: Seq<u8>, model: Seq<u8>, n: int)
    requires
        a.len() == IMAGE_SIZE,
        n == data_blocks(model.len() as int),
        12 < n < TOTAL_BLOCKS,
        parts_written(a, model, n),
        first_free_block(model.len() as int) <= TOTAL_BLOCKS,
        same_outside(b, a, 23552, 24576),
    ensures
        forall|p: int|
            0 <= p < 1024 * n ==> #[trigger] b[part_at(p)] == (if p < model.len() {
                model[p]
            } else {
                0
            }),
        blank(b, 1024 * part_block(n), IMAGE_SIZE as int),
{
    assert forall|p: int| 0 <= p < 1024 * n implies #[trigger] b[part_at(p)] == (if p < model.len() {
        model[p]
    } else {
        0
    }) by {
        assert(a[part_at(p)] == (if p < model.len() {
            model[p]
        } else {
            0
        }));
        assert(p / 1024 < n);
    }
}

/// Make the image with the given model. There is none where the model does not fit.
pub fn build_image(model: &[u8]) -> (r: Option<Vec<u8>>)
    ensures
        r is Some <==> first_free_block(model@.len() as int) <= TOTAL_BLOCKS,
        r matches Some(img) ==> image_with(img@, model@),
{
    if model.len() > IMAGE_SIZE {
        return None;
    }
    let n: usize = (model.len() + (BLOCK_SIZE - 1)) / BLOCK_SIZE;
    let used: usize = if n > 12 {
        n + 1
    } else {
        n
    };
    let first_free: usize = MODEL_START + used;
    if first_free > TOTAL_BLOCKS {
        return None;
    }
    let free: usize = TOTAL_BLOCKS - first_free;
    let mut img: Vec<u8> = vec![0u8; IMAGE_SIZE];
    let ghost v0 = img@;
    write_superblock(img.as_mut_slice(), free as u32);
    let ghost v1 = img@;
    write_group_descriptor(img.as_mut_slice(), free as u16);
    let ghost v2 = img@;
    write_bitmaps(img.as_mut_slice(), first_free);
    let ghost v3 = img@;
    write_inode(img.as_mut_slice(), 5248, DIR_MODE, 1024, 2, 2, 9, 1, 0);
    let ghost v4 = img@;
    write_inode(img.as_mut_slice(), 6400, FILE_MODE, 22, 1, 2, 10, 1, 0);
    let ghost v5 = img@;
    let (direct, indirect): (usize, u32) = if n > 12 {
        (12, 23)
    } else {
        (n, 0)
    };
    write_inode(
        img.as_mut_slice(),
        6528,
        FILE_MODE,
        model.len() as u32,
        1,
        2 * used as u32,
        MODEL_START as u32,
        direct,
        indirect,
    );
    let ghost v6 = img@;
    write_root_directory(img.as_mut_slice());
    let ghost v7 = img@;
    write_greeting(img.as_mut_slice());
    let ghost v8 = img@;
    write_parts(img.as_mut_slice(), model, n);
    let ghost v9 = img@;
    if n > 12 {
        write_pointers(img.as_mut_slice(), n);
    }
    proof {
        let v = img@;
        let len = model@.len() as int;
        assert(same_inside(v, v2, 0, 3072));
        lemma_superblock_kept(v1, v, free as int);
        lemma_group_kept(v2, v, free as int);
        lemma_bitmaps_kept(v3, v, first_free as int);
        lemma_inode_kept(v4, v, 5248, DIR_MODE as int, 1024, 2, 2, 9, 1, 0);
        lemma_inode_kept(v5, v, 6400, FILE_MODE as int, 22, 1, 2, 10, 1, 0);
        lemma_inode_kept(
            v6,
            v,
            6528,
            FILE_MODE as int,
            len,
            1,
            2 * model_blocks(len),
            MODEL_START as int,
            direct as int,
            indirect as int,
        );
        lemma_directory_kept(v7, v);
        assert(v.subrange(10240, 10262) =~= v8.subrange(10240, 10262));
        if n > 12 {
            lemma_parts_kept(v9, v, model@, n as int);
        }
        assert(file_data(v, model@));
    }
    Some(img)
}

// ---------------------------------------------------------------------------
// Laws
// ---------------------------------------------------------------------------

/// The image can be mounted: blocks of 1024 bytes, inodes of 128 bytes, and the inode table
/// in block 5.
pub proof fn law_image_mounts(img: Seq<u8>, model: Seq<u8>)
    requires
        image_with(img, model),
    ensures
        is_image(img),
        super_block_size(img) == 1024,
        super_inode_size(img) == 128,
        le32(img, 2 * super_block_size(img) + 8) == 5,
{
    assert(1024u32 << 0u32 == 1024u32) by (bit_vector);
    assert(le32(img, 1048) == 0);
    assert(le32(img, 1100) == 0);
}

/// The filesystem that mounting the image gives.
pub open spec fn mounted(fs: Ext2Fs<'_>, img: Seq<u8>) -> bool {
    &&& fs.data@ == img
    &&& fs.block_size == super_block_size(img)
    &&& fs.inode_size == super_inode_size(img)
    &&& fs.inode_table_block == le32(img, 2 * super_block_size(img) + 8)
}

/// The entries of the root directory.
proof fn lemma_root_entries(fs: Ext2Fs<'_>, model: Seq<u8>)
    requires
        image_with(fs.data@, model),
        mounted(fs, fs.data@),
    ensures
        root_entries(fs) == seq![
            DirEntry { inode: 2, name_at: 9224, name_len: 1 },
            DirEntry { inode: 2, name_at: 9236, name_len: 2 },
            DirEntry { inode: 11, name_at: 9248, name_len: 9 },
            DirEntry { inode: 12, name_at: 9268, name_len: 9 },
        ],
{
    let img = fs.data@;
    law_image_mounts(img, model);
    assert(inode_at(fs, 2) == 5248);
    assert(inode_at(fs, ROOT_INODE as int) == 5248);
    assert(has_inode(fs, ROOT_INODE as int));
    assert(le32(img, 5248 + 40 + 4 * 0int) == 9);
    assert(le32(img, 5248 + 40 + 4 * 1int) == 0);
    let none = Seq::<DirEntry>::empty();
    assert(block_entries(img, 9216, 1024, 1024) == none);
    assert(block_entries(img, 9216, 1024, 44) == seq![
        DirEntry { inode: 12, name_at: 9268, name_len: 9 },
    ] + block_entries(img, 9216, 1024, 1024));
    assert(block_entries(img, 9216, 1024, 24) == seq![
        DirEntry { inode: 11, name_at: 9248, name_len: 9 },
    ] + block_entries(img, 9216, 1024, 44));
    assert(block_entries(img, 9216, 1024, 12) == seq![
        DirEntry { inode: 2, name_at: 9236, name_len: 2 },
    ] + block_entries(img, 9216, 1024, 24));
    assert(block_entries(img, 9216, 1024, 0) == seq![
        DirEntry { inode: 2, name_at: 9224, name_len: 1 },
    ] + block_entries(img, 9216, 1024, 12));
    assert(dir_entries(fs, 5248, 1) == none);
    assert(dir_entries(fs, 5248, 0) == block_entries(img, 9216, 1024, 0) + dir_entries(
        fs,
        5248,
        1,
    ));
    assert(root_entries(fs) =~= seq![
        DirEntry { inode: 2, name_at: 9224, name_len: 1 },
        DirEntry { inode: 2, name_at: 9236, name_len: 2 },
        DirEntry { inode: 11, name_at: 9248, name_len: 9 },
        DirEntry { inode: 12, name_at: 9268, name_len: 9 },
    ]);
}

/// Both files are found by name, and there are no others.
pub proof fn law_files_found(fs: Ext2Fs<'_>, model: Seq<u8>)
    requires
        image_with(fs.data@, model),
        mounted(fs, fs.data@),
    ensures
        lookup_spec(fs, hello_name()) == Some(11int),
        lookup_spec(fs, model_name()) == Some(12int),
        count_files(fs.data@, root_entries(fs)) == 2,
{
    let img = fs.data@;
    lemma_root_entries(fs, model);
    let es = root_entries(fs);
    assert(es[2] == (DirEntry { inode: 11, name_at: 9248, name_len: 9 }));
    assert(is_named(img, es[2], hello_name()));
    assert(is_named(img, es[3], model_name()));
    assert(hello_name()[0] != model_name()[0]);
    assert(!is_named(img, es[2], model_name()));
    let e1 = es.drop_first();
    let e2 = e1.drop_first();
    let e3 = e2.drop_first();
    let e4 = e3.drop_first();
    assert(e1[0] == es[1] && e2[0] == es[2] && e3[0] == es[3] && e4.len() == 0);
    assert(strip(hello_name()) == hello_name());
    assert(strip(model_name()) == model_name());
    assert(find(img, e2, hello_name()) == Some(11int));
    assert(find(img, e1, hello_name()) == Some(11int));
    assert(find(img, e3, model_name()) == Some(12int));
    assert(find(img, e2, model_name()) == Some(12int));
    assert(find(img, e1, model_name()) == Some(12int));
    assert(is_named(img, es[0], seq![0x2Eu8]));
    assert(is_named(img, es[1], seq![0x2Eu8, 0x2Eu8]));
    assert(count_files(img, e4) == 0);
    assert(count_files(img, e3) == 1);
    assert(count_files(img, e2) == 2);
    assert(count_files(img, e1) == 2);
}

/// Reading the greeting gives it back, however large the buffer is.
pub proof fn law_greeting_read(fs: Ext2Fs<'_>, model: Seq<u8>, max: int)
    requires
        image_with(fs.data@, model),
        mounted(fs, fs.data@),
        max >= 22,
    ensures
        has_inode(fs, 11),
        read_bytes(fs, inode_view(fs.data@, inode_at(fs, 11)), 0, max) == greeting(),
{
    let img = fs.data@;
    law_image_mounts(img, model);
    assert(inode_at(fs, 11) == 6400);
    let i = inode_view(img, 6400);
    assert(le32(img, 6400 + 40 + 4 * 0int) == 10);
    assert(i.blocks[0] == 10);
    assert(i.size == 22);
    assert forall|k: int| 0 <= k < 22 implies #[trigger] file_byte(fs, i, 0 + k) == Some(
        greeting()[k],
    ) by {
        assert(file_block(fs, i, 0) == Some(10int));
        assert(img.subrange(10240, 10262)[k] == img[10240 + k]);
    }
    lemma_read_len(fs, i, 0, max, 22);
    assert(read_bytes(fs, i, 0, max) =~= greeting());
}

/// Every byte of the model is where the filesystem looks for it.
pub proof fn law_model_byte(fs: Ext2Fs<'_>, model: Seq<u8>, p: int)
    requires
        image_with(fs.data@, model),
        mounted(fs, fs.data@),
        first_free_block(model.len() as int) <= TOTAL_BLOCKS,
        0 <= p < model.len(),
    ensures
        has_inode(fs, 12),
        file_byte(fs, inode_view(fs.data@, inode_at(fs, 12)), p) == Some(model[p]),
{
    let img = fs.data@;
    let n = data_blocks(model.len() as int);
    law_image_mounts(img, model);
    assert(inode_at(fs, 12) == 6528);
    let i = inode_view(img, 6528);
    let k = p / 1024;
    assert(k < n);
    assert(file_block(fs, i, k) == Some(part_block(k))) by {
        if k < 12 {
            assert(le32(img, 6528 + 40 + 4 * k) == MODEL_START + k);
            assert(i.blocks[k] == MODEL_START + k);
        } else {
            assert(i.indirect == 23);
            assert(le32(img, 23552 + 4 * (k - 12)) == part_block(k));
        }
    }
    assert(img[part_at(p)] == model[p]);
}

/// Reading the model gives it back.
pub proof fn law_model_read(fs: Ext2Fs<'_>, model: Seq<u8>, max: int)
    requires
        image_with(fs.data@, model),
        mounted(fs, fs.data@),
        first_free_block(model.len() as int) <= TOTAL_BLOCKS,
        max >= model.len(),
    ensures
        read_bytes(fs, inode_view(fs.data@, inode_at(fs, 12)), 0, max) == model,
{
    let img = fs.data@;
    let i = inode_view(img, inode_at(fs, 12));
    let len = model.len() as int;
    law_image_mounts(img, model);
    assert(inode_at(fs, 12) == 6528);
    assert(i.size == len);
    assert forall|k: int| 0 <= k < len implies #[trigger] file_byte(fs, i, 0 + k) == Some(
        model[k],
    ) by {
        law_model_byte(fs, model, k);
    }
    lemma_read_len(fs, i, 0, max, len);
    assert(read_bytes(fs, i, 0, max) =~= model);
}

} // verus!
