//! Read-only ext2 filesystem parser on a byte slice.
//!
//! Reads files through direct and single indirect block pointers, and finds files in the
//! root directory. Used for the embedded ramdisk.

use vstd::prelude::*;

use crate::bytes::{le16, le32, read_u16_le, read_u32_le};

verus! {

pub const EXT2_MAGIC: u16 = 0xEF53;

/// The inode of the root directory.
pub const ROOT_INODE: u32 = 2;

/// Number of direct block pointers in an inode.
pub const DIRECT_BLOCKS: usize = 12;

/// A filesystem: the image and what its superblock and group descriptor say.
#[derive(Debug, Clone, Copy)]
pub struct Ext2Fs<'a> {
    pub data: &'a [u8],
    pub block_size: u32,
    pub inodes_per_group: u32,
    pub inode_size: u32,
    pub inode_table_block: u32,
}

impl Ext2Fs<'_> {
    pub open spec fn wf(&self) -> bool {
        &&& 1024 <= self.block_size <= 0x8000_0000
        &&& self.inode_size <= u16::MAX
    }
}

/// What is read of an inode.
#[derive(Debug, Clone, Copy)]
pub struct Inode {
    pub mode: u16,
    pub size: u32,
    pub blocks: [u32; DIRECT_BLOCKS],
    /// The block that holds the pointers to further blocks, or zero.
    pub indirect: u32,
}

/// The contents of an inode.
#[verifier::ext_equal]
pub struct InodeView {
    pub mode: int,
    pub size: int,
    pub blocks: Seq<int>,
    pub indirect: int,
}

impl View for Inode {
    type V = InodeView;

    open spec fn view(&self) -> InodeView {
        InodeView {
            mode: self.mode as int,
            size: self.size as int,
            blocks: Seq::new(DIRECT_BLOCKS as nat, |k: int| self.blocks@[k] as int),
            indirect: self.indirect as int,
        }
    }
}

/// The block size that the superblock gives.
pub open spec fn super_block_size(data: Seq<u8>) -> u32 {
    1024u32 << (le32(data, 1048) as u32)
}

/// The inode size that the superblock gives: always 128 in revision 0.
pub open spec fn super_inode_size(data: Seq<u8>) -> int {
    if le32(data, 1100) == 0 {
        128
    } else {
        le16(data, 1112)
    }
}

/// Whether the image holds a superblock and a group descriptor that can be used.
pub open spec fn is_image(data: Seq<u8>) -> bool {
    &&& data.len() >= 1104
    &&& le16(data, 1080) == EXT2_MAGIC
    &&& le32(data, 1048) < 22
    &&& le32(data, 1100) != 0 ==> data.len() >= 1114
    &&& 2 * super_block_size(data) + 12 <= data.len()
}

/// Read the superblock and the group descriptor. There is no result where the magic number
/// is wrong, the block size is no 32-bit number, or the image is too short.
pub fn init(data: &[u8]) -> (r: Option<Ext2Fs<'_>>)
    ensures
        r is Some <==> is_image(data@),
        r matches Some(fs) ==> {
            &&& fs.wf()
            &&& fs.data@ == data@
            &&& fs.block_size == super_block_size(data@)
            &&& fs.inodes_per_group == le32(data@, 1064)
            &&& fs.inode_size == super_inode_size(data@)
            &&& fs.inode_table_block == le32(data@, 2 * super_block_size(data@) + 8)
        },
{
    if data.len() < 1104 {
        return None;
    }
    let magic: u16 = read_u16_le(data, 1080);
    if magic != EXT2_MAGIC {
        return None;
    }
    let log_block_size: u32 = read_u32_le(data, 1048);
    if log_block_size >= 22 {
        return None;
    }
    assert(1024 <= 1024u32 << log_block_size <= 0x8000_0000) by (bit_vector)
        requires
            log_block_size < 22,
    ;
    let block_size: u32 = 1024u32 << log_block_size;
    let inodes_per_group: u32 = read_u32_le(data, 1064);
    let rev_level: u32 = read_u32_le(data, 1100);
    let inode_size: u32 = if rev_level == 0 {
        128
    } else {
        if data.len() < 1114 {
            return None;
        }
        read_u16_le(data, 1112) as u32
    };
    let bgdt_offset: u64 = 2 * (block_size as u64);
    if bgdt_offset + 12 > data.len() as u64 {
        return None;
    }
    let inode_table_block: u32 = read_u32_le(data, bgdt_offset as usize + 8);
    Some(Ext2Fs { data, block_size, inodes_per_group, inode_size, inode_table_block })
}

/// Where inode number `ino` starts.
pub open spec fn inode_at(fs: Ext2Fs<'_>, ino: int) -> int {
    fs.inode_table_block * fs.block_size + (ino - 1) * fs.inode_size
}

/// Whether the image holds inode number `ino`.
pub open spec fn has_inode(fs: Ext2Fs<'_>, ino: int) -> bool {
    &&& ino != 0
    &&& inode_at(fs, ino) + fs.inode_size <= fs.data@.len()
    &&& inode_at(fs, ino) + 92 <= fs.data@.len()
}

/// The inode that starts at `at`.
pub open spec fn inode_view(data: Seq<u8>, at: int) -> InodeView {
    InodeView {
        mode: le16(data, at),
        size: le32(data, at + 4),
        blocks: Seq::new(DIRECT_BLOCKS as nat, |k: int| le32(data, at + 40 + 4 * k)),
        indirect: le32(data, at + 88),
    }
}

/// Read an inode by number (counted from 1). There is none where the image ends before it
/// does.
pub fn read_inode(fs: &Ext2Fs<'_>, ino: u32) -> (r: Option<Inode>)
    requires
        fs.wf(),
    ensures
        r is Some <==> has_inode(*fs, ino as int),
        r matches Some(i) ==> i@ == inode_view(fs.data@, inode_at(*fs, ino as int)),
{
    if ino == 0 {
        return None;
    }
    assert(fs.inode_table_block * fs.block_size <= 0xFFFF_FFFF * 0x8000_0000) by (nonlinear_arith)
        requires
            fs.inode_table_block <= 0xFFFF_FFFF,
            fs.block_size <= 0x8000_0000,
    ;
    assert((ino - 1) * fs.inode_size <= 0xFFFF_FFFF * 0xFFFF) by (nonlinear_arith)
        requires
            0 <= ino - 1 <= 0xFFFF_FFFF,
            fs.inode_size <= 0xFFFF,
    ;
    assert(0 <= (ino - 1) * fs.inode_size) by (nonlinear_arith)
        requires
            0 <= ino - 1,
    ;
    let offset: u64 = (fs.inode_table_block as u64) * (fs.block_size as u64) + ((ino - 1) as u64)
        * (fs.inode_size as u64);
    let len: u64 = fs.data.len() as u64;
    if offset + (fs.inode_size as u64) > len || offset + 92 > len {
        return None;
    }
    let at: usize = offset as usize;
    let mode: u16 = read_u16_le(fs.data, at);
    let size: u32 = read_u32_le(fs.data, at + 4);
    let mut blocks: [u32; DIRECT_BLOCKS] = [0u32;DIRECT_BLOCKS];
    let mut i: usize = 0;
    while i < DIRECT_BLOCKS
        invariant
            i <= DIRECT_BLOCKS,
            blocks@.len() == DIRECT_BLOCKS,
            at + 92 <= fs.data@.len(),
            forall|k: int| 0 <= k < i ==> #[trigger] blocks@[k] == le32(fs.data@, at + 40 + 4 * k),
        decreases DIRECT_BLOCKS - i,
    {
        assert(fs.data.len() == fs.data@.len());
        blocks[i] = read_u32_le(fs.data, at + 40 + i * 4);
        i += 1;
    }
    let indirect: u32 = read_u32_le(fs.data, at + 88);
    let inode = Inode { mode, size, blocks, indirect };
    assert(inode@ =~= inode_view(fs.data@, at as int));
    Some(inode)
}

/// An entry of a directory: the inode and where its name is in the image.
#[verifier::ext_equal]
pub struct DirEntry {
    pub inode: int,
    pub name_at: int,
    pub name_len: int,
}

/// The entries of one block of a directory that starts at `base`, from position `pos` on.
/// The list ends with the block, with an entry of length zero, or with the image.
pub open spec fn block_entries(data: Seq<u8>, base: int, block_size: int, pos: int) -> Seq<DirEntry>
    decreases block_size + 0x1_0000 - pos,
{
    let at = base + pos;
    if pos + 8 > block_size || at + 8 > data.len() || le16(data, at + 4) <= 0 {
        Seq::empty()
    } else {
        seq![
            DirEntry { inode: le32(data, at), name_at: at + 8, name_len: le16(data, at + 6) },
        ] + block_entries(data, base, block_size, pos + le16(data, at + 4))
    }
}

/// The entries of the directory whose inode starts at `at`, from its direct block number
/// `i` on.
pub open spec fn dir_entries(fs: Ext2Fs<'_>, at: int, i: int) -> Seq<DirEntry>
    decreases DIRECT_BLOCKS - i,
{
    let block = le32(fs.data@, at + 40 + 4 * i);
    if i >= DIRECT_BLOCKS || block == 0 {
        Seq::empty()
    } else {
        block_entries(fs.data@, block * fs.block_size, fs.block_size as int, 0) + dir_entries(
            fs,
            at,
            i + 1,
        )
    }
}

/// The entries of the root directory; none where the image does not hold its inode.
pub open spec fn root_entries(fs: Ext2Fs<'_>) -> Seq<DirEntry> {
    if has_inode(fs, ROOT_INODE as int) {
        dir_entries(fs, inode_at(fs, ROOT_INODE as int), 0)
    } else {
        Seq::empty()
    }
}

/// Whether the entry is in use under the given name.
pub open spec fn is_named(data: Seq<u8>, e: DirEntry, name: Seq<u8>) -> bool {
    &&& e.inode != 0
    &&& e.name_len == name.len()
    &&& e.name_at + e.name_len <= data.len()
    &&& data.subrange(e.name_at, e.name_at + e.name_len) == name
}

/// The inode of the first entry with the given name.
pub open spec fn find(data: Seq<u8>, es: Seq<DirEntry>, name: Seq<u8>) -> Option<int>
    decreases es.len(),
{
    if es.len() == 0 {
        None
    } else if is_named(data, es[0], name) {
        Some(es[0].inode)
    } else {
        find(data, es.drop_first(), name)
    }
}

/// A path without the slash that it starts with.
pub open spec fn strip(path: Seq<u8>) -> Seq<u8> {
    if path.len() > 0 && path[0] == 0x2F {
        path.skip(1)
    } else {
        path
    }
}

/// What a path leads to: the root directory for the empty path, else the inode of the
/// root directory's entry with that name.
pub open spec fn lookup_spec(fs: Ext2Fs<'_>, path: Seq<u8>) -> Option<int> {
    if strip(path).len() == 0 {
        Some(ROOT_INODE as int)
    } else {
        find(fs.data@, root_entries(fs), strip(path))
    }
}

/// Whether the bytes from `at` on are those of `name` from `from` on.
fn same_bytes(data: &[u8], at: usize, name: &[u8], from: usize) -> (r: bool)
    requires
        from <= name@.len(),
        at + (name@.len() - from) <= data@.len(),
    ensures
        r == (data@.subrange(at as int, at + (name@.len() - from)) == name@.skip(from as int)),
{
    let n: usize = name.len() - from;
    let ghost a = data@.subrange(at as int, at + n);
    let ghost b = name@.skip(from as int);
    let mut k: usize = 0;
    while k < n
        invariant
            k <= n,
            n == name@.len() - from,
            from <= name@.len(),
            at + n <= data@.len(),
            a == data@.subrange(at as int, at + n),
            b == name@.skip(from as int),
            forall|j: int| 0 <= j < k ==> #[trigger] a[j] == b[j],
        decreases n - k,
    {
        assert(data.len() == data@.len() && name.len() == name@.len());
        if data[at + k] != name[from + k] {
            assert(a[k as int] != b[k as int]);
            return false;
        }
        k += 1;
    }
    assert(a =~= b);
    true
}

proof fn lemma_find_skip(data: Seq<u8>, e: DirEntry, es: Seq<DirEntry>, name: Seq<u8>)
    ensures
        find(data, seq![e] + es, name) == (if is_named(data, e, name) {
            Some(e.inode)
        } else {
            find(data, es, name)
        }),
{
    let all = seq![e] + es;
    assert(all[0] == e);
    assert(all.drop_first() =~= es);
}

/// Look up a path in the root directory, such as "/hello.txt". The result is its inode
/// number. Only names in the root directory are found.
pub fn lookup(fs: &Ext2Fs<'_>, path: &[u8]) -> (r: Option<u32>)
    requires
        fs.wf(),
    ensures
        match r {
            Some(ino) => lookup_spec(*fs, path@) == Some(ino as int),
            None => lookup_spec(*fs, path@) is None,
        },
{
    let from: usize = if path.len() > 0 && path[0] == 0x2F {
        1
    } else {
        0
    };
    let ghost name = strip(path@);
    assert(name =~= path@.skip(from as int));
    if path.len() == from {
        return Some(ROOT_INODE);
    }
    let root = match read_inode(fs, ROOT_INODE) {
        Some(root) => root,
        None => {
            return None;
        },
    };
    find_in(fs, &root, path, from, Ghost(inode_at(*fs, ROOT_INODE as int)))
}

/// Find the entry of a directory that has the name in `path` from `from` on.
fn find_in(
    fs: &Ext2Fs<'_>,
    dir: &Inode,
    path: &[u8],
    from: usize,
    Ghost(dir_at): Ghost<int>,
) -> (r: Option<u32>)
    requires
        fs.wf(),
        dir@ == inode_view(fs.data@, dir_at),
        from <= path@.len(),
    ensures
        match r {
            Some(ino) => find(fs.data@, dir_entries(*fs, dir_at, 0), path@.skip(from as int))
                == Some(ino as int),
            None => find(fs.data@, dir_entries(*fs, dir_at, 0), path@.skip(from as int)) is None,
        },
{
    let ghost name = path@.skip(from as int);
    let ghost all = dir_entries(*fs, dir_at, 0);
    let len: u64 = fs.data.len() as u64;
    let bs: u64 = fs.block_size as u64;
    let name_size: usize = path.len() - from;
    let mut i: usize = 0;
    while i < DIRECT_BLOCKS
        invariant
            i <= DIRECT_BLOCKS,
            fs.wf(),
            from <= path@.len(),
            name == path@.skip(from as int),
            name_size == name.len(),
            len == fs.data@.len(),
            bs == fs.block_size,
            dir@ == inode_view(fs.data@, dir_at),
            all == dir_entries(*fs, dir_at, 0),
            find(fs.data@, all, name) == find(fs.data@, dir_entries(*fs, dir_at, i as int), name),
        decreases DIRECT_BLOCKS - i,
    {
        let block_nr: u32 = dir.blocks[i];
        assert(block_nr == dir@.blocks[i as int]);
        if block_nr == 0 {
            return None;
        }
        assert(block_nr * bs <= 0xFFFF_FFFF * 0x8000_0000) by (nonlinear_arith)
            requires
                block_nr <= 0xFFFF_FFFF,
                bs <= 0x8000_0000,
        ;
        let base: u64 = block_nr as u64 * bs;
        let ghost rest = dir_entries(*fs, dir_at, i + 1);
        let mut pos: u64 = 0;
        let mut more = true;
        while more && pos + 8 <= bs
            invariant
                fs.wf(),
                from <= path@.len(),
                name == path@.skip(from as int),
                name_size == name.len(),
                len == fs.data@.len(),
                bs == fs.block_size,
                base <= 0xFFFF_FFFF * 0x8000_0000,
                pos <= bs + 0x1_0000,
                all == dir_entries(*fs, dir_at, 0),
                more ==> find(fs.data@, all, name) == find(
                    fs.data@,
                    block_entries(fs.data@, base as int, bs as int, pos as int) + rest,
                    name,
                ),
                !more ==> find(fs.data@, all, name) == find(fs.data@, rest, name),
            decreases bs + 0x1_0000 - pos, (if more { 1int } else { 0 }),
        {
            let at64: u64 = base + pos;
            if at64 + 8 > len {
                assert(Seq::<DirEntry>::empty() + rest =~= rest);
                more = false;
            } else {
                assert(fs.data.len() == fs.data@.len());
                let at: usize = at64 as usize;
                let inode_nr: u32 = read_u32_le(fs.data, at);
                let rec_len: u16 = read_u16_le(fs.data, at + 4);
                let name_len: u16 = read_u16_le(fs.data, at + 6);
                if rec_len == 0 {
                    assert(Seq::<DirEntry>::empty() + rest =~= rest);
                    more = false;
                } else {
                    let ghost e = DirEntry {
                        inode: inode_nr as int,
                        name_at: at + 8,
                        name_len: name_len as int,
                    };
                    proof {
                        let tail = block_entries(
                            fs.data@,
                            base as int,
                            bs as int,
                            pos + rec_len as int,
                        );
                        assert((seq![e] + tail) + rest =~= seq![e] + (tail + rest));
                        lemma_find_skip(fs.data@, e, tail + rest, name);
                    }
                    if inode_nr != 0 && name_len as usize == name_size && fs.data.len() - at - 8
                        >= name_size {
                        if same_bytes(fs.data, at + 8, path, from) {
                            return Some(inode_nr);
                        }
                    }
                    pos = pos + rec_len as u64;
                }
            }
        }
        proof {
            if more {
                assert(Seq::<DirEntry>::empty() + rest =~= rest);
            }
        }
        i += 1;
    }
    None
}

/// Whether the entry is a file: in use, and neither "." nor "..".
pub open spec fn is_file(data: Seq<u8>, e: DirEntry) -> bool {
    e.inode != 0 && !is_named(data, e, seq![0x2Eu8]) && !is_named(data, e, seq![0x2Eu8, 0x2Eu8])
}

/// Number of files among the entries.
pub open spec fn count_files(data: Seq<u8>, es: Seq<DirEntry>) -> int
    decreases es.len(),
{
    if es.len() == 0 {
        0
    } else {
        count_files(data, es.drop_first()) + (if is_file(data, es[0]) {
            1int
        } else {
            0
        })
    }
}

proof fn lemma_count_skip(data: Seq<u8>, e: DirEntry, es: Seq<DirEntry>)
    ensures
        count_files(data, seq![e] + es) == count_files(data, es) + (if is_file(data, e) {
            1int
        } else {
            0
        }),
{
    let all = seq![e] + es;
    assert(all[0] == e);
    assert(all.drop_first() =~= es);
}

/// Count files in the root directory, without "." and "..".
pub fn file_count(fs: &Ext2Fs<'_>) -> (n: u64)
    requires
        fs.wf(),
    ensures
        n == count_files(fs.data@, root_entries(*fs)),
{
    let root = match read_inode(fs, ROOT_INODE) {
        Some(root) => root,
        None => {
            return 0;
        },
    };
    count_in(fs, &root, Ghost(inode_at(*fs, ROOT_INODE as int)))
}

/// Count the files in a directory.
fn count_in(fs: &Ext2Fs<'_>, dir: &Inode, Ghost(dir_at): Ghost<int>) -> (n: u64)
    requires
        fs.wf(),
        dir@ == inode_view(fs.data@, dir_at),
    ensures
        n == count_files(fs.data@, dir_entries(*fs, dir_at, 0)),
{
    let dot: [u8; 1] = [0x2E];
    let dots: [u8; 2] = [0x2E, 0x2E];
    let ghost all = dir_entries(*fs, dir_at, 0);
    let len: u64 = fs.data.len() as u64;
    let bs: u64 = fs.block_size as u64;
    let mut n: u64 = 0;
    let mut i: usize = 0;
    assert(dot@.skip(0) =~= seq![0x2Eu8]);
    assert(dots@.skip(0) =~= seq![0x2Eu8, 0x2Eu8]);
    while i < DIRECT_BLOCKS
        invariant
            i <= DIRECT_BLOCKS,
            fs.wf(),
            dot@.skip(0) == seq![0x2Eu8],
            dots@.skip(0) == seq![0x2Eu8, 0x2Eu8],
            dot@.len() == 1,
            dots@.len() == 2,
            len == fs.data@.len(),
            bs == fs.block_size,
            dir@ == inode_view(fs.data@, dir_at),
            all == dir_entries(*fs, dir_at, 0),
            n <= i * 0x8000_0000,
            count_files(fs.data@, all) == n + count_files(
                fs.data@,
                dir_entries(*fs, dir_at, i as int),
            ),
        decreases DIRECT_BLOCKS - i,
    {
        let block_nr: u32 = dir.blocks[i];
        assert(block_nr == dir@.blocks[i as int]);
        if block_nr == 0 {
            return n;
        }
        assert(block_nr * bs <= 0xFFFF_FFFF * 0x8000_0000) by (nonlinear_arith)
            requires
                block_nr <= 0xFFFF_FFFF,
                bs <= 0x8000_0000,
        ;
        let base: u64 = block_nr as u64 * bs;
        let ghost rest = dir_entries(*fs, dir_at, i + 1);
        let ghost n0 = n;
        let mut pos: u64 = 0;
        let mut more = true;
        while more && pos + 8 <= bs
            invariant
                i < DIRECT_BLOCKS,
                fs.wf(),
                dot@.skip(0) == seq![0x2Eu8],
                dots@.skip(0) == seq![0x2Eu8, 0x2Eu8],
                dot@.len() == 1,
                dots@.len() == 2,
                len == fs.data@.len(),
                bs == fs.block_size,
                base <= 0xFFFF_FFFF * 0x8000_0000,
                pos <= bs + 0x1_0000,
                n0 <= i * 0x8000_0000,
                n <= n0 + pos,
                n <= n0 + bs,
                more ==> count_files(fs.data@, all) == n + count_files(
                    fs.data@,
                    block_entries(fs.data@, base as int, bs as int, pos as int) + rest,
                ),
                !more ==> count_files(fs.data@, all) == n + count_files(fs.data@, rest),
            decreases bs + 0x1_0000 - pos, (if more { 1int } else { 0 }),
        {
            let at64: u64 = base + pos;
            if at64 + 8 > len {
                assert(Seq::<DirEntry>::empty() + rest =~= rest);
                more = false;
            } else {
                assert(fs.data.len() == fs.data@.len());
                let at: usize = at64 as usize;
                let inode_nr: u32 = read_u32_le(fs.data, at);
                let rec_len: u16 = read_u16_le(fs.data, at + 4);
                let name_len: u16 = read_u16_le(fs.data, at + 6);
                if rec_len == 0 {
                    assert(Seq::<DirEntry>::empty() + rest =~= rest);
                    more = false;
                } else {
                    let ghost e = DirEntry {
                        inode: inode_nr as int,
                        name_at: at + 8,
                        name_len: name_len as int,
                    };
                    proof {
                        let tail = block_entries(
                            fs.data@,
                            base as int,
                            bs as int,
                            pos + rec_len as int,
                        );
                        assert((seq![e] + tail) + rest =~= seq![e] + (tail + rest));
                        lemma_count_skip(fs.data@, e, tail + rest);
                    }
                    if inode_nr != 0 {
                        let room: usize = fs.data.len() - at - 8;
                        let is_dot = name_len == 1 && room >= 1 && same_bytes(
                            fs.data,
                            at + 8,
                            dot.as_slice(),
                            0,
                        );
                        let is_dots = name_len == 2 && room >= 2 && same_bytes(
                            fs.data,
                            at + 8,
                            dots.as_slice(),
                            0,
                        );
                        if !is_dot && !is_dots {
                            n += 1;
                        }
                    }
                    pos = pos + rec_len as u64;
                }
            }
        }
        proof {
            if more {
                assert(Seq::<DirEntry>::empty() + rest =~= rest);
            }
        }
        i += 1;
    }
    n
}

/// The block that holds part number `k` of a file: one of the direct blocks, or one that
/// the indirect block points to. There is none beyond those, or where a pointer is zero or
/// outside the image.
pub open spec fn file_block(fs: Ext2Fs<'_>, i: InodeView, k: int) -> Option<int> {
    if k < DIRECT_BLOCKS {
        if i.blocks[k] == 0 {
            None
        } else {
            Some(i.blocks[k])
        }
    } else {
        let at = i.indirect * fs.block_size + 4 * (k - DIRECT_BLOCKS);
        if k >= DIRECT_BLOCKS + fs.block_size / 4 || i.indirect == 0 || at + 4 > fs.data@.len()
            || le32(fs.data@, at) == 0 {
            None
        } else {
            Some(le32(fs.data@, at))
        }
    }
}

/// The byte of a file at position `pos`, as far as the file and the image go.
pub open spec fn file_byte(fs: Ext2Fs<'_>, i: InodeView, pos: int) -> Option<u8> {
    if pos >= i.size {
        None
    } else {
        match file_block(fs, i, pos / fs.block_size as int) {
            None => None,
            Some(b) => {
                let at = b * fs.block_size + pos % fs.block_size as int;
                if at < fs.data@.len() {
                    Some(fs.data@[at])
                } else {
                    None
                }
            },
        }
    }
}

/// How many bytes can be read from position `pos` of a file, at most `max` of them.
pub open spec fn read_len(fs: Ext2Fs<'_>, i: InodeView, pos: int, max: int) -> int
    decreases max,
{
    if max <= 0 || file_byte(fs, i, pos) is None {
        0
    } else {
        1 + read_len(fs, i, pos + 1, max - 1)
    }
}

/// The bytes that are read from position `pos` of a file, at most `max` of them.
pub open spec fn read_bytes(fs: Ext2Fs<'_>, i: InodeView, pos: int, max: int) -> Seq<u8> {
    Seq::new(read_len(fs, i, pos, max) as nat, |k: int| file_byte(fs, i, pos + k)->0)
}

/// Where the first `n` bytes are there and the next one is not, `n` bytes are read.
pub proof fn lemma_read_len(fs: Ext2Fs<'_>, i: InodeView, pos: int, max: int, n: int)
    requires
        0 <= n <= max,
        forall|k: int| 0 <= k < n ==> #[trigger] file_byte(fs, i, pos + k) is Some,
        n == max || file_byte(fs, i, pos + n) is None,
    ensures
        read_len(fs, i, pos, max) == n,
    decreases n,
{
    if n > 0 {
        assert(file_byte(fs, i, pos + 0) is Some);
        assert forall|k: int| 0 <= k < n - 1 implies #[trigger] file_byte(
            fs,
            i,
            (pos + 1) + k,
        ) is Some by {
            assert(file_byte(fs, i, pos + (k + 1)) is Some);
        }
        lemma_read_len(fs, i, pos + 1, max - 1, n - 1);
    }
}

/// The bytes that are read are there, and where fewer are read than asked for, the next one
/// is not.
pub proof fn lemma_read_known(fs: Ext2Fs<'_>, i: InodeView, pos: int, max: int)
    requires
        0 <= max,
    ensures
        0 <= read_len(fs, i, pos, max) <= max,
        forall|k: int|
            pos <= k < pos + read_len(fs, i, pos, max) ==> #[trigger] file_byte(fs, i, k) is Some,
        read_len(fs, i, pos, max) < max ==> file_byte(
            fs,
            i,
            pos + read_len(fs, i, pos, max),
        ) is None,
    decreases max,
{
    if max > 0 && file_byte(fs, i, pos) is Some {
        lemma_read_known(fs, i, pos + 1, max - 1);
    }
}

/// The bytes of a file, as far as they can be read.
pub open spec fn whole_file(fs: Ext2Fs<'_>, i: InodeView) -> Seq<u8> {
    read_bytes(fs, i, 0, i.size)
}

/// Reading on after the first `n` bytes of a file gives the next ones, and nothing once all
/// are read.
pub proof fn lemma_read_on(fs: Ext2Fs<'_>, i: InodeView, n: int, max: int)
    requires
        0 <= max,
        0 <= i.size,
        0 <= n <= whole_file(fs, i).len(),
    ensures
        ({
            let all = whole_file(fs, i);
            let more = read_bytes(fs, i, n, max);
            &&& more.len() <= max
            &&& n + more.len() <= all.len() <= i.size
            &&& all.take(n) + more == all.take((n + more.len()) as int)
            &&& n == all.len() ==> more.len() == 0
        }),
{
    let all = whole_file(fs, i);
    let more = read_bytes(fs, i, n, max);
    lemma_read_known(fs, i, 0, i.size);
    lemma_read_known(fs, i, n, max);
    let end = all.len() as int;
    assert(file_byte(fs, i, end) is None);
    if n + more.len() > end {
        assert(file_byte(fs, i, end) is Some);
    }
    assert(all.take(n) + more =~= all.take((n + more.len()) as int));
}

/// Find the block that holds part number `k` of a file.
fn block_of(fs: &Ext2Fs<'_>, inode: &Inode, k: u32) -> (r: Option<u32>)
    requires
        fs.wf(),
    ensures
        match r {
            Some(b) => file_block(*fs, inode@, k as int) == Some(b as int),
            None => file_block(*fs, inode@, k as int) is None,
        },
{
    if k < 12 {
        let b: u32 = inode.blocks[k as usize];
        if b == 0 {
            return None;
        }
        return Some(b);
    }
    if k - 12 >= fs.block_size / 4 || inode.indirect == 0 {
        return None;
    }
    assert(inode.indirect * fs.block_size <= 0xFFFF_FFFF * 0x8000_0000) by (nonlinear_arith)
        requires
            inode.indirect <= 0xFFFF_FFFF,
            fs.block_size <= 0x8000_0000,
    ;
    let at: u64 = inode.indirect as u64 * fs.block_size as u64 + 4 * ((k - 12) as u64);
    if at + 4 > fs.data.len() as u64 {
        return None;
    }
    let b: u32 = read_u32_le(fs.data, at as usize);
    if b == 0 {
        None
    } else {
        Some(b)
    }
}

/// Read the byte of a file at a position.
fn byte_of(fs: &Ext2Fs<'_>, inode: &Inode, pos: u32) -> (r: Option<u8>)
    requires
        fs.wf(),
    ensures
        r == file_byte(*fs, inode@, pos as int),
{
    if pos >= inode.size {
        return None;
    }
    match block_of(fs, inode, pos / fs.block_size) {
        None => None,
        Some(b) => {
            assert(b * fs.block_size <= 0xFFFF_FFFF * 0x8000_0000) by (nonlinear_arith)
                requires
                    b <= 0xFFFF_FFFF,
                    fs.block_size <= 0x8000_0000,
            ;
            let at: u64 = b as u64 * fs.block_size as u64 + (pos % fs.block_size) as u64;
            if at < fs.data.len() as u64 {
                Some(fs.data[at as usize])
            } else {
                None
            }
        },
    }
}

/// Read file data from an inode into a buffer, starting at the given offset. The result is
/// the number of bytes read: the buffer's length, or as many as the file has from there on.
pub fn read_data(fs: &Ext2Fs<'_>, inode: &Inode, offset: u32, buf: &mut [u8]) -> (n: usize)
    requires
        fs.wf(),
    ensures
        final(buf)@.len() == old(buf)@.len(),
        n == read_len(*fs, inode@, offset as int, old(buf)@.len() as int),
        n <= old(buf)@.len(),
        offset + n <= inode.size || n == 0,
        final(buf)@ == read_bytes(*fs, inode@, offset as int, old(buf)@.len() as int) + old(
            buf,
        )@.skip(n as int),
{
    let mut n: usize = 0;
    let mut more = true;
    while more && n < buf.len()
        invariant
            fs.wf(),
            buf@.len() == old(buf)@.len(),
            n <= buf@.len(),
            offset + n <= inode.size || n == 0,
            forall|k: int|
                0 <= k < n ==> file_byte(*fs, inode@, offset + k) == Some(#[trigger] buf@[k]),
            forall|k: int| n <= k < buf@.len() ==> #[trigger] buf@[k] == old(buf)@[k],
            !more ==> file_byte(*fs, inode@, offset + n) is None,
        decreases buf@.len() - n, (if more { 1int } else { 0 }),
    {
        if offset >= inode.size || n as u64 >= (inode.size - offset) as u64 {
            more = false;
        } else {
            match byte_of(fs, inode, offset + n as u32) {
                None => {
                    more = false;
                },
                Some(b) => {
                    buf[n] = b;
                    n += 1;
                },
            }
        }
    }
    proof {
        let max = buf@.len() as int;
        let pos = offset as int;
        assert forall|k: int| 0 <= k < n implies #[trigger] file_byte(*fs, inode@, pos + k) is Some by {
            assert(file_byte(*fs, inode@, offset + k) == Some(buf@[k]));
        }
        lemma_read_len(*fs, inode@, pos, max, n as int);
        let want = read_bytes(*fs, inode@, pos, max) + old(buf)@.skip(n as int);
        assert forall|k: int| 0 <= k < max implies buf@[k] == want[k] by {
            if k < n {
                assert(file_byte(*fs, inode@, offset + k) == Some(buf@[k]));
            }
        }
        assert(buf@ =~= want);
    }
    n
}

// ---------------------------------------------------------------------------
// Laws
// ---------------------------------------------------------------------------

/// Reading in two parts is reading at once: where the first part fills its buffer, the
/// second continues after it.
pub proof fn law_sequential_reads(fs: Ext2Fs<'_>, i: InodeView, pos: int, first: int, second: int)
    requires
        0 <= first,
        0 <= second,
        read_len(fs, i, pos, first) == first,
    ensures
        read_bytes(fs, i, pos, first) + read_bytes(fs, i, pos + first, second) == read_bytes(
            fs,
            i,
            pos,
            first + second,
        ),
{
    lemma_read_len_sum(fs, i, pos, first, second);
    lemma_read_len_bound(fs, i, pos + first, second);
    let a = read_bytes(fs, i, pos, first) + read_bytes(fs, i, pos + first, second);
    let b = read_bytes(fs, i, pos, first + second);
    assert forall|k: int| 0 <= k < a.len() implies a[k] == b[k] by {
        if k >= first {
            assert(pos + first + (k - first) == pos + k);
        }
    }
    assert(a =~= b);
}

proof fn lemma_read_len_bound(fs: Ext2Fs<'_>, i: InodeView, pos: int, max: int)
    requires
        0 <= max,
    ensures
        0 <= read_len(fs, i, pos, max) <= max,
    decreases max,
{
    if max > 0 {
        lemma_read_len_bound(fs, i, pos + 1, max - 1);
    }
}

proof fn lemma_read_len_sum(fs: Ext2Fs<'_>, i: InodeView, pos: int, first: int, second: int)
    requires
        0 <= first,
        0 <= second,
        read_len(fs, i, pos, first) == first,
    ensures
        read_len(fs, i, pos, first + second) == first + read_len(fs, i, pos + first, second),
    decreases first,
{
    if first > 0 {
        lemma_read_len_bound(fs, i, pos + 1, first - 1);
        lemma_read_len_sum(fs, i, pos + 1, first - 1, second);
    }
}

/// Where reading stops short of the buffer, reading on gives nothing.
pub proof fn law_end_of_file(fs: Ext2Fs<'_>, i: InodeView, pos: int, max: int, more: int)
    requires
        0 <= max,
        read_len(fs, i, pos, max) < max,
    ensures
        read_len(fs, i, pos + read_len(fs, i, pos, max), more) == 0,
    decreases max,
{
    if file_byte(fs, i, pos) is Some {
        lemma_read_len_bound(fs, i, pos + 1, max - 1);
        law_end_of_file(fs, i, pos + 1, max - 1, more);
    }
}

/// A file reaches as far as the direct blocks and those that one indirect block can point
/// to: with blocks of 1024 bytes, 268 KiB.
pub proof fn law_file_size_limit(fs: Ext2Fs<'_>, i: InodeView, pos: int)
    requires
        fs.wf(),
        fs.block_size == 1024,
        pos >= 268 * 1024,
    ensures
        file_byte(fs, i, pos) is None,
{
    assert(pos / 1024 >= 268);
}

/// A leading slash makes no difference to a name that does not start with one.
pub proof fn law_leading_slash(fs: Ext2Fs<'_>, path: Seq<u8>)
    requires
        path.len() == 0 || path[0] != 0x2F,
    ensures
        lookup_spec(fs, seq![0x2Fu8] + path) == lookup_spec(fs, path),
{
    assert((seq![0x2Fu8] + path).skip(1) =~= path);
}

/// Whether the image holds a file under inode number `ino` with these bytes. The inodes lie
/// one behind the other from the inode table on, counted from 1. An inode holds the size of
/// the file at byte 4, the numbers of its first twelve blocks from byte 40 on, and at byte 88
/// the number of a block with the numbers of the further blocks, four bytes each. Each block
/// holds as many bytes of the file as a block has.
pub open spec fn file_laid_out(fs: Ext2Fs<'_>, ino: int, content: Seq<u8>) -> bool {
    let d = fs.data@;
    let bs = fs.block_size as int;
    let at = fs.inode_table_block * bs + (ino - 1) * fs.inode_size;
    let more = le32(d, at + 88);
    &&& ino >= 1
    &&& at + fs.inode_size <= d.len()
    &&& at + 92 <= d.len()
    &&& le32(d, at + 4) == content.len()
    &&& forall|p: int|
        0 <= p < content.len() ==> {
            let k = p / bs;
            let b = if k < 12 {
                le32(d, at + 40 + 4 * k)
            } else {
                le32(d, more * bs + 4 * (k - 12))
            };
            &&& b != 0
            &&& k >= 12 ==> more != 0 && k - 12 < bs / 4 && more * bs + 4 * (k - 12) + 4 <= d.len()
            &&& b * bs + p % bs < d.len()
            &&& d[b * bs + p % bs] == #[trigger] content[p]
        }
}

proof fn lemma_laid_out_byte(fs: Ext2Fs<'_>, ino: int, content: Seq<u8>, p: int)
    requires
        fs.wf(),
        file_laid_out(fs, ino, content),
        0 <= p,
    ensures
        file_byte(fs, inode_view(fs.data@, inode_at(fs, ino)), p) == (if p < content.len() {
            Some(content[p])
        } else {
            None
        }),
{
    let i = inode_view(fs.data@, inode_at(fs, ino));
    let bs = fs.block_size as int;
    assert(p / bs >= 0) by (nonlinear_arith)
        requires
            p >= 0,
            bs >= 1024,
    ;
    if p < content.len() {
        let b = content[p];
        let k = p / bs;
        if k < 12 {
            assert(i.blocks[k] == le32(fs.data@, inode_at(fs, ino) + 40 + 4 * k));
        }
    }
}

/// A file is read as it lies in the image: from any position on, as many bytes as are asked
/// for, or as many as are left.
pub proof fn law_file_read_back(
    fs: Ext2Fs<'_>,
    ino: int,
    content: Seq<u8>,
    pos: int,
    max: int,
)
    requires
        fs.wf(),
        file_laid_out(fs, ino, content),
        0 <= pos <= content.len(),
        0 <= max,
    ensures
        has_inode(fs, ino),
        ({
            let i = inode_view(fs.data@, inode_at(fs, ino));
            &&& i.size == content.len()
            &&& whole_file(fs, i) == content
            &&& read_bytes(fs, i, pos, max) == content.subrange(
                pos,
                if pos + max <= content.len() {
                    pos + max
                } else {
                    content.len() as int
                },
            )
        }),
{
    let i = inode_view(fs.data@, inode_at(fs, ino));
    lemma_laid_out_read(fs, ino, content, pos, max);
    lemma_laid_out_read(fs, ino, content, 0, i.size);
    assert(content.subrange(0, content.len() as int) =~= content);
}

proof fn lemma_laid_out_read(fs: Ext2Fs<'_>, ino: int, content: Seq<u8>, pos: int, max: int)
    requires
        fs.wf(),
        file_laid_out(fs, ino, content),
        0 <= pos <= content.len(),
        0 <= max,
    ensures
        read_bytes(fs, inode_view(fs.data@, inode_at(fs, ino)), pos, max) == content.subrange(
            pos,
            if pos + max <= content.len() {
                pos + max
            } else {
                content.len() as int
            },
        ),
{
    let i = inode_view(fs.data@, inode_at(fs, ino));
    let n = if pos + max <= content.len() {
        max
    } else {
        content.len() - pos
    };
    assert forall|k: int| 0 <= k < n implies #[trigger] file_byte(fs, i, pos + k) == Some(
        content[pos + k],
    ) by {
        lemma_laid_out_byte(fs, ino, content, pos + k);
    }
    lemma_laid_out_byte(fs, ino, content, pos + n);
    lemma_read_len(fs, i, pos, max, n);
    assert(read_bytes(fs, i, pos, max) =~= content.subrange(pos, pos + n));
}

/// Whether the directory entry at `at` is in use and has the name: the inode in its first
/// four bytes, the length of the name at byte 6 and the name from byte 8 on.
pub open spec fn entry_named(data: Seq<u8>, at: int, name: Seq<u8>) -> bool {
    &&& le32(data, at) != 0
    &&& le16(data, at + 6) == name.len()
    &&& at + 8 + name.len() <= data.len()
    &&& forall|k: int| 0 <= k < name.len() ==> data[at + 8 + k] == #[trigger] name[k]
}

/// Whether `ps` are the positions of the entries of a directory block at `base`, and of the
/// end of the list behind them: each entry is followed by the next at the distance in its
/// bytes 4 and 5, up to the end of the block or of the image or to a distance of zero.
pub open spec fn entry_chain(data: Seq<u8>, base: int, bs: int, ps: Seq<int>) -> bool {
    &&& ps.len() > 0
    &&& ps[0] == 0
    &&& forall|k: int|
        0 <= k < ps.len() - 1 ==> {
            let at = base + #[trigger] ps[k];
            &&& ps[k] + 8 <= bs
            &&& at + 8 <= data.len()
            &&& le16(data, at + 4) > 0
            &&& ps[k + 1] == ps[k] + le16(data, at + 4)
        }
    &&& ps.last() + 8 > bs || base + ps.last() + 8 > data.len() || le16(
        data,
        base + ps.last() + 4,
    ) == 0
}

proof fn lemma_entry_named(data: Seq<u8>, at: int, name: Seq<u8>)
    requires
        0 <= at,
    ensures
        entry_named(data, at, name) <==> is_named(
            data,
            DirEntry { inode: le32(data, at), name_at: at + 8, name_len: le16(data, at + 6) },
            name,
        ),
{
    if at + 8 + name.len() <= data.len() {
        let s = data.subrange(at + 8, at + 8 + name.len());
        if s == name {
            assert forall|k: int| 0 <= k < name.len() implies data[at + 8 + k]
                == #[trigger] name[k] by {
                assert(s[k] == name[k]);
            }
        }
        if entry_named(data, at, name) {
            assert(s =~= name);
        }
    }
}

proof fn lemma_chain_grows(data: Seq<u8>, base: int, bs: int, ps: Seq<int>, k: int)
    requires
        entry_chain(data, base, bs, ps),
        0 <= k < ps.len(),
    ensures
        ps[k] >= 0,
    decreases k,
{
    if k > 0 {
        lemma_chain_grows(data, base, bs, ps, k - 1);
        assert(ps[k - 1] + 8 <= bs);
    }
}

/// What is found in a block from entry number `k` on.
proof fn lemma_find_in_block(
    data: Seq<u8>,
    base: int,
    bs: int,
    ps: Seq<int>,
    k: int,
    name: Seq<u8>,
)
    requires
        0 <= base,
        entry_chain(data, base, bs, ps),
        0 <= k < ps.len(),
    ensures
        (forall|j: int| k <= j < ps.len() - 1 ==> !entry_named(data, base + #[trigger] ps[j], name))
            ==> find(data, block_entries(data, base, bs, ps[k]), name) is None,
        forall|n: int|
            k <= n < ps.len() - 1 && entry_named(data, base + #[trigger] ps[n], name) && (forall|
                j: int,
            |
                k <= j < n ==> !entry_named(data, base + #[trigger] ps[j], name)) ==> find(
                data,
                block_entries(data, base, bs, ps[k]),
                name,
            ) == Some(le32(data, base + ps[n])),
    decreases ps.len() - k,
{
    if k < ps.len() - 1 {
        let at = base + ps[k];
        lemma_find_in_block(data, base, bs, ps, k + 1, name);
        lemma_chain_grows(data, base, bs, ps, k);
        lemma_entry_named(data, at, name);
        let e = DirEntry { inode: le32(data, at), name_at: at + 8, name_len: le16(data, at + 6) };
        lemma_find_skip(data, e, block_entries(data, base, bs, ps[k + 1]), name);
        assert(block_entries(data, base, bs, ps[k]) == seq![e] + block_entries(
            data,
            base,
            bs,
            ps[k + 1],
        ));
        assert forall|n: int|
            k <= n < ps.len() - 1 && entry_named(data, base + #[trigger] ps[n], name) && (forall|
                j: int,
            |
                k <= j < n ==> !entry_named(data, base + #[trigger] ps[j], name)) implies find(
            data,
            block_entries(data, base, bs, ps[k]),
            name,
        ) == Some(le32(data, base + ps[n])) by {
            if n > k {
                assert(!entry_named(data, base + ps[k], name));
                assert(forall|j: int|
                    k + 1 <= j < n ==> !entry_named(data, base + #[trigger] ps[j], name));
            }
        }
    } else {
        assert(ps[k] == ps.last());
    }
}

proof fn lemma_find_joined(data: Seq<u8>, a: Seq<DirEntry>, b: Seq<DirEntry>, name: Seq<u8>)
    ensures
        find(data, a + b, name) == (match find(data, a, name) {
            Some(x) => Some(x),
            None => find(data, b, name),
        }),
    decreases a.len(),
{
    if a.len() == 0 {
        assert(a + b =~= b);
    } else {
        assert((a + b)[0] == a[0]);
        assert((a + b).drop_first() =~= a.drop_first() + b);
        lemma_find_joined(data, a.drop_first(), b, name);
    }
}

/// Whether the blocks of the directory whose inode lies at `at` hold entries at these
/// positions: one list for each of its direct blocks, up to the first that there is none of.
pub open spec fn directory_laid_out(fs: Ext2Fs<'_>, at: int, lists: Seq<Seq<int>>) -> bool {
    let d = fs.data@;
    &&& lists.len() <= 12
    &&& lists.len() < 12 ==> le32(d, at + 40 + 4 * lists.len()) == 0
    &&& forall|i: int|
        0 <= i < lists.len() ==> {
            let b = le32(d, at + 40 + 4 * i);
            b != 0 && entry_chain(d, b * fs.block_size, fs.block_size as int, #[trigger] lists[i])
        }
}

/// Where entry number `k` of block number `i` of the directory lies.
pub open spec fn entry_place(fs: Ext2Fs<'_>, at: int, lists: Seq<Seq<int>>, i: int, k: int) -> int {
    le32(fs.data@, at + 40 + 4 * i) * fs.block_size + lists[i][k]
}

/// Whether there is such an entry.
pub open spec fn entry_there(lists: Seq<Seq<int>>, i: int, k: int) -> bool {
    0 <= i < lists.len() && 0 <= k < lists[i].len() - 1
}

proof fn lemma_find_in_dir(
    fs: Ext2Fs<'_>,
    at: int,
    lists: Seq<Seq<int>>,
    from: int,
    name: Seq<u8>,
)
    requires
        fs.wf(),
        directory_laid_out(fs, at, lists),
        0 <= from <= lists.len(),
    ensures
        (forall|i: int, k: int|
            from <= i && #[trigger] entry_there(lists, i, k) ==> !entry_named(
                fs.data@,
                entry_place(fs, at, lists, i, k),
                name,
            )) ==> find(fs.data@, dir_entries(fs, at, from), name) is None,
        forall|i: int, k: int|
            from <= i && #[trigger] entry_there(lists, i, k) && entry_named(
                fs.data@,
                entry_place(fs, at, lists, i, k),
                name,
            ) && (forall|i2: int, k2: int|
                from <= i2 && #[trigger] entry_there(lists, i2, k2) && (i2 < i || i2 == i && k2 < k)
                    ==> !entry_named(fs.data@, entry_place(fs, at, lists, i2, k2), name)) ==> find(
                fs.data@,
                dir_entries(fs, at, from),
                name,
            ) == Some(le32(fs.data@, entry_place(fs, at, lists, i, k))),
    decreases lists.len() - from,
{
    let d = fs.data@;
    if from < lists.len() {
        let ps = lists[from];
        let b = le32(d, at + 40 + 4 * from);
        let base = b * fs.block_size;
        let es = block_entries(d, base, fs.block_size as int, 0);
        assert(base >= 0) by (nonlinear_arith)
            requires
                base == b * fs.block_size,
                b >= 0,
                fs.block_size >= 0,
        ;
        lemma_find_in_dir(fs, at, lists, from + 1, name);
        lemma_find_in_block(d, base, fs.block_size as int, ps, 0, name);
        lemma_find_joined(d, es, dir_entries(fs, at, from + 1), name);
        assert(dir_entries(fs, at, from) == es + dir_entries(fs, at, from + 1));
        let none_here = forall|j: int|
            0 <= j < ps.len() - 1 ==> !entry_named(d, base + #[trigger] ps[j], name);
        if forall|i: int, k: int|
            from <= i && #[trigger] entry_there(lists, i, k) ==> !entry_named(
                d,
                entry_place(fs, at, lists, i, k),
                name,
            ) {
            assert forall|j: int| 0 <= j < ps.len() - 1 implies !entry_named(
                d,
                base + #[trigger] ps[j],
                name,
            ) by {
                assert(entry_there(lists, from, j));
            }
        }
        assert forall|i: int, k: int|
            from <= i && #[trigger] entry_there(lists, i, k) && entry_named(
                d,
                entry_place(fs, at, lists, i, k),
                name,
            ) && (forall|i2: int, k2: int|
                from <= i2 && #[trigger] entry_there(lists, i2, k2) && (i2 < i || i2 == i && k2 < k)
                    ==> !entry_named(d, entry_place(fs, at, lists, i2, k2), name)) implies find(
            d,
            dir_entries(fs, at, from),
            name,
        ) == Some(le32(d, entry_place(fs, at, lists, i, k))) by {
            if i == from {
                assert forall|j: int| 0 <= j < k implies !entry_named(
                    d,
                    base + #[trigger] ps[j],
                    name,
                ) by {
                    assert(entry_there(lists, from, j));
                }
                assert(entry_named(d, base + ps[k], name));
            } else {
                assert forall|j: int| 0 <= j < ps.len() - 1 implies !entry_named(
                    d,
                    base + #[trigger] ps[j],
                    name,
                ) by {
                    assert(entry_there(lists, from, j));
                }
                assert(find(d, es, name) is None);
            }
        }
    }
}

/// A path leads to the inode of the first entry of the root directory that has its name,
/// with or without a slash before it, and nowhere where no entry has. The root directory is
/// inode 2, and what the path without a name leads to.
pub proof fn law_name_found(fs: Ext2Fs<'_>, lists: Seq<Seq<int>>, name: Seq<u8>, i: int, k: int)
    requires
        fs.wf(),
        name.len() > 0,
        name[0] != 0x2F,
        fs.inode_table_block * fs.block_size + 2 * fs.inode_size <= fs.data@.len(),
        fs.inode_table_block * fs.block_size + fs.inode_size + 92 <= fs.data@.len(),
        directory_laid_out(
            fs,
            fs.inode_table_block * fs.block_size + fs.inode_size,
            lists,
        ),
    ensures
        ({
            let at = fs.inode_table_block * fs.block_size + fs.inode_size;
            let first = entry_there(lists, i, k) && entry_named(
                fs.data@,
                entry_place(fs, at, lists, i, k),
                name,
            ) && (forall|i2: int, k2: int|
                #[trigger] entry_there(lists, i2, k2) && (i2 < i || i2 == i && k2 < k)
                    ==> !entry_named(fs.data@, entry_place(fs, at, lists, i2, k2), name));
            let none = forall|i2: int, k2: int|
                #[trigger] entry_there(lists, i2, k2) ==> !entry_named(
                    fs.data@,
                    entry_place(fs, at, lists, i2, k2),
                    name,
                );
            &&& first ==> lookup_spec(fs, name) == Some(
                le32(fs.data@, entry_place(fs, at, lists, i, k)),
            )
            &&& none ==> lookup_spec(fs, name) is None
            &&& lookup_spec(fs, seq![0x2Fu8] + name) == lookup_spec(fs, name)
            &&& lookup_spec(fs, seq![0x2Fu8]) == Some(2int)
            &&& lookup_spec(fs, Seq::empty()) == Some(2int)
        }),
{
    let at = fs.inode_table_block * fs.block_size + fs.inode_size;
    assert(inode_at(fs, 2) == at);
    lemma_find_in_dir(fs, at, lists, 0, name);
    law_leading_slash(fs, name);
    assert(seq![0x2Fu8].skip(1) =~= Seq::<u8>::empty());
}

/// An image is one by the number 0xEF53 at byte 1080. Its blocks have 1024 bytes times two
/// to the number at byte 1048, its inodes 128 bytes, or from the first revision on, which
/// byte 1100 gives, the number at byte 1112.
pub proof fn law_image_shape(data: Seq<u8>)
    requires
        is_image(data),
    ensures
        data[1080] == 0x53 && data[1081] == 0xEF,
        le32(data, 1048) == 0 ==> super_block_size(data) == 1024,
        le32(data, 1048) == 1 ==> super_block_size(data) == 2048,
        le32(data, 1048) == 2 ==> super_block_size(data) == 4096,
        le32(data, 1100) == 0 ==> super_inode_size(data) == 128,
        le32(data, 1100) != 0 ==> super_inode_size(data) == data[1112] + 0x100 * data[1113],
{
    assert(1024u32 << 0u32 == 1024 && 1024u32 << 1u32 == 2048 && 1024u32 << 2u32 == 4096)
        by (bit_vector);
}

/// Whatever its block size, an image with the number 0xEF53 is accepted that reaches to the
/// end of its group descriptor in the block after the next.
pub proof fn law_image_accepted(data: Seq<u8>)
    requires
        data.len() >= 1114,
        data[1080] == 0x53 && data[1081] == 0xEF,
        le32(data, 1048) < 22,
        data.len() >= 2 * super_block_size(data) + 12,
    ensures
        is_image(data),
{
}

/// A read ends where the file has no block: a pointer that is zero, among the first twelve or in
/// the block of pointers, or no block of pointers at all.
pub proof fn law_read_ends_at_a_gap(fs: Ext2Fs<'_>, i: InodeView, pos: int, max: int)
    requires
        fs.block_size > 0,
        0 <= pos,
        0 < max,
        ({
            let k = pos / fs.block_size as int;
            ||| k < 12 && i.blocks[k] == 0
            ||| k >= 12 && i.indirect == 0
            ||| k >= 12 && le32(fs.data@, i.indirect * fs.block_size + 4 * (k - 12)) == 0
        }),
    ensures
        read_len(fs, i, pos, max) == 0,
        read_bytes(fs, i, pos, max).len() == 0,
{
}

} // verus!
