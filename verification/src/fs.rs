//! Filesystem system calls: open, read, stat and close, on an ext2 image.

use vstd::prelude::*;

use crate::bytes::le32;
use crate::ext2::{count_files, file_count, has_inode, inode_at, inode_view, is_image, lookup};
use crate::ext2::{lookup_spec, read_bytes, read_data, read_inode, root_entries, super_block_size};
use crate::ext2::{file_laid_out, law_file_read_back, lemma_read_on, super_inode_size, whole_file};
use crate::ext2::Ext2Fs;
use crate::user::{fillable, readable, replaced, validate_user_read_buf, validate_user_write_buf};
use crate::user::{UserMemory, STACK_START};

verus! {

/// Number of files that can be open at a time, over all shards.
pub const MAX_OPEN_FILES: usize = 16;

/// Greatest length of a path.
pub const MAX_PATH_LEN: usize = 256;

/// An entry of the open file table.
#[derive(Debug, Clone, Copy, PartialEq, Eq, Structural)]
pub struct OpenFile {
    pub active: bool,
    /// The shard that has opened the file.
    pub shard_id: usize,
    pub inode_nr: u32,
    pub size: u32,
    /// Where the next read starts.
    pub offset: u32,
}

impl OpenFile {
    pub open spec fn spec_closed() -> OpenFile {
        OpenFile { active: false, shard_id: 0, inode_nr: 0, size: 0, offset: 0 }
    }

    fn unused() -> (f: OpenFile)
        ensures
            f == OpenFile::spec_closed(),
    {
        OpenFile { active: false, shard_id: 0, inode_nr: 0, size: 0, offset: 0 }
    }
}

/// The open file table.
pub struct OpenFiles {
    files: [OpenFile; MAX_OPEN_FILES],
}

impl View for OpenFiles {
    type V = Seq<OpenFile>;

    closed spec fn view(&self) -> Seq<OpenFile> {
        self.files@
    }
}

impl OpenFiles {
    /// A table with no open file.
    pub fn new() -> (t: OpenFiles)
        ensures
            t@.len() == MAX_OPEN_FILES,
            forall|i: int| 0 <= i < MAX_OPEN_FILES ==> #[trigger] t@[i] == OpenFile::spec_closed(),
    {
        OpenFiles { files: [OpenFile::unused();MAX_OPEN_FILES] }
    }

    /// The table has an entry for each descriptor.
    pub proof fn lemma_shape(&self)
        ensures
            self@.len() == MAX_OPEN_FILES,
    {
    }
}

/// What is reported of the filesystem at boot.
#[derive(Debug, Clone, Copy, PartialEq, Eq, Structural)]
pub struct FsReport {
    pub size_kib: u64,
    pub files: u64,
}

/// Initialize the filesystem from its image. There is no result where the image is none.
pub fn init(image: &[u8]) -> (r: Option<(Ext2Fs<'_>, FsReport)>)
    ensures
        r is Some <==> is_image(image@),
        r matches Some((fs, report)) ==> {
            &&& fs.wf()
            &&& fs.data@ == image@
            &&& fs.block_size == super_block_size(image@)
            &&& fs.inodes_per_group == le32(image@, 1064)
            &&& fs.inode_size == super_inode_size(image@)
            &&& fs.inode_table_block == le32(image@, 2 * fs.block_size + 8)
            &&& report.size_kib == image@.len() / 1024
            &&& report.files == count_files(image@, root_entries(fs))
        },
{
    match crate::ext2::init(image) {
        None => None,
        Some(fs) => {
            let files: u64 = file_count(&fs);
            let size_kib: u64 = (image.len() / 1024) as u64;
            Some((fs, FsReport { size_kib, files }))
        },
    }
}

/// The first unused entry from number `i` on.
pub open spec fn first_unused(f: Seq<OpenFile>, i: int) -> int
    decreases f.len() - i,
{
    if i >= f.len() || !f[i].active {
        i
    } else {
        first_unused(f, i + 1)
    }
}

/// Whether the shard has the file descriptor open.
pub open spec fn owned(f: Seq<OpenFile>, fd: u64, caller: usize) -> bool {
    fd < MAX_OPEN_FILES && f[fd as int].active && f[fd as int].shard_id == caller
}

/// The inode that an open of the path finds.
pub open spec fn opened(fs: Ext2Fs<'_>, path: Seq<u8>) -> Option<int> {
    match lookup_spec(fs, path) {
        Some(ino) => if has_inode(fs, ino) {
            Some(ino)
        } else {
            None
        },
        None => None,
    }
}

/// Open a file by path. Returns the file descriptor, or `u64::MAX` on error.
pub fn handle_fs_open(
    files: &mut OpenFiles,
    fs: &Ext2Fs<'_>,
    user: &UserMemory,
    caller: usize,
    path_ptr: u64,
    path_len: u64,
) -> (r: u64)
    requires
        fs.wf(),
        user.wf(),
    ensures
        ({
            let f = old(files)@;
            let fd = first_unused(f, 0);
            let found = opened(*fs, user.bytes(path_ptr, path_len));
            if 0 < path_len <= MAX_PATH_LEN && readable(path_ptr, path_len) && found is Some && fd
                < MAX_OPEN_FILES {
                &&& r == fd
                &&& final(files)@ == f.update(
                    fd,
                    (OpenFile {
                        active: true,
                        shard_id: caller,
                        inode_nr: found->0 as u32,
                        size: le32(fs.data@, inode_at(*fs, found->0) + 4) as u32,
                        offset: 0,
                    }),
                )
            } else {
                r == u64::MAX && final(files)@ == f
            }
        }),
{
    if path_len == 0 || path_len > MAX_PATH_LEN as u64 {
        return u64::MAX;
    }
    if !validate_user_read_buf(path_ptr, path_len) {
        return u64::MAX;
    }
    let path = user.read(path_ptr, path_len);
    let inode_nr: u32 = match lookup(fs, path.as_slice()) {
        Some(nr) => nr,
        None => {
            return u64::MAX;
        },
    };
    let inode = match read_inode(fs, inode_nr) {
        Some(i) => i,
        None => {
            return u64::MAX;
        },
    };
    let ghost f = files@;
    let mut fd: usize = 0;
    while fd < MAX_OPEN_FILES
        invariant
            fd <= MAX_OPEN_FILES,
            files@ == f,
            f == old(files)@,
            f.len() == MAX_OPEN_FILES,
            first_unused(f, fd as int) == first_unused(f, 0),
            0 < path_len <= MAX_PATH_LEN,
            readable(path_ptr, path_len),
            opened(*fs, user.bytes(path_ptr, path_len)) == Some(inode_nr as int),
            inode.size == le32(fs.data@, inode_at(*fs, inode_nr as int) + 4),
        decreases MAX_OPEN_FILES - fd,
    {
        if !files.files[fd].active {
            files.files[fd] =
            OpenFile { active: true, shard_id: caller, inode_nr, size: inode.size, offset: 0 };
            assert(files@ =~= f.update(fd as int, files@[fd as int]));
            return fd as u64;
        }
        fd += 1;
    }
    u64::MAX
}

/// A request to read from an open file.
#[derive(Debug, Clone, Copy, PartialEq, Eq, Structural)]
pub struct ReadRequest {
    pub caller: usize,
    pub fd: u64,
    pub buf_ptr: u64,
    pub max_len: u64,
}

/// Whether the request is granted: the descriptor is open and the caller's, and the buffer
/// is one that may be filled.
pub open spec fn read_ok(fs: Ext2Fs<'_>, f: Seq<OpenFile>, q: ReadRequest) -> bool {
    owned(f, q.fd, q.caller) && fillable(q.buf_ptr, q.max_len) && has_inode(
        fs,
        f[q.fd as int].inode_nr as int,
    )
}

/// The bytes that the request gives: those from where the last read ended.
pub open spec fn read_result(fs: Ext2Fs<'_>, f: Seq<OpenFile>, q: ReadRequest) -> Seq<u8> {
    let file = f[q.fd as int];
    if read_ok(fs, f, q) {
        let i = inode_view(fs.data@, inode_at(fs, file.inode_nr as int));
        read_bytes(fs, i, file.offset as int, q.max_len as int)
    } else {
        Seq::empty()
    }
}

/// The open files after the request.
pub open spec fn after_read(fs: Ext2Fs<'_>, f: Seq<OpenFile>, q: ReadRequest) -> Seq<OpenFile> {
    let file = f[q.fd as int];
    if read_ok(fs, f, q) {
        f.update(
            q.fd as int,
            OpenFile { offset: (file.offset + read_result(fs, f, q).len()) as u32, ..file },
        )
    } else {
        f
    }
}

/// Read from an open file into a user buffer, from where the last read ended. Returns the
/// number of bytes read, or `u64::MAX` on error.
pub fn handle_fs_read(
    files: &mut OpenFiles,
    fs: &Ext2Fs<'_>,
    user: &mut UserMemory,
    caller: usize,
    fd: u64,
    buf_ptr: u64,
    max_len: u64,
) -> (r: u64)
    requires
        fs.wf(),
        old(user).wf(),
    ensures
        final(user).wf(),
        final(user).code@ == old(user).code@,
        ({
            let f = old(files)@;
            let q = ReadRequest { caller, fd, buf_ptr, max_len };
            let data = read_result(*fs, f, q);
            &&& r == (if read_ok(*fs, f, q) {
                data.len() as int
            } else {
                u64::MAX as int
            })
            &&& final(files)@ == after_read(*fs, f, q)
            &&& final(user).stack@ == (if read_ok(*fs, f, q) {
                replaced(old(user).stack@, buf_ptr - STACK_START, data)
            } else {
                old(user).stack@
            })
            &&& read_ok(*fs, f, q) ==> f[fd as int].offset + data.len() <= u32::MAX
        }),
{
    if fd >= MAX_OPEN_FILES as u64 {
        return u64::MAX;
    }
    let fd: usize = fd as usize;
    let file = files.files[fd];
    if !file.active || file.shard_id != caller {
        return u64::MAX;
    }
    if !validate_user_write_buf(buf_ptr, max_len) {
        return u64::MAX;
    }
    let inode = match read_inode(fs, file.inode_nr) {
        Some(i) => i,
        None => {
            return u64::MAX;
        },
    };
    let mut buf: Vec<u8> = Vec::new();
    let mut k: u64 = 0;
    while k < max_len
        invariant
            k <= max_len <= 4096,
            buf@.len() == k,
        decreases max_len - k,
    {
        buf.push(0);
        k += 1;
    }
    let n: usize = read_data(fs, &inode, file.offset, buf.as_mut_slice());
    user.write(buf_ptr, buf.as_slice(), n);
    let offset: u32 = file.offset + n as u32;
    files.files[fd].offset = offset;
    proof {
        let data = read_bytes(*fs, inode@, file.offset as int, max_len as int);
        assert(buf@.take(n as int) =~= data);
        assert(files@ =~= old(files)@.update(fd as int, (OpenFile { offset, ..file })));
    }
    n as u64
}

/// The size of an open file, or `u64::MAX` on error.
pub fn handle_fs_stat(files: &OpenFiles, caller: usize, fd: u64) -> (r: u64)
    ensures
        r == (if owned(files@, fd, caller) {
            files@[fd as int].size as u64
        } else {
            u64::MAX
        }),
{
    if fd >= MAX_OPEN_FILES as u64 {
        return u64::MAX;
    }
    let file = files.files[fd as usize];
    if !file.active || file.shard_id != caller {
        return u64::MAX;
    }
    file.size as u64
}

/// Close an open file. Returns 0, or `u64::MAX` on error.
pub fn handle_fs_close(files: &mut OpenFiles, caller: usize, fd: u64) -> (r: u64)
    ensures
        if owned(old(files)@, fd, caller) {
            r == 0 && final(files)@ == old(files)@.update(fd as int, OpenFile::spec_closed())
        } else {
            r == u64::MAX && final(files)@ == old(files)@
        },
{
    if fd >= MAX_OPEN_FILES as u64 {
        return u64::MAX;
    }
    let i: usize = fd as usize;
    let file = files.files[i];
    if !file.active || file.shard_id != caller {
        return u64::MAX;
    }
    files.files[i] = OpenFile::unused();
    assert(files@ =~= old(files)@.update(fd as int, OpenFile::spec_closed()));
    0
}

// ---------------------------------------------------------------------------
// Laws
// ---------------------------------------------------------------------------

/// A descriptor belongs to one shard: no other has it open.
pub proof fn law_one_owner(f: Seq<OpenFile>, fd: u64, a: usize, b: usize)
    requires
        owned(f, fd, a),
        a != b,
    ensures
        !owned(f, fd, b),
{
}

/// Opening takes an entry that no shard uses, so every descriptor that was open stays as
/// it was.
pub proof fn law_open_keeps_others(f: Seq<OpenFile>, file: OpenFile, other: int)
    requires
        f.len() == MAX_OPEN_FILES,
        first_unused(f, 0) < MAX_OPEN_FILES,
        0 <= other < MAX_OPEN_FILES,
        f[other].active,
    ensures
        f.update(first_unused(f, 0), file)[other] == f[other],
{
    lemma_first_unused(f, 0);
}

proof fn lemma_first_unused(f: Seq<OpenFile>, i: int)
    requires
        0 <= i <= f.len(),
    ensures
        i <= first_unused(f, i) <= f.len(),
        first_unused(f, i) < f.len() ==> !f[first_unused(f, i)].active,
    decreases f.len() - i,
{
    if i < f.len() && f[i].active {
        lemma_first_unused(f, i + 1);
    }
}

/// A closed descriptor can be used by nobody.
pub proof fn law_closed_is_gone(f: Seq<OpenFile>, fd: u64, caller: usize)
    requires
        f.len() == MAX_OPEN_FILES,
        fd < MAX_OPEN_FILES,
    ensures
        !owned(f.update(fd as int, OpenFile::spec_closed()), fd, caller),
{
}

/// The open files after some requests, in their order.
pub open spec fn after_reads(
    fs: Ext2Fs<'_>,
    f: Seq<OpenFile>,
    qs: Seq<ReadRequest>,
) -> Seq<OpenFile>
    decreases qs.len(),
{
    if qs.len() == 0 {
        f
    } else {
        after_read(fs, after_reads(fs, f, qs.drop_last()), qs.last())
    }
}

/// The bytes that the requests on one descriptor give, joined in their order.
pub open spec fn joined_reads(
    fs: Ext2Fs<'_>,
    f: Seq<OpenFile>,
    fd: u64,
    qs: Seq<ReadRequest>,
) -> Seq<u8>
    decreases qs.len(),
{
    if qs.len() == 0 {
        Seq::empty()
    } else {
        joined_reads(fs, f, fd, qs.drop_last()) + (if qs.last().fd == fd {
            read_result(fs, after_reads(fs, f, qs.drop_last()), qs.last())
        } else {
            Seq::empty()
        })
    }
}

/// However a file is read after it was opened, what the reads give is a prefix of it, joined
/// in their order. Each gives at most what was asked for, and nothing once all is read. A
/// refused request, or one on another descriptor, does not move the position.
pub proof fn law_reads_are_a_prefix(
    fs: Ext2Fs<'_>,
    f: Seq<OpenFile>,
    fd: u64,
    qs: Seq<ReadRequest>,
    next: ReadRequest,
)
    requires
        f.len() == MAX_OPEN_FILES,
        fd < MAX_OPEN_FILES,
        f[fd as int].offset == 0,
        next.fd == fd,
    ensures
        ({
            let ino = f[fd as int].inode_nr as int;
            let all = whole_file(fs, inode_view(fs.data@, inode_at(fs, ino)));
            let f2 = after_reads(fs, f, qs);
            let data = joined_reads(fs, f, fd, qs);
            let more = read_result(fs, f2, next);
            &&& data.len() <= all.len() <= u32::MAX
            &&& data == all.take(data.len() as int)
            &&& f2.len() == f.len()
            &&& f2[fd as int] == (OpenFile { offset: data.len() as u32, ..f[fd as int] })
            &&& more.len() <= next.max_len
            &&& data.len() == all.len() ==> more.len() == 0
            &&& !read_ok(fs, f2, next) ==> more.len() == 0 && after_read(fs, f2, next) == f2
        }),
    decreases qs.len(),
{
    let file = f[fd as int];
    let i = inode_view(fs.data@, inode_at(fs, file.inode_nr as int));
    let all = whole_file(fs, i);
    lemma_read_on(fs, i, 0, 0);
    if qs.len() == 0 {
        assert(Seq::<u8>::empty() =~= all.take(0));
    } else {
        let before = qs.drop_last();
        let q = qs.last();
        let q2 = ReadRequest { fd, ..q };
        law_reads_are_a_prefix(fs, f, fd, before, q2);
        let done = joined_reads(fs, f, fd, before);
        lemma_read_on(fs, i, done.len() as int, q.max_len as int);
        if q.fd == fd {
            assert(q2 == q);
            assert(joined_reads(fs, f, fd, qs) =~= done + read_result(
                fs,
                after_reads(fs, f, before),
                q,
            ));
        } else {
            assert(joined_reads(fs, f, fd, qs) =~= done);
        }
    }
    let data = joined_reads(fs, f, fd, qs);
    assert(data =~= all.take(data.len() as int));
    lemma_read_on(fs, i, data.len() as int, next.max_len as int);
}

/// A read is never refused to the shard that has the file open, for a buffer of up to 4096
/// bytes in its stack page, wherever in the file it stands.
pub proof fn law_read_not_refused(fs: Ext2Fs<'_>, f: Seq<OpenFile>, q: ReadRequest, content: Seq<u8>)
    requires
        fs.wf(),
        q.fd < 16,
        f[q.fd as int].active,
        f[q.fd as int].shard_id == q.caller,
        file_laid_out(fs, f[q.fd as int].inode_nr as int, content),
        0 < q.max_len <= 4096,
        0x7F_F000 <= q.buf_ptr,
        q.buf_ptr + q.max_len <= 0x80_0000,
    ensures
        read_ok(fs, f, q),
{
    law_file_read_back(fs, f[q.fd as int].inode_nr as int, content, 0, 0);
}

/// A read is refused to every other shard, on every other descriptor, and for a buffer that
/// is empty, too long or not in the stack page. It then changes nothing.
pub proof fn law_read_refused(fs: Ext2Fs<'_>, f: Seq<OpenFile>, q: ReadRequest)
    requires
        q.fd >= 16 || !f[q.fd as int].active || f[q.fd as int].shard_id != q.caller || q.max_len
            == 0 || q.max_len > 4096 || q.buf_ptr < 0x7F_F000 || q.buf_ptr + q.max_len > 0x80_0000,
    ensures
        !read_ok(fs, f, q),
        after_read(fs, f, q) == f,
        read_result(fs, f, q).len() == 0,
{
}

/// Reads go on to the end of the file: each gives the bytes from where the one before ended,
/// as many as are asked for or as many as are left. So reads of any sizes above zero join to
/// the whole file after at most as many of them as the file has bytes.
pub proof fn law_reads_reach_the_end(
    fs: Ext2Fs<'_>,
    f: Seq<OpenFile>,
    fd: u64,
    caller: usize,
    content: Seq<u8>,
    qs: Seq<ReadRequest>,
    next: ReadRequest,
)
    requires
        fs.wf(),
        f.len() == 16,
        fd < 16,
        f[fd as int].active,
        f[fd as int].shard_id == caller,
        f[fd as int].offset == 0,
        file_laid_out(fs, f[fd as int].inode_nr as int, content),
        forall|k: int| 0 <= k < qs.len() ==> fair_request(#[trigger] qs[k], fd, caller),
        fair_request(next, fd, caller),
    ensures
        ({
            let f2 = after_reads(fs, f, qs);
            let data = joined_reads(fs, f, fd, qs);
            let more = read_result(fs, f2, next);
            let left = content.len() - data.len();
            &&& data == content.take(data.len() as int)
            &&& data.len() <= content.len()
            &&& qs.len() >= content.len() ==> data == content
            &&& qs.len() <= content.len() ==> data.len() >= qs.len()
            &&& read_ok(fs, f2, next)
            &&& more.len() == (if next.max_len <= left {
                next.max_len as int
            } else {
                left
            })
            &&& left > 0 ==> more.len() > 0
            &&& more == content.subrange(data.len() as int, data.len() + more.len() as int)
            &&& f2[fd as int].offset == data.len()
        }),
    decreases qs.len(),
{
    let ino = f[fd as int].inode_nr as int;
    let i = inode_view(fs.data@, inode_at(fs, ino));
    let f2 = after_reads(fs, f, qs);
    let data = joined_reads(fs, f, fd, qs);
    law_file_read_back(fs, ino, content, 0, 0);
    law_reads_are_a_prefix(fs, f, fd, qs, next);
    law_file_read_back(fs, ino, content, data.len() as int, next.max_len as int);
    law_read_not_refused(fs, f2, next, content);
    if qs.len() > 0 {
        let before = qs.drop_last();
        let q = qs.last();
        assert(fair_request(qs[qs.len() - 1], fd, caller));
        assert forall|k: int| 0 <= k < before.len() implies fair_request(
            #[trigger] before[k],
            fd,
            caller,
        ) by {
            assert(fair_request(qs[k], fd, caller));
        }
        law_reads_reach_the_end(fs, f, fd, caller, content, before, q);
        assert(data.len() == joined_reads(fs, f, fd, before).len() + read_result(
            fs,
            after_reads(fs, f, before),
            q,
        ).len());
    }
    if data.len() == content.len() {
        assert(content.take(data.len() as int) =~= content);
    }
}

/// Whether the request is one of the shard's, on the descriptor, for a buffer of up to 4096
/// bytes in the stack page.
pub open spec fn fair_request(q: ReadRequest, fd: u64, caller: usize) -> bool {
    &&& q.fd == fd
    &&& q.caller == caller
    &&& 0 < q.max_len <= 4096
    &&& 0x7F_F000 <= q.buf_ptr
    &&& q.buf_ptr + q.max_len <= 0x80_0000
}

/// An opened file gets the lowest number that is not in use; there is one unless all 16 are.
pub proof fn law_lowest_descriptor(f: Seq<OpenFile>, fd: int)
    requires
        f.len() == 16,
        0 <= fd < 16,
        !f[fd].active,
        forall|j: int| 0 <= j < fd ==> (#[trigger] f[j]).active,
    ensures
        first_unused(f, 0) == fd,
{
    lemma_unused_at(f, 0, fd);
}

proof fn lemma_unused_at(f: Seq<OpenFile>, i: int, fd: int)
    requires
        0 <= i <= fd < f.len(),
        !f[fd].active,
        forall|j: int| i <= j < fd ==> (#[trigger] f[j]).active,
    ensures
        first_unused(f, i) == fd,
    decreases fd - i,
{
    if i < fd {
        assert(f[i].active);
        lemma_unused_at(f, i + 1, fd);
    }
}

} // verus!
