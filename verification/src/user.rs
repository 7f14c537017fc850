//! User memory as system calls see it: which buffers a shard may pass, and copying between
//! them and the supervisor.

use vstd::prelude::*;

verus! {

/// Start and end of the page that holds a shard's code and constants.
pub const CODE_START: u64 = 0x1000;

pub const CODE_END: u64 = 0x2000;

/// Start and end of a shard's stack page.
pub const STACK_START: u64 = 0x7F_F000;

pub const STACK_END: u64 = 0x80_0000;

/// Greatest length of a buffer.
pub const MAX_BUF: u64 = 4096;

/// The pages of a shard that its buffers can lie in.
pub struct UserMemory {
    pub code: Vec<u8>,
    pub stack: Vec<u8>,
}

/// Whether `len` bytes from `ptr` on lie in the code page.
pub open spec fn in_code(ptr: u64, len: u64) -> bool {
    CODE_START <= ptr && ptr + len <= CODE_END
}

/// Whether `len` bytes from `ptr` on lie in the stack page.
pub open spec fn in_stack(ptr: u64, len: u64) -> bool {
    STACK_START <= ptr && ptr + len <= STACK_END
}

/// Whether a shard may have the buffer read.
pub open spec fn readable(ptr: u64, len: u64) -> bool {
    0 < len <= MAX_BUF && (in_code(ptr, len) || in_stack(ptr, len))
}

/// Whether a shard may have the buffer written.
pub open spec fn fillable(ptr: u64, len: u64) -> bool {
    0 < len <= MAX_BUF && in_stack(ptr, len)
}

/// Validate that a user buffer lies in the code page or in the stack page.
pub fn validate_user_read_buf(ptr: u64, len: u64) -> (r: bool)
    ensures
        r == readable(ptr, len),
{
    if len == 0 || len > MAX_BUF {
        return false;
    }
    if ptr > u64::MAX - len {
        return false;
    }
    let end: u64 = ptr + len;
    if ptr >= CODE_START && end <= CODE_END {
        return true;
    }
    ptr >= STACK_START && end <= STACK_END
}

/// Validate that a user buffer for writing lies in the stack page.
pub fn validate_user_write_buf(ptr: u64, len: u64) -> (r: bool)
    ensures
        r == fillable(ptr, len),
{
    if len == 0 || len > MAX_BUF {
        return false;
    }
    if ptr > u64::MAX - len {
        return false;
    }
    let end: u64 = ptr + len;
    ptr >= STACK_START && end <= STACK_END
}

impl UserMemory {
    pub open spec fn wf(&self) -> bool {
        self.code@.len() == 4096 && self.stack@.len() == 4096
    }

    /// The bytes of the buffer.
    pub open spec fn bytes(&self, ptr: u64, len: u64) -> Seq<u8> {
        if in_code(ptr, len) {
            self.code@.subrange(ptr - CODE_START, ptr - CODE_START + len)
        } else {
            self.stack@.subrange(ptr - STACK_START, ptr - STACK_START + len)
        }
    }

    /// Copy a buffer in from user memory.
    pub fn read(&self, ptr: u64, len: u64) -> (v: Vec<u8>)
        requires
            self.wf(),
            in_code(ptr, len) || in_stack(ptr, len),
        ensures
            v@ == self.bytes(ptr, len),
    {
        let n: usize = len as usize;
        let mut v: Vec<u8> = Vec::new();
        let mut k: usize = 0;
        if ptr >= CODE_START && ptr + len <= CODE_END {
            let at: usize = (ptr - CODE_START) as usize;
            while k < n
                invariant
                    k <= n,
                    at + n <= 4096,
                    self.wf(),
                    v@ == self.code@.subrange(at as int, at + k),
                decreases n - k,
            {
                v.push(self.code[at + k]);
                k += 1;
                assert(v@ =~= self.code@.subrange(at as int, at + k));
            }
        } else {
            let at: usize = (ptr - STACK_START) as usize;
            while k < n
                invariant
                    k <= n,
                    at + n <= 4096,
                    self.wf(),
                    v@ == self.stack@.subrange(at as int, at + k),
                decreases n - k,
            {
                v.push(self.stack[at + k]);
                k += 1;
                assert(v@ =~= self.stack@.subrange(at as int, at + k));
            }
        }
        v
    }

    /// Copy the first `n` bytes of `data` out to user memory.
    pub fn write(&mut self, ptr: u64, data: &[u8], n: usize)
        requires
            old(self).wf(),
            n <= data@.len(),
            n <= MAX_BUF,
            in_stack(ptr, n as u64),
        ensures
            final(self).wf(),
            final(self).code@ == old(self).code@,
            final(self).stack@ == replaced(
                old(self).stack@,
                ptr - STACK_START,
                data@.take(n as int),
            ),
    {
        let at: usize = (ptr - STACK_START) as usize;
        let mut k: usize = 0;
        while k < n
            invariant
                k <= n <= data@.len(),
                at + n <= 4096,
                self.wf(),
                self.code@ == old(self).code@,
                forall|j: int|
                    0 <= j < 4096 ==> #[trigger] self.stack@[j] == (if at <= j < at + k {
                        data@[j - at]
                    } else {
                        old(self).stack@[j]
                    }),
            decreases n - k,
        {
            self.stack[at + k] = data[k];
            k += 1;
        }
        assert(self.stack@ =~= replaced(old(self).stack@, at as int, data@.take(n as int)));
    }
}

/// The bytes `s` with those from `at` on replaced by `data`.
pub open spec fn replaced(s: Seq<u8>, at: int, data: Seq<u8>) -> Seq<u8> {
    Seq::new(
        s.len(),
        |j: int|
            if at <= j < at + data.len() {
                data[j - at]
            } else {
                s[j]
            },
    )
}

/// A buffer that a shard may have written lies in no code page: code cannot be changed
/// through a system call.
pub proof fn law_code_is_not_fillable(ptr: u64, len: u64, a: u64)
    requires
        fillable(ptr, len),
        ptr <= a < ptr + len,
    ensures
        !(CODE_START <= a < CODE_END),
        STACK_START <= a < STACK_END,
{
}

} // verus!
