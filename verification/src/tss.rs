//! The task state segment: the stack that the processor loads when it enters the kernel.

use vstd::prelude::*;

use crate::bytes::{law_put_then_read, le16, le32, le64, write_u16_le, write_u64_le};

verus! {

/// Size of a task state segment.
pub const TSS_SIZE: u16 = 104;

/// What a task state segment holds.
#[derive(Debug, Clone, Copy)]
pub struct TaskStateSegment {
    /// Stack pointers for privilege levels 0 to 2.
    pub rsp: [u64; 3],
    /// Interrupt stacks 1 to 7.
    pub ist: [u64; 7],
    /// Where the map of I/O ports starts.
    pub iomap_base: u16,
}

/// The segment with the given kernel stack, no other stacks, and no map of I/O ports.
pub fn init(kernel_stack_top: u64) -> (t: TaskStateSegment)
    ensures
        t.rsp@ == seq![kernel_stack_top, 0u64, 0u64],
        forall|i: int| 0 <= i < 7 ==> #[trigger] t.ist@[i] == 0,
        t.iomap_base == TSS_SIZE,
{
    let t = TaskStateSegment {
        rsp: [kernel_stack_top, 0, 0],
        ist: [0u64;7],
        iomap_base: TSS_SIZE,
    };
    assert(t.rsp@ =~= seq![kernel_stack_top, 0u64, 0u64]);
    t
}

/// Set the kernel stack, before a shard is entered.
pub fn set_rsp0(t: &mut TaskStateSegment, rsp0: u64)
    ensures
        final(t).rsp@ == old(t).rsp@.update(0, rsp0),
        final(t).ist == old(t).ist,
        final(t).iomap_base == old(t).iomap_base,
{
    t.rsp[0] = rsp0;
}

/// Size of a task state segment in bytes.
pub fn tss_size() -> (n: u16)
    ensures
        n == TSS_SIZE,
{
    TSS_SIZE
}

/// The segment in memory.
pub open spec fn in_memory(t: TaskStateSegment, b: Seq<u8>) -> bool {
    &&& b.len() == TSS_SIZE
    &&& le32(b, 0) == 0
    &&& forall|i: int| 0 <= i < 3 ==> le64(b, 4 + 8 * i) == #[trigger] t.rsp@[i]
    &&& le64(b, 28) == 0
    &&& forall|i: int| 0 <= i < 7 ==> le64(b, 36 + 8 * i) == #[trigger] t.ist@[i]
    &&& le64(b, 92) == 0
    &&& le16(b, 100) == 0
    &&& le16(b, 102) == t.iomap_base
}

/// The segment in memory.
pub fn encode(t: &TaskStateSegment) -> (v: Vec<u8>)
    ensures
        in_memory(*t, v@),
{
    let mut v: Vec<u8> = vec![0u8;104];
    let mut i: usize = 0;
    while i < 3
        invariant
            i <= 3,
            v@.len() == 104,
            forall|k: int| 0 <= k < 4 ==> #[trigger] v@[k] == 0,
            forall|k: int| 4 + 8 * i <= k < 104 ==> #[trigger] v@[k] == 0,
            forall|k: int| 0 <= k < i ==> le64(v@, 4 + 8 * k) == #[trigger] t.rsp@[k],
        decreases 3 - i,
    {
        let ghost before = v@;
        write_u64_le(v.as_mut_slice(), 4 + 8 * i, t.rsp[i]);
        proof {
            law_put_then_read(before, 4 + 8 * i, 8, t.rsp@[i as int] as int);
            assert forall|k: int| 0 <= k < i implies le64(v@, 4 + 8 * k) == #[trigger] t.rsp@[k] by {
                assert(le64(v@, 4 + 8 * k) == le64(before, 4 + 8 * k));
            }
        }
        i += 1;
    }
    let mut i: usize = 0;
    while i < 7
        invariant
            i <= 7,
            v@.len() == 104,
            forall|k: int| 0 <= k < 4 ==> #[trigger] v@[k] == 0,
            forall|k: int| 28 <= k < 36 ==> #[trigger] v@[k] == 0,
            forall|k: int| 36 + 8 * i <= k < 104 ==> #[trigger] v@[k] == 0,
            forall|k: int| 0 <= k < 3 ==> le64(v@, 4 + 8 * k) == #[trigger] t.rsp@[k],
            forall|k: int| 0 <= k < i ==> le64(v@, 36 + 8 * k) == #[trigger] t.ist@[k],
        decreases 7 - i,
    {
        let ghost before = v@;
        write_u64_le(v.as_mut_slice(), 36 + 8 * i, t.ist[i]);
        proof {
            law_put_then_read(before, 36 + 8 * i, 8, t.ist@[i as int] as int);
            assert forall|k: int| 0 <= k < 3 implies le64(v@, 4 + 8 * k) == #[trigger] t.rsp@[k] by {
                assert(le64(v@, 4 + 8 * k) == le64(before, 4 + 8 * k));
            }
            assert forall|k: int| 0 <= k < i implies le64(v@, 36 + 8 * k) == #[trigger] t.ist@[k] by {
                assert(le64(v@, 36 + 8 * k) == le64(before, 36 + 8 * k));
            }
        }
        i += 1;
    }
    let ghost before = v@;
    write_u16_le(v.as_mut_slice(), 102, t.iomap_base);
    proof {
        law_put_then_read(before, 102, 2, t.iomap_base as int);
        assert forall|k: int| 0 <= k < 3 implies le64(v@, 4 + 8 * k) == #[trigger] t.rsp@[k] by {
            assert(le64(v@, 4 + 8 * k) == le64(before, 4 + 8 * k));
        }
        assert forall|k: int| 0 <= k < 7 implies le64(v@, 36 + 8 * k) == #[trigger] t.ist@[k] by {
            assert(le64(v@, 36 + 8 * k) == le64(before, 36 + 8 * k));
        }
    }
    v
}

/// The stack for the kernel lies in bytes 4 to 11 of the segment, and the map of I/O ports
/// starts at its end, byte 104, so there is none.
pub proof fn law_kernel_stack_place(t: TaskStateSegment, b: Seq<u8>)
    requires
        in_memory(t, b),
        t.iomap_base == TSS_SIZE,
    ensures
        b.len() == 104,
        le64(b, 4) == t.rsp@[0],
        le16(b, 102) == 104,
{
}

} // verus!
