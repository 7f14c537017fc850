//! What each system call does, by its number and its arguments.

use vstd::prelude::*;

use crate::capability::{first_empty, holds, permits};
use crate::ext2::{file_laid_out, law_file_read_back, lookup_spec, Ext2Fs};
use crate::bytes::le32;
use crate::fs::{law_lowest_descriptor, OpenFile};
use crate::gpu::{law_copy_by_bytes, law_no_partition_no_copy, law_unveil_by_bytes, open_byte};
use crate::gpu::partitions_within;
use crate::layout::{lemma_apart, lemma_low_address};
use crate::mem::byte_at;
use crate::mmap::{data_mapped, law_data_pages_zero, law_data_where};
use crate::serial::with_returns;
use crate::shard::{CapEntry, ShardDescriptor, ShardState};
use crate::syscall::{allowed, effect, law_pledge_by_bits, Outcome, Supervisor};
use crate::user::UserMemory;
use crate::vmm::{in_half, leaf, Leaf};
use crate::window::{lemma_window_missing_bound, window_missing};

verus! {

/// Whether the call ended with the value.
pub open spec fn ends_with(r: &Outcome, v: int) -> bool {
    r matches Outcome::Value(x) && *x == v
}

/// Whether the supervisor is as before but for the shards.
pub open spec fn only_shards(s: &Supervisor, s2: &Supervisor) -> bool {
    &&& s2.channels@ == s.channels@
    &&& s2.files@ == s.files@
    &&& s2.gpu@ == s.gpu@
    &&& s2.frames@ == s.frames@
    &&& s2.mem@ == s.mem@
}

/// Whether the memory of the shard and video memory are as before.
pub open spec fn memory_kept(
    user: &UserMemory,
    user2: &UserMemory,
    vram: Seq<u8>,
    vram2: Seq<u8>,
) -> bool {
    &&& user2.code@ == user.code@
    &&& user2.stack@ == user.stack@
    &&& vram2 == vram
}

/// Whether all is as before.
pub open spec fn untouched(
    s: &Supervisor,
    s2: &Supervisor,
    user: &UserMemory,
    user2: &UserMemory,
    vram: Seq<u8>,
    vram2: Seq<u8>,
) -> bool {
    &&& s2.table@ == s.table@
    &&& s2.table.current == s.table.current
    &&& only_shards(s, s2)
    &&& memory_kept(user, user2, vram, vram2)
}

/// The shard that makes the call.
pub open spec fn me(s: &Supervisor) -> ShardDescriptor {
    s.table@[s.table.current->0 as int]
}

/// The byte of the shard at address `p` of its code page or its stack page.
pub open spec fn user_byte(user: &UserMemory, p: int) -> u8 {
    if 0x1000 <= p < 0x2000 {
        user.code@[p - 0x1000]
    } else {
        user.stack@[p - 0x7F_F000]
    }
}

/// Whether the bytes are those of the shard from `ptr` on.
pub open spec fn are_bytes(user: &UserMemory, ptr: u64, b: Seq<u8>) -> bool {
    forall|k: int| 0 <= k < b.len() ==> #[trigger] b[k] == user_byte(user, ptr + k)
}

/// Whether the bytes were put into the stack page from `ptr` on, and nothing else there or
/// in the code page has changed.
pub open spec fn bytes_put(user: &UserMemory, user2: &UserMemory, ptr: u64, b: Seq<u8>) -> bool {
    &&& user2.code@ == user.code@
    &&& user2.stack@.len() == user.stack@.len()
    &&& forall|p: int|
        0x7F_F000 <= p < 0x80_0000 ==> #[trigger] user_byte(user2, p) == (if ptr <= p < ptr
            + b.len() {
            b[p - ptr]
        } else {
            user_byte(user, p)
        })
}

/// Whether `n` bytes from `ptr` on lie in the code page.
pub open spec fn within_code(ptr: u64, n: u64) -> bool {
    0x1000 <= ptr && ptr + n <= 0x2000
}

/// Whether `n` bytes from `ptr` on lie in the stack page.
pub open spec fn within_stack(ptr: u64, n: u64) -> bool {
    0x7F_F000 <= ptr && ptr + n <= 0x80_0000
}

/// Whether the shard holds a capability of the type on the resource with the right.
pub open spec fn has_right(d: ShardDescriptor, cap_type: u8, resource: u32, right: u16) -> bool {
    exists|c: int|
        0 <= c < 16 && (#[trigger] d.caps@[c]).valid && d.caps@[c].cap_type == cap_type
            && d.caps@[c].resource_id == resource && d.caps@[c].rights & right == right
}

proof fn lemma_has_right(d: ShardDescriptor, cap_type: u8, resource: u32, right: u16)
    ensures
        has_right(d, cap_type, resource, right) == holds(d, cap_type, resource, right),
{
    if has_right(d, cap_type, resource, right) {
        let c = choose|c: int|
            0 <= c < 16 && (#[trigger] d.caps@[c]).valid && d.caps@[c].cap_type == cap_type
                && d.caps@[c].resource_id == resource && d.caps@[c].rights & right == right;
        assert(permits(d.caps@[c], cap_type, resource, right));
    }
    if holds(d, cap_type, resource, right) {
        let c = choose|c: int|
            0 <= c < 16 && permits(#[trigger] d.caps@[c], cap_type, resource, right);
        assert(d.caps@[c].valid);
    }
}

/// A call outside of what the shard has pledged is refused and changes nothing: printing
/// without bit 0, messages without bit 1, copies without bit 2, and, after any pledge, the
/// calls on capabilities, files and memory.
pub proof fn law_pledge_is_kept(
    s: &Supervisor,
    s2: &Supervisor,
    user: &UserMemory,
    user2: &UserMemory,
    vram: Seq<u8>,
    vram2: Seq<u8>,
    fs: Option<&Ext2Fs<'_>>,
    r: &Outcome,
    nr: u64,
    a0: u64,
    a1: u64,
    a2: u64,
)
    requires
        s.wf(),
        s.table.current is Some,
        user.wf(),
        effect(s, s2, user, user2, vram, vram2, fs, r, nr, a0, a1, a2),
        nr == 1 && me(s).gpu_pledge & 1 == 0 || (nr == 21 || nr == 22) && me(s).gpu_pledge & 2 == 0 || nr
            == 40 && me(s).gpu_pledge & 4 == 0 || (11 <= nr <= 14 || 30 <= nr <= 33 || nr == 43)
            && me(s).gpu_pledge != 0xFFFF_FFFF_FFFF_FFFF,
    ensures
        ends_with(r, 0xFFFF_FFFF_FFFF_FFFF),
        untouched(s, s2, user, user2, vram, vram2),
{
    law_pledge_by_bits(me(s).gpu_pledge, nr);
}

/// A number that stands for no call is refused and changes nothing.
pub proof fn law_no_such_call(
    s: &Supervisor,
    s2: &Supervisor,
    user: &UserMemory,
    user2: &UserMemory,
    vram: Seq<u8>,
    vram2: Seq<u8>,
    fs: Option<&Ext2Fs<'_>>,
    r: &Outcome,
    nr: u64,
    a0: u64,
    a1: u64,
    a2: u64,
)
    requires
        s.wf(),
        s.table.current is Some,
        user.wf(),
        effect(s, s2, user, user2, vram, vram2, fs, r, nr, a0, a1, a2),
        nr != 0 && nr != 1 && nr != 62 && nr != 21 && nr != 22,
        !(11 <= nr <= 14) && !(30 <= nr <= 33) && !(40 <= nr <= 43),
    ensures
        ends_with(r, 0xFFFF_FFFF_FFFF_FFFF),
        untouched(s, s2, user, user2, vram, vram2),
{
}

/// Exit ends the shard with the exit code, whatever it has pledged, and nothing else.
pub proof fn law_exit_ends(
    s: &Supervisor,
    s2: &Supervisor,
    user: &UserMemory,
    user2: &UserMemory,
    vram: Seq<u8>,
    vram2: Seq<u8>,
    fs: Option<&Ext2Fs<'_>>,
    r: &Outcome,
    a0: u64,
    a1: u64,
    a2: u64,
    i: int,
)
    requires
        s.wf(),
        s.table.current is Some,
        user.wf(),
        effect(s, s2, user, user2, vram, vram2, fs, r, 0, a0, a1, a2),
        0 <= i < 8,
        i != s.table.current->0,
    ensures
        r is Exited,
        s2.table.current is None,
        s2.table@[s.table.current->0 as int] == (ShardDescriptor {
            state: ShardState::Exited,
            exit_code: a0,
            ..me(s)
        }),
        s2.table@[i] == s.table@[i],
        only_shards(s, s2),
        memory_kept(user, user2, vram, vram2),
{
    law_pledge_by_bits(me(s).gpu_pledge, 0);
}

/// Giving up the processor makes a running shard ready, whatever it has pledged, and nothing
/// else.
pub proof fn law_yield_goes_on(
    s: &Supervisor,
    s2: &Supervisor,
    user: &UserMemory,
    user2: &UserMemory,
    vram: Seq<u8>,
    vram2: Seq<u8>,
    fs: Option<&Ext2Fs<'_>>,
    r: &Outcome,
    a0: u64,
    a1: u64,
    a2: u64,
    i: int,
)
    requires
        s.wf(),
        s.table.current is Some,
        user.wf(),
        effect(s, s2, user, user2, vram, vram2, fs, r, 62, a0, a1, a2),
        0 <= i < 8,
        i != s.table.current->0,
        me(s).state == ShardState::Running,
    ensures
        r is Yielded,
        s2.table.current == s.table.current,
        s2.table@[s.table.current->0 as int] == (ShardDescriptor {
            state: ShardState::Ready,
            ..me(s)
        }),
        s2.table@[i] == s.table@[i],
        only_shards(s, s2),
        memory_kept(user, user2, vram, vram2),
{
    law_pledge_by_bits(me(s).gpu_pledge, 62);
}

/// With bit 0 of the pledge, the bytes of a buffer of up to 4096 bytes in the code page are
/// printed, with a carriage return before each line feed. Any other buffer is refused.
pub proof fn law_print_prints(
    s: &Supervisor,
    s2: &Supervisor,
    user: &UserMemory,
    user2: &UserMemory,
    vram: Seq<u8>,
    vram2: Seq<u8>,
    fs: Option<&Ext2Fs<'_>>,
    r: &Outcome,
    a0: u64,
    a1: u64,
    a2: u64,
    b: Seq<u8>,
)
    requires
        s.wf(),
        s.table.current is Some,
        user.wf(),
        effect(s, s2, user, user2, vram, vram2, fs, r, 1, a0, a1, a2),
        me(s).gpu_pledge & 1 != 0,
        b.len() == a1,
        are_bytes(user, a0, b),
    ensures
        if a1 <= 4096 && within_code(a0, a1) {
            r matches Outcome::Print(v) && v@ == with_returns(b)
        } else {
            ends_with(r, 0xFFFF_FFFF_FFFF_FFFF)
        },
        untouched(s, s2, user, user2, vram, vram2),
{
    law_pledge_by_bits(me(s).gpu_pledge, 1);
    if a1 <= 4096 && within_code(a0, a1) {
        assert(user.bytes(a0, a1) =~= b) by {
            assert forall|k: int| 0 <= k < b.len() implies user.bytes(a0, a1)[k] == b[k] by {
                assert(b[k] == user_byte(user, a0 + k));
            }
        }
    }
}

/// Whether only slot `h` of the capabilities of shard `i` has changed, to `c`.
pub open spec fn only_cap(s: &Supervisor, s2: &Supervisor, i: int, h: int, c: CapEntry) -> bool {
    let t = s.table@;
    let t2 = s2.table@;
    &&& t2.len() == t.len()
    &&& s2.table.current == s.table.current
    &&& t2[i].caps@[h] == c
    &&& forall|j: int|
        0 <= j < 8 ==> #[trigger] t2[j] == (ShardDescriptor { caps: t2[j].caps, ..t[j] })
    &&& forall|j: int, k: int|
        0 <= j < 8 && 0 <= k < 16 && (j != i || k != h) ==> #[trigger] t2[j].caps@[k]
            == t[j].caps@[k]
    &&& only_shards(s, s2)
}

proof fn lemma_first_empty(caps: Seq<CapEntry>, i: int, h: int)
    requires
        0 <= i <= h <= caps.len(),
        h < caps.len() ==> !caps[h].valid,
        forall|k: int| i <= k < h ==> (#[trigger] caps[k]).valid,
    ensures
        first_empty(caps, i) == h,
    decreases h - i,
{
    if i < h {
        assert(caps[i].valid);
        lemma_first_empty(caps, i + 1, h);
    }
}

/// A capability is copied to another shard, with the rights that it has and that are asked
/// for, into the lowest free slot, whose number is the result. It takes a capability at the
/// handle, which for a channel, type 1, has right 4, a shard with that number, and a free slot.
pub proof fn law_grant_copies(
    s: &Supervisor,
    s2: &Supervisor,
    user: &UserMemory,
    user2: &UserMemory,
    vram: Seq<u8>,
    vram2: Seq<u8>,
    fs: Option<&Ext2Fs<'_>>,
    r: &Outcome,
    a0: u64,
    a1: u64,
    a2: u64,
    h: int,
)
    requires
        s.wf(),
        s.table.current is Some,
        user.wf(),
        effect(s, s2, user, user2, vram, vram2, fs, r, 11, a0, a1, a2),
        me(s).gpu_pledge == 0xFFFF_FFFF_FFFF_FFFF,
        0 <= h <= 16,
        a1 < 8 && h < 16 ==> !s.table@[a1 as int].caps@[h].valid,
        a1 < 8 ==> forall|k: int| 0 <= k < h ==> (#[trigger] s.table@[a1 as int].caps@[k]).valid,
    ensures
        ({
            let c = me(s).caps@[a0 as int];
            if a0 < 16 && a1 < 8 && h < 16 && c.valid && (c.cap_type == 1 ==> c.rights & 4 != 0) {
                &&& ends_with(r, h)
                &&& only_cap(
                    s,
                    s2,
                    a1 as int,
                    h,
                    CapEntry { rights: c.rights & ((a2 % 0x1_0000) as u16), ..c },
                )
                &&& memory_kept(user, user2, vram, vram2)
            } else {
                ends_with(r, 0xFFFF_FFFF_FFFF_FFFF) && untouched(
                        s,
                        s2,
                        user,
                        user2,
                        vram,
                        vram2,
                    )
            }
        }),
{
    law_pledge_by_bits(me(s).gpu_pledge, 11);
    if a1 < 8 {
        lemma_first_empty(s.table@[a1 as int].caps@, 0, h);
    }
}

/// The capability at the handle is gone, and no other.
pub proof fn law_revoke_takes(
    s: &Supervisor,
    s2: &Supervisor,
    user: &UserMemory,
    user2: &UserMemory,
    vram: Seq<u8>,
    vram2: Seq<u8>,
    fs: Option<&Ext2Fs<'_>>,
    r: &Outcome,
    a0: u64,
    a1: u64,
    a2: u64,
)
    requires
        s.wf(),
        s.table.current is Some,
        user.wf(),
        effect(s, s2, user, user2, vram, vram2, fs, r, 12, a0, a1, a2),
        me(s).gpu_pledge == 0xFFFF_FFFF_FFFF_FFFF,
    ensures
        ({
            let c = me(s).caps@[a0 as int];
            if a0 < 16 && c.valid {
                &&& ends_with(r, 0)
                &&& only_cap(
                    s,
                    s2,
                    s.table.current->0 as int,
                    a0 as int,
                    CapEntry { valid: false, cap_type: 0, resource_id: 0, rights: 0 },
                )
                &&& memory_kept(user, user2, vram, vram2)
            } else {
                ends_with(r, 0xFFFF_FFFF_FFFF_FFFF) && untouched(
                        s,
                        s2,
                        user,
                        user2,
                        vram,
                        vram2,
                    )
            }
        }),
{
    law_pledge_by_bits(me(s).gpu_pledge, 12);
}

/// The capability at the handle keeps of its rights those that are named.
pub proof fn law_restrict_narrows(
    s: &Supervisor,
    s2: &Supervisor,
    user: &UserMemory,
    user2: &UserMemory,
    vram: Seq<u8>,
    vram2: Seq<u8>,
    fs: Option<&Ext2Fs<'_>>,
    r: &Outcome,
    a0: u64,
    a1: u64,
    a2: u64,
)
    requires
        s.wf(),
        s.table.current is Some,
        user.wf(),
        effect(s, s2, user, user2, vram, vram2, fs, r, 13, a0, a1, a2),
        me(s).gpu_pledge == 0xFFFF_FFFF_FFFF_FFFF,
    ensures
        ({
            let c = me(s).caps@[a0 as int];
            if a0 < 16 && c.valid {
                &&& ends_with(r, 0)
                &&& only_cap(
                    s,
                    s2,
                    s.table.current->0 as int,
                    a0 as int,
                    CapEntry { rights: c.rights & ((a1 % 0x1_0000) as u16), ..c },
                )
                &&& memory_kept(user, user2, vram, vram2)
            } else {
                ends_with(r, 0xFFFF_FFFF_FFFF_FFFF) && untouched(
                        s,
                        s2,
                        user,
                        user2,
                        vram,
                        vram2,
                    )
            }
        }),
{
    law_pledge_by_bits(me(s).gpu_pledge, 13);
}

/// Inspecting tells the type, the resource and the rights of the capability at the handle,
/// from the high bits down, and changes nothing.
pub proof fn law_inspect_tells(
    s: &Supervisor,
    s2: &Supervisor,
    user: &UserMemory,
    user2: &UserMemory,
    vram: Seq<u8>,
    vram2: Seq<u8>,
    fs: Option<&Ext2Fs<'_>>,
    r: &Outcome,
    a0: u64,
    a1: u64,
    a2: u64,
)
    requires
        s.wf(),
        s.table.current is Some,
        user.wf(),
        effect(s, s2, user, user2, vram, vram2, fs, r, 14, a0, a1, a2),
        me(s).gpu_pledge == 0xFFFF_FFFF_FFFF_FFFF,
    ensures
        ({
            let c = me(s).caps@[a0 as int];
            if a0 < 16 && c.valid {
                &&& ends_with(
                    r,
                    c.cap_type * 0x1_0000_0000_0000 + c.resource_id * 0x1_0000 + c.rights,
                )
                &&& untouched(s, s2, user, user2, vram, vram2)
            } else {
                ends_with(r, 0xFFFF_FFFF_FFFF_FFFF) && untouched(
                        s,
                        s2,
                        user,
                        user2,
                        vram,
                        vram2,
                    )
            }
        }),
{
    law_pledge_by_bits(me(s).gpu_pledge, 14);
}

/// Whether shard number `id` is at endpoint `e`, 0 or 1, of the channel, which is in use; the
/// first endpoint counts where it is at both.
pub open spec fn at_endpoint(s: &Supervisor, channel: u64, id: usize, e: int) -> bool {
    let c = s.channels@[channel as int];
    &&& channel < 4
    &&& c.active
    &&& e == 0 || e == 1
    &&& c.shard[e] == id
    &&& e == 1 ==> c.shard[0] != id
}

/// A message of 1 to 256 bytes from the code page or the stack page waits at the other
/// endpoint afterwards, and a shard that is blocked on the channel there is ready. It takes a
/// capability of type 1 on the channel with right 1. What waits for the sender stays.
pub proof fn law_send_delivers(
    s: &Supervisor,
    s2: &Supervisor,
    user: &UserMemory,
    user2: &UserMemory,
    vram: Seq<u8>,
    vram2: Seq<u8>,
    fs: Option<&Ext2Fs<'_>>,
    r: &Outcome,
    a0: u64,
    a1: u64,
    a2: u64,
    e: int,
    b: Seq<u8>,
    k: int,
    i: int,
)
    requires
        s.wf(),
        s.table.current is Some,
        user.wf(),
        effect(s, s2, user, user2, vram, vram2, fs, r, 21, a0, a1, a2),
        e == 0 || e == 1,
        at_endpoint(s, a0, s.table.current->0, e) || !at_endpoint(s, a0, s.table.current->0, 0)
            && !at_endpoint(s, a0, s.table.current->0, 1),
        me(s).gpu_pledge & 2 != 0,
        b.len() == a2,
        are_bytes(user, a1, b),
        0 <= k < 4,
        k != a0,
        0 <= i < 8,
    ensures
        ({
            let c = s.channels@[a0 as int];
            let c2 = s2.channels@[a0 as int];
            let t = s.table@;
            let o = c.shard[1 - e];
            if at_endpoint(s, a0, s.table.current->0, e) && has_right(me(s), 1, a0 as u32, 1) && 0
                < a2 <= 256 && (within_code(a1, a2) || within_stack(a1, a2)) {
                &&& ends_with(r, 0)
                &&& c2.inbox[1 - e] == b
                &&& c2.inbox[e] == c.inbox[e]
                &&& c2.active && c2.shard == c.shard
                &&& s2.channels@[k] == s.channels@[k]
                &&& s2.table@[i] == (if i == o && t[i].state == ShardState::Blocked
                    && t[i].blocked_on_channel == Some(a0 as usize) {
                    ShardDescriptor { state: ShardState::Ready, blocked_on_channel: None, ..t[i] }
                } else {
                    t[i]
                })
                &&& s2.table.current == s.table.current
                &&& s2.files@ == s.files@ && s2.gpu@ == s.gpu@ && s2.frames@ == s.frames@
                &&& s2.mem@ == s.mem@
                &&& memory_kept(user, user2, vram, vram2)
            } else {
                ends_with(r, 0xFFFF_FFFF_FFFF_FFFF) && untouched(
                        s,
                        s2,
                        user,
                        user2,
                        vram,
                        vram2,
                    )
            }
        }),
{
    law_pledge_by_bits(me(s).gpu_pledge, 21);
    s.channels.lemma_shape();
    lemma_has_right(me(s), 1, a0 as u32, 1);
    if within_code(a1, a2) || within_stack(a1, a2) {
        assert(user.bytes(a1, a2) =~= b) by {
            assert forall|j: int| 0 <= j < b.len() implies user.bytes(a1, a2)[j] == b[j] by {
                assert(b[j] == user_byte(user, a1 + j));
            }
        }
    }
}

/// The message that waits for the caller goes to its buffer in the stack page, as much of it
/// as the buffer holds, and waits no more; its length there is the result. Where none waits,
/// the shard is blocked on the channel. It takes a capability of type 1 on the channel with
/// right 2. What waits at the other endpoint stays.
pub proof fn law_receive_takes(
    s: &Supervisor,
    s2: &Supervisor,
    user: &UserMemory,
    user2: &UserMemory,
    vram: Seq<u8>,
    vram2: Seq<u8>,
    fs: Option<&Ext2Fs<'_>>,
    r: &Outcome,
    a0: u64,
    a1: u64,
    a2: u64,
    e: int,
    k: int,
    i: int,
)
    requires
        s.wf(),
        s.table.current is Some,
        user.wf(),
        effect(s, s2, user, user2, vram, vram2, fs, r, 22, a0, a1, a2),
        e == 0 || e == 1,
        at_endpoint(s, a0, s.table.current->0, e) || !at_endpoint(s, a0, s.table.current->0, 0)
            && !at_endpoint(s, a0, s.table.current->0, 1),
        me(s).gpu_pledge & 2 != 0,
        0 <= k < 4,
        k != a0,
        0 <= i < 8,
    ensures
        ({
            let c = s.channels@[a0 as int];
            let c2 = s2.channels@[a0 as int];
            let t = s.table@;
            let msg = c.inbox[e];
            let n = if msg.len() <= a2 {
                msg.len() as int
            } else {
                a2 as int
            };
            if at_endpoint(s, a0, s.table.current->0, e) && has_right(me(s), 1, a0 as u32, 2) && 0
                < a2 <= 4096 && within_stack(a1, a2) {
                &&& s2.table.current == s.table.current
                &&& s2.files@ == s.files@ && s2.gpu@ == s.gpu@ && s2.frames@ == s.frames@
                &&& s2.mem@ == s.mem@
                &&& vram2 == vram
                &&& s2.channels@[k] == s.channels@[k]
                &&& c2.inbox[1 - e] == c.inbox[1 - e]
                &&& c2.active && c2.shard == c.shard
                &&& if msg.len() > 0 {
                    &&& ends_with(r, n)
                    &&& bytes_put(user, user2, a1, msg.take(n))
                    &&& c2.inbox[e].len() == 0
                    &&& s2.table@ == t
                } else {
                    &&& r is Blocked
                    &&& memory_kept(user, user2, vram, vram2)
                    &&& c2.inbox[e].len() == 0
                    &&& s2.table@[i] == (if i == s.table.current->0 {
                        ShardDescriptor {
                            state: ShardState::Blocked,
                            blocked_on_channel: Some(a0 as usize),
                            ..t[i]
                        }
                    } else {
                        t[i]
                    })
                }
            } else {
                ends_with(r, 0xFFFF_FFFF_FFFF_FFFF) && untouched(
                        s,
                        s2,
                        user,
                        user2,
                        vram,
                        vram2,
                    )
            }
        }),
{
    law_pledge_by_bits(me(s).gpu_pledge, 22);
    s.channels.lemma_shape();
    lemma_has_right(me(s), 1, a0 as u32, 2);
    let msg = s.channels@[a0 as int].inbox[e];
    assert(msg.take(msg.len() as int) =~= msg);
}

/// Without a filesystem every call on files is refused and changes nothing.
pub proof fn law_files_need_a_filesystem(
    s: &Supervisor,
    s2: &Supervisor,
    user: &UserMemory,
    user2: &UserMemory,
    vram: Seq<u8>,
    vram2: Seq<u8>,
    fs: Option<&Ext2Fs<'_>>,
    r: &Outcome,
    nr: u64,
    a0: u64,
    a1: u64,
    a2: u64,
)
    requires
        s.wf(),
        s.table.current is Some,
        user.wf(),
        effect(s, s2, user, user2, vram, vram2, fs, r, nr, a0, a1, a2),
        30 <= nr <= 33,
        fs is None,
    ensures
        ends_with(r, 0xFFFF_FFFF_FFFF_FFFF),
        untouched(s, s2, user, user2, vram, vram2),
{
}

/// Whether the inode table of the image reaches to the end of inode number `ino`.
pub open spec fn inode_there(fs: Ext2Fs<'_>, ino: int) -> bool {
    let at = fs.inode_table_block * fs.block_size + (ino - 1) * fs.inode_size;
    ino != 0 && at + fs.inode_size <= fs.data@.len() && at + 92 <= fs.data@.len()
}

/// A path of 1 to 256 bytes in the code page or the stack page that leads to an inode is
/// opened: the lowest free descriptor is the result, and stands for the inode, with the size
/// that bytes 4 to 7 of the inode give, from its start on, for this shard alone.
pub proof fn law_open_opens(
    s: &Supervisor,
    s2: &Supervisor,
    user: &UserMemory,
    user2: &UserMemory,
    vram: Seq<u8>,
    vram2: Seq<u8>,
    fs: Option<&Ext2Fs<'_>>,
    r: &Outcome,
    a0: u64,
    a1: u64,
    a2: u64,
    f: &Ext2Fs<'_>,
    path: Seq<u8>,
    fd: int,
    i: int,
)
    requires
        s.wf(),
        s.table.current is Some,
        user.wf(),
        effect(s, s2, user, user2, vram, vram2, fs, r, 30, a0, a1, a2),
        fs == Some(f),
        me(s).gpu_pledge == 0xFFFF_FFFF_FFFF_FFFF,
        path.len() == a1,
        are_bytes(user, a0, path),
        0 <= fd <= 16,
        fd < 16 ==> !s.files@[fd].active,
        forall|k: int| 0 <= k < fd ==> (#[trigger] s.files@[k]).active,
        0 <= i < 16,
        i != fd,
    ensures
        ({
            let found = lookup_spec(*f, path);
            let at = f.inode_table_block * f.block_size + (found->0 - 1) * f.inode_size;
            if 0 < a1 <= 256 && (within_code(a0, a1) || within_stack(a0, a1)) && found is Some
                && inode_there(*f, found->0) && fd < 16 {
                &&& ends_with(r, fd)
                &&& s2.files@[fd].active
                &&& s2.files@[fd].shard_id == s.table.current->0
                &&& s2.files@[fd].inode_nr == found->0 as u32
                &&& s2.files@[fd].size == le32(f.data@, at + 4) as u32
                &&& s2.files@[fd].offset == 0
                &&& s2.files@[i] == s.files@[i]
                &&& s2.table@ == s.table@ && s2.table.current == s.table.current
                &&& s2.channels@ == s.channels@ && s2.gpu@ == s.gpu@ && s2.frames@ == s.frames@
                &&& s2.mem@ == s.mem@
                &&& memory_kept(user, user2, vram, vram2)
            } else {
                ends_with(r, 0xFFFF_FFFF_FFFF_FFFF) && untouched(
                        s,
                        s2,
                        user,
                        user2,
                        vram,
                        vram2,
                    )
            }
        }),
{
    law_pledge_by_bits(me(s).gpu_pledge, 30);
    s.files.lemma_shape();
    if fd < 16 {
        law_lowest_descriptor(s.files@, fd);
    } else {
        lemma_all_used(s.files@, 0);
    }
    if within_code(a0, a1) || within_stack(a0, a1) {
        assert(user.bytes(a0, a1) =~= path) by {
            assert forall|k: int| 0 <= k < path.len() implies user.bytes(a0, a1)[k] == path[k] by {
                assert(path[k] == user_byte(user, a0 + k));
            }
        }
    }
}

proof fn lemma_all_used(f: Seq<OpenFile>, i: int)
    requires
        0 <= i <= f.len(),
        forall|k: int| i <= k < f.len() ==> (#[trigger] f[k]).active,
    ensures
        crate::fs::first_unused(f, i) == f.len(),
    decreases f.len() - i,
{
    if i < f.len() {
        assert(f[i].active);
        lemma_all_used(f, i + 1);
    }
}

/// Whether the caller has the descriptor open.
pub open spec fn has_open(s: &Supervisor, fd: u64) -> bool {
    fd < 16 && s.files@[fd as int].active && s.files@[fd as int].shard_id == s.table.current->0
}

/// Reading from an open file gives the bytes from where the last read ended, as many as the
/// buffer of up to 4096 bytes in the stack page holds or as many as are left, and goes on
/// behind them at the next read. It is refused to all but the shard that has opened the file.
pub proof fn law_read_reads(
    s: &Supervisor,
    s2: &Supervisor,
    user: &UserMemory,
    user2: &UserMemory,
    vram: Seq<u8>,
    vram2: Seq<u8>,
    fs: Option<&Ext2Fs<'_>>,
    r: &Outcome,
    a0: u64,
    a1: u64,
    a2: u64,
    f: &Ext2Fs<'_>,
    content: Seq<u8>,
    i: int,
)
    requires
        s.wf(),
        s.table.current is Some,
        user.wf(),
        effect(s, s2, user, user2, vram, vram2, fs, r, 31, a0, a1, a2),
        fs == Some(f),
        f.wf(),
        me(s).gpu_pledge == 0xFFFF_FFFF_FFFF_FFFF,
        has_open(s, a0) ==> file_laid_out(*f, s.files@[a0 as int].inode_nr as int, content)
            && s.files@[a0 as int].offset <= content.len(),
        0 <= i < 16,
        i != a0,
    ensures
        ({
            let file = s.files@[a0 as int];
            let left = content.len() - file.offset;
            let n = if a2 <= left {
                a2 as int
            } else {
                left
            };
            if has_open(s, a0) && 0 < a2 <= 4096 && within_stack(a1, a2) {
                &&& ends_with(r, n)
                &&& bytes_put(
                    user,
                    user2,
                    a1,
                    content.subrange(file.offset as int, file.offset + n),
                )
                &&& s2.files@[a0 as int] == (OpenFile { offset: (file.offset + n) as u32, ..file })
                &&& s2.files@[i] == s.files@[i]
                &&& s2.table@ == s.table@ && s2.table.current == s.table.current
                &&& s2.channels@ == s.channels@ && s2.gpu@ == s.gpu@ && s2.frames@ == s.frames@
                &&& s2.mem@ == s.mem@
                &&& vram2 == vram
            } else {
                ends_with(r, 0xFFFF_FFFF_FFFF_FFFF) && untouched(
                        s,
                        s2,
                        user,
                        user2,
                        vram,
                        vram2,
                    )
            }
        }),
{
    law_pledge_by_bits(me(s).gpu_pledge, 31);
    s.files.lemma_shape();
    if has_open(s, a0) {
        let file = s.files@[a0 as int];
        law_file_read_back(*f, file.inode_nr as int, content, file.offset as int, a2 as int);
    }
}

/// The size of a file that the shard has open is the one it was opened with.
pub proof fn law_stat_tells_the_size(
    s: &Supervisor,
    s2: &Supervisor,
    user: &UserMemory,
    user2: &UserMemory,
    vram: Seq<u8>,
    vram2: Seq<u8>,
    fs: Option<&Ext2Fs<'_>>,
    r: &Outcome,
    a0: u64,
    a1: u64,
    a2: u64,
    f: &Ext2Fs<'_>,
)
    requires
        s.wf(),
        s.table.current is Some,
        user.wf(),
        effect(s, s2, user, user2, vram, vram2, fs, r, 32, a0, a1, a2),
        fs == Some(f),
        me(s).gpu_pledge == 0xFFFF_FFFF_FFFF_FFFF,
    ensures
        ends_with(
            r,
            if has_open(s, a0) {
                s.files@[a0 as int].size as int
            } else {
                0xFFFF_FFFF_FFFF_FFFF
            },
        ),
        untouched(s, s2, user, user2, vram, vram2),
{
    law_pledge_by_bits(me(s).gpu_pledge, 32);
}

/// A descriptor that the shard has open is free afterwards, and all others stay.
pub proof fn law_close_closes(
    s: &Supervisor,
    s2: &Supervisor,
    user: &UserMemory,
    user2: &UserMemory,
    vram: Seq<u8>,
    vram2: Seq<u8>,
    fs: Option<&Ext2Fs<'_>>,
    r: &Outcome,
    a0: u64,
    a1: u64,
    a2: u64,
    f: &Ext2Fs<'_>,
    i: int,
)
    requires
        s.wf(),
        s.table.current is Some,
        user.wf(),
        effect(s, s2, user, user2, vram, vram2, fs, r, 33, a0, a1, a2),
        fs == Some(f),
        me(s).gpu_pledge == 0xFFFF_FFFF_FFFF_FFFF,
        0 <= i < 16,
        i != a0,
    ensures
        if has_open(s, a0) {
            &&& ends_with(r, 0)
            &&& !s2.files@[a0 as int].active
            &&& s2.files@[i] == s.files@[i]
            &&& s2.table@ == s.table@ && s2.table.current == s.table.current
            &&& s2.channels@ == s.channels@ && s2.gpu@ == s.gpu@ && s2.frames@ == s.frames@
            &&& s2.mem@ == s.mem@
            &&& memory_kept(user, user2, vram, vram2)
        } else {
            ends_with(r, 0xFFFF_FFFF_FFFF_FFFF) && untouched(
                s,
                s2,
                user,
                user2,
                vram,
                vram2,
            )
        },
{
    law_pledge_by_bits(me(s).gpu_pledge, 33);
    s.files.lemma_shape();
}

/// Whether partition number `own` is the first of the caller's, or there is none and `own`
/// is the number of partitions.
pub open spec fn own_partition(s: &Supervisor, own: int) -> bool {
    let ps = s.gpu@;
    &&& 0 <= own <= ps.len()
    &&& own < ps.len() ==> ps[own].owner_shard == s.table.current
    &&& forall|j: int| 0 <= j < own ==> (#[trigger] ps[j]).owner_shard != s.table.current
}

/// With bit 2 of the pledge and a capability of type 4 on the target with right 1, bytes of the
/// caller's partition go to another partition, in their order: as many as the lower half of
/// the last argument says, to the offset in its upper half. Each byte that is read lies in the
/// caller's partition and in what the caller has unveiled, and each that is written in the
/// target and in what its owner has unveiled; else nothing is copied. Nothing else changes.
pub proof fn law_copy_copies(
    s: &Supervisor,
    s2: &Supervisor,
    user: &UserMemory,
    user2: &UserMemory,
    vram: Seq<u8>,
    vram2: Seq<u8>,
    fs: Option<&Ext2Fs<'_>>,
    r: &Outcome,
    a0: u64,
    a1: u64,
    a2: u64,
    own: int,
)
    requires
        s.wf(),
        s.table.current is Some,
        user.wf(),
        effect(s, s2, user, user2, vram, vram2, fs, r, 40, a0, a1, a2),
        me(s).gpu_pledge & 4 != 0,
        vram.len() > 0,
        partitions_within(s.gpu@, vram.len() as int),
        own_partition(s, own),
    ensures
        ({
            let ps = s.gpu@;
            let target = ps[a0 as int];
            let dst = a2 as int / 0x1_0000_0000;
            let len = a2 as int % 0x1_0000_0000;
            let read = ps[own].vram_offset + a1;
            let write = target.vram_offset + dst;
            if own < ps.len() && a0 < ps.len() && own != a0 && len > 0 && has_right(
                me(s),
                4,
                a0 as u32,
                1,
            ) && (forall|a: int| read <= a < read + len ==> #[trigger] open_byte(ps[own], me(s), a))
                && (forall|a: int|
                write <= a < write + len ==> #[trigger] target.has(a) && (
                target.owner_shard matches Some(o) ==> open_byte(target, s.table@[o as int], a))) {
                &&& ends_with(r, 0)
                &&& vram2.len() == vram.len()
                &&& forall|a: int|
                    0 <= a < vram.len() ==> #[trigger] vram2[a] == (if write <= a < write + len {
                        vram[read + (a - write)]
                    } else {
                        vram[a]
                    })
                &&& s2.table@ == s.table@ && s2.table.current == s.table.current
                &&& only_shards(s, s2)
                &&& user2.code@ == user.code@ && user2.stack@ == user.stack@
            } else {
                ends_with(r, 0xFFFF_FFFF_FFFF_FFFF) && untouched(
                        s,
                        s2,
                        user,
                        user2,
                        vram,
                        vram2,
                    )
            }
        }),
{
    law_pledge_by_bits(me(s).gpu_pledge, 40);
    s.gpu.lemma_wf();
    let ps = s.gpu@;
    let caller = s.table.current->0;
    let dst = a2 as int / 0x1_0000_0000;
    let len = a2 as int % 0x1_0000_0000;
    if own < ps.len() && a0 < ps.len() {
        law_copy_by_bytes(ps, s.table@, vram, caller, own, a0 as int, a1 as int, dst, len);
    } else if own == ps.len() {
        law_no_partition_no_copy(
            ps,
            s.table@,
            vram.len() as int,
            caller,
            a0 as int,
            a1 as int,
            dst,
            len,
        );
    }
}

/// A pledge keeps those categories that were kept and that it names. It can always be made.
pub proof fn law_pledge_gives_up(
    s: &Supervisor,
    s2: &Supervisor,
    user: &UserMemory,
    user2: &UserMemory,
    vram: Seq<u8>,
    vram2: Seq<u8>,
    fs: Option<&Ext2Fs<'_>>,
    r: &Outcome,
    a0: u64,
    a1: u64,
    a2: u64,
    i: int,
)
    requires
        s.wf(),
        s.table.current is Some,
        user.wf(),
        effect(s, s2, user, user2, vram, vram2, fs, r, 41, a0, a1, a2),
        0 <= i < 8,
        i != s.table.current->0,
    ensures
        ends_with(r, 0),
        s2.table@[s.table.current->0 as int] == (ShardDescriptor {
            gpu_pledge: me(s).gpu_pledge & a0,
            ..me(s)
        }),
        s2.table@[i] == s.table@[i],
        s2.table.current == s.table.current,
        only_shards(s, s2),
        memory_kept(user, user2, vram, vram2),
{
    law_pledge_by_bits(me(s).gpu_pledge, 41);
}

/// A shard with a partition can once fix a range of it that is not empty, whatever it has
/// pledged; each byte of the range lies in the partition.
pub proof fn law_unveil_fixes(
    s: &Supervisor,
    s2: &Supervisor,
    user: &UserMemory,
    user2: &UserMemory,
    vram: Seq<u8>,
    vram2: Seq<u8>,
    fs: Option<&Ext2Fs<'_>>,
    r: &Outcome,
    a0: u64,
    a1: u64,
    a2: u64,
    own: int,
    i: int,
)
    requires
        s.wf(),
        s.table.current is Some,
        user.wf(),
        effect(s, s2, user, user2, vram, vram2, fs, r, 42, a0, a1, a2),
        own_partition(s, own),
        0 <= i < 8,
        i != s.table.current->0,
    ensures
        ({
            let p = s.gpu@[own];
            if own < s.gpu@.len() && me(s).vram_unveil_size == 0 && a1 > 0 && (forall|a: int|
                p.vram_offset + a0 <= a < p.vram_offset + a0 + a1 ==> #[trigger] p.has(a)) {
                &&& ends_with(r, 0)
                &&& s2.table@[s.table.current->0 as int] == (ShardDescriptor {
                    vram_unveil_offset: a0,
                    vram_unveil_size: a1,
                    ..me(s)
                })
                &&& s2.table@[i] == s.table@[i]
                &&& s2.table.current == s.table.current
                &&& only_shards(s, s2)
                &&& memory_kept(user, user2, vram, vram2)
            } else {
                ends_with(r, 0xFFFF_FFFF_FFFF_FFFF) && untouched(
                        s,
                        s2,
                        user,
                        user2,
                        vram,
                        vram2,
                    )
            }
        }),
{
    law_pledge_by_bits(me(s).gpu_pledge, 42);
    let ps = s.gpu@;
    let caller = s.table.current->0;
    if own < ps.len() {
        law_unveil_by_bytes(ps, s.table@, caller, own, a0, a1);
    } else {
        law_no_partition_no_copy(ps, s.table@, 0, caller, 0, 0, 0, 0);
    }
}

/// A shard that has pledged nothing gets data pages at a page boundary from 0x10_0000 to the
/// stack, behind those that it has, as long as it owns no more than 32 frames and there are
/// enough free ones. They hold zeros; every other page of it and every other shard stays.
pub proof fn law_memory_is_given(
    s: &Supervisor,
    s2: &Supervisor,
    user: &UserMemory,
    user2: &UserMemory,
    vram: Seq<u8>,
    vram2: Seq<u8>,
    fs: Option<&Ext2Fs<'_>>,
    r: &Outcome,
    a0: u64,
    a1: u64,
    a2: u64,
    i: int,
    j: int,
    k: int,
    x: u64,
)
    requires
        s.wf(),
        s.table.current is Some,
        user.wf(),
        effect(s, s2, user, user2, vram, vram2, fs, r, 43, a0, a1, a2),
        me(s).gpu_pledge == 0xFFFF_FFFF_FFFF_FFFF,
        a0 % 4096 == 0,
        a1 > 0,
        0x10_0000 <= a0,
        a0 + a1 * 4096 <= 0x7F_F000,
        me(s).frame_count + a1 <= 32,
        a0 > 0x10_0000 ==> leaf(s.mem@, me(s).pml4_phys, (a0 - 4096) as u64) is Page4K,
        forall|x: u64|
            a0 <= x < a0 + a1 * 4096 && x % 4096 == 0 ==> (#[trigger] leaf(
                s.mem@,
                me(s).pml4_phys,
                x,
            )) is Unmapped,
        s.frames@.capacity() >= a1 + window_missing(s.mem@, me(s).pml4_phys, a0, a1 as int),
        0 <= i < 8,
        i != s.table.current->0,
        0 <= j < a1,
        0 <= k < 4096,
        x < 0x8000_0000_0000,
        x < a0 || a0 + a1 * 4096 <= x,
    ensures
        ends_with(r, 0),
        me(s2).frame_count == me(s).frame_count + a1,
        leaf(s2.mem@, me(s).pml4_phys, (a0 + j * 4096) as u64) == Leaf::Page4K(
            (me(s2).frames()[me(s).frame_count + j] & 0x000F_FFFF_FFFF_F000)
                | 0x8000_0000_0000_0007,
        ),
        byte_at(s2.mem@, me(s2).frames()[me(s).frame_count + j] + k) == 0,
        leaf(s2.mem@, me(s).pml4_phys, x) == leaf(s.mem@, me(s).pml4_phys, x),
        s2.table@[i] == s.table@[i],
        s2.table.current == s.table.current,
        s2.channels@ == s.channels@,
        s2.files@ == s.files@,
        s2.gpu@ == s.gpu@,
        memory_kept(user, user2, vram, vram2),
{
    law_pledge_by_bits(me(s).gpu_pledge, 43);
    law_data_where(me(s), s.mem@, s.frames@, a0, a1);
    law_data_pages_zero(
        s.mem@,
        s2.mem@,
        me(s).pml4_phys,
        me(s2).frames(),
        me(s).frame_count as int,
        a0,
        a1 as int,
        j,
        k,
    );
    lemma_apart(x, a0, a1 as int);
    lemma_low_address(x);
    assert(in_half(x, 0, 256));
    reveal(data_mapped);
}

/// Any other request for data pages is refused and changes nothing.
pub proof fn law_memory_is_refused(
    s: &Supervisor,
    s2: &Supervisor,
    user: &UserMemory,
    user2: &UserMemory,
    vram: Seq<u8>,
    vram2: Seq<u8>,
    fs: Option<&Ext2Fs<'_>>,
    r: &Outcome,
    a0: u64,
    a1: u64,
    a2: u64,
    x: u64,
)
    requires
        s.wf(),
        s.table.current is Some,
        user.wf(),
        effect(s, s2, user, user2, vram, vram2, fs, r, 43, a0, a1, a2),
        a0 % 4096 != 0 || a1 == 0 || a0 < 0x10_0000 || a0 + a1 * 4096 > 0x7F_F000
            || me(s).frame_count + a1 > 32 || a0 > 0x10_0000 && !(leaf(
            s.mem@,
            me(s).pml4_phys,
            (a0 - 4096) as u64,
        ) is Page4K) || a0 <= x < a0 + a1 * 4096 && x % 4096 == 0 && !(leaf(
            s.mem@,
            me(s).pml4_phys,
            x,
        ) is Unmapped) || s.frames@.capacity() < a1,
    ensures
        ends_with(r, 0xFFFF_FFFF_FFFF_FFFF),
        untouched(s, s2, user, user2, vram, vram2),
{
    law_data_where(me(s), s.mem@, s.frames@, a0, a1);
    lemma_window_missing_bound(s.mem@, me(s).pml4_phys, a0, 0, a1 as int);
}

} // verus!
