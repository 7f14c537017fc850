//! System calls: how the processor is set up for them, which of them a shard may make, and
//! what each of them does.

use vstd::prelude::*;

use crate::bytes::le32;
use crate::capability::{check, first_empty, grant_copy, grantable, handle_ok, holds, inspect};
use crate::capability::{packed, restrict, revoke, with_cap};
use crate::channel::{blocked, cut, endpoint, recv, recv_resumed, send, usable, with_message, woken};
use crate::channel::{ChannelTable, Recv, MAX_MSG_SIZE};
use crate::confine::{all_confined, law_data_confined, lemma_confined_same};
use crate::ext2::{has_inode, inode_at, inode_view, read_bytes, Ext2Fs};
use crate::frame::FrameAllocator;
use crate::fs::{first_unused, handle_fs_close, handle_fs_open, handle_fs_read, handle_fs_stat};
use crate::fs::{opened, owned, OpenFile, OpenFiles, MAX_OPEN_FILES, MAX_PATH_LEN};
use crate::gdt::{KERNEL_CS, KERNEL_DS};
use crate::gpu::{copied, dma_ok, first_owned, handle_dma, handle_gpu_pledge, handle_gpu_unveil};
use crate::gpu::{law_dma_stays_in_target, partitions_within, pledged, unveil_ok, Gpu};
use crate::hal::DeviceRange;
use crate::kernel::{kernel_ok, lemma_kernel_same};
use crate::mem::{in_frame, Memory};
use crate::mmap::{data_mapped, handle_mmap, mmap_ok};
use crate::scheduler::{handle_sys_yield, yielded};
use crate::serial::{with_returns, write_str};
use crate::shard::{handle_sys_exit, isolated, lemma_isolated_same, shard_wf, CapEntry};
use crate::shard::{ShardDescriptor, ShardState, ShardTable, MAX_CAPS_PER_SHARD, MAX_SHARDS};
use crate::shared::{CAP_CHANNEL, CAP_GPU_DMA, PLEDGE_CHANNEL, PLEDGE_GPU_DMA, PLEDGE_SERIAL};
use crate::shared::{RIGHT_CHANNEL_RECV, RIGHT_CHANNEL_SEND, RIGHT_GPU_DMA_WRITE, SYS_CAP_GRANT};
use crate::shared::{SYS_CAP_INSPECT, SYS_CAP_RESTRICT, SYS_CAP_REVOKE, SYS_CHANNEL_RECV};
use crate::shared::{SYS_CHANNEL_SEND, SYS_EXIT, SYS_FS_CLOSE, SYS_FS_OPEN, SYS_FS_READ};
use crate::shared::{SYS_FS_STAT, SYS_GPU_DMA, SYS_GPU_PLEDGE, SYS_GPU_UNVEIL, SYS_MMAP};
use crate::shared::{SYS_SERIAL_WRITE, SYS_YIELD};
use crate::space::{claimed, in_frames, lemma_claimed, lemma_free_frame_apart, same_frame};
use crate::space::space_grown;
use crate::user::{fillable, in_code, readable, replaced, validate_user_read_buf};
use crate::user::{validate_user_write_buf, UserMemory, CODE_END, CODE_START, MAX_BUF, STACK_START};
use crate::vmm::lemma_frames_apart;

verus! {

// ---------------------------------------------------------------------------
// Processor setup
// ---------------------------------------------------------------------------

pub const IA32_EFER: u32 = 0xC000_0080;

pub const IA32_STAR: u32 = 0xC000_0081;

pub const IA32_LSTAR: u32 = 0xC000_0082;

pub const IA32_SFMASK: u32 = 0xC000_0084;

/// System call extensions.
pub const EFER_SCE: u64 = 1;

/// The flags that are cleared on entry: interrupts and single step.
pub const SFMASK_VALUE: u64 = 0x300;

/// A value for a model-specific register.
#[derive(Debug, Clone, Copy, PartialEq, Eq, Structural)]
pub struct MsrWrite {
    pub msr: u32,
    pub value: u64,
}

/// The code and data selectors that the processor loads: on entry those at bits 47 to 32
/// of the register and the next; on return those 16 and 8 above bits 63 to 48, for user
/// mode.
pub open spec fn star_selectors(star: u64) -> (int, int, int, int) {
    let enter = star as int / 0x1_0000_0000 % 0x1_0000;
    let leave = star as int / 0x1_0000_0000_0000;
    (enter, enter + 8, leave + 16 + 3, leave + 8 + 3)
}

/// The register writes that enable system calls, in order. `efer` is what the first of the
/// registers holds, and `entry` is where system calls enter the supervisor.
pub fn init(efer: u64, entry: u64) -> (w: [MsrWrite; 4])
    ensures
        w@[0] == (MsrWrite { msr: IA32_EFER, value: efer | EFER_SCE }),
        w@[1] == (MsrWrite { msr: IA32_STAR, value: 0x0010_0008_0000_0000 }),
        star_selectors(w@[1].value) == (0x08int, 0x10int, 0x23int, 0x1Bint),
        w@[2] == (MsrWrite { msr: IA32_LSTAR, value: entry }),
        w@[3] == (MsrWrite { msr: IA32_SFMASK, value: SFMASK_VALUE }),
        w@[0] == (MsrWrite { msr: 0xC000_0080, value: efer | 1 }),
        w@[1].msr == 0xC000_0081,
        w@[2].msr == 0xC000_0082,
        w@[3] == (MsrWrite { msr: 0xC000_0084, value: 0x300 }),
{
    let kernel_cs: u64 = KERNEL_CS as u64;
    let sysret_base: u64 = KERNEL_DS as u64;
    let star: u64 = sysret_base * 0x1_0000_0000_0000 + kernel_cs * 0x1_0000_0000;
    [
        MsrWrite { msr: IA32_EFER, value: efer | EFER_SCE },
        MsrWrite { msr: IA32_STAR, value: star },
        MsrWrite { msr: IA32_LSTAR, value: entry },
        MsrWrite { msr: IA32_SFMASK, value: SFMASK_VALUE },
    ]
}

// ---------------------------------------------------------------------------
// Serial output
// ---------------------------------------------------------------------------

/// Whether a shard may have the buffer printed: it lies in the code page.
pub open spec fn printable(ptr: u64, len: u64) -> bool {
    len <= MAX_BUF && in_code(ptr, len)
}

/// What is sent to the serial port for a buffer of the shard. There is no result where the
/// buffer does not lie in the shard's code page.
pub fn handle_serial_write(user: &UserMemory, buf_ptr: u64, len: u64) -> (r: Option<Vec<u8>>)
    requires
        user.wf(),
    ensures
        r is Some <==> printable(buf_ptr, len),
        r matches Some(v) ==> v@ == with_returns(user.bytes(buf_ptr, len)),
{
    if len > MAX_BUF || buf_ptr < CODE_START || buf_ptr > CODE_END || buf_ptr + len > CODE_END {
        return None;
    }
    let buf = user.read(buf_ptr, len);
    Some(write_str(buf.as_slice()))
}

// ---------------------------------------------------------------------------
// Dispatch
// ---------------------------------------------------------------------------

/// All that system calls work on.
pub struct Supervisor {
    pub table: ShardTable,
    pub channels: ChannelTable,
    pub files: OpenFiles,
    pub gpu: Gpu,
    pub frames: FrameAllocator,
    pub mem: Memory,
}

impl Supervisor {
    /// Everything is in order, and the current shard, where there is one, has memory.
    pub open spec fn wf(&self) -> bool {
        &&& self.table.wf()
        &&& self.channels.wf()
        &&& self.gpu.wf()
        &&& self.frames.wf()
        &&& self.frames@.within(self.mem@.len())
        &&& isolated(self.table@, self.mem@, self.frames@)
        &&& self.table.current matches Some(id) ==> self.table@[id as int].live()
    }

    /// The number of the current shard.
    pub open spec fn caller(&self) -> usize {
        self.table.current->0
    }

    /// Whether all but the shards is as in `other`.
    pub open spec fn same_but_shards(&self, other: &Supervisor) -> bool {
        &&& self.channels@ == other.channels@
        &&& self.files@ == other.files@
        &&& self.gpu@ == other.gpu@
        &&& self.frames@ == other.frames@
        &&& self.mem@ == other.mem@
    }

    /// Whether the shards are as in `other`.
    pub open spec fn same_shards(&self, other: &Supervisor) -> bool {
        &&& self.table@ == other.table@
        &&& self.table.current == other.table.current
    }

    /// Whether all is as in `other`.
    pub open spec fn same(&self, other: &Supervisor) -> bool {
        self.same_shards(other) && self.same_but_shards(other)
    }
}

/// How a system call ends.
pub enum Outcome {
    /// The shard goes on with this value.
    Value(u64),
    /// These bytes go to the serial port, and the shard goes on with 0.
    Print(Vec<u8>),
    /// The shard has ended; another runs.
    Exited,
    /// The shard goes on with 0 at its next turn; another runs.
    Yielded,
    /// The shard waits for a message; another runs. When it runs again, the call ends with
    /// [`finish_recv`].
    Blocked,
}

/// Whether a shard with the given pledge may make the call. Leaving, yielding and giving up
/// more is always allowed. What has no category is allowed until the first pledge.
pub open spec fn allowed(pledge: u64, nr: u64) -> bool {
    if nr == SYS_EXIT || nr == SYS_YIELD || nr == SYS_GPU_PLEDGE || nr == SYS_GPU_UNVEIL {
        true
    } else if nr == SYS_SERIAL_WRITE {
        pledge & PLEDGE_SERIAL != 0
    } else if nr == SYS_CHANNEL_SEND || nr == SYS_CHANNEL_RECV {
        pledge & PLEDGE_CHANNEL != 0
    } else if nr == SYS_GPU_DMA {
        pledge & PLEDGE_GPU_DMA != 0
    } else {
        pledge == u64::MAX
    }
}

/// Whether a shard with the given pledge may make the call.
pub fn pledge_allows(pledge: u64, nr: u64) -> (r: bool)
    ensures
        r == allowed(pledge, nr),
{
    if nr == SYS_EXIT || nr == SYS_YIELD || nr == SYS_GPU_PLEDGE || nr == SYS_GPU_UNVEIL {
        true
    } else if nr == SYS_SERIAL_WRITE {
        pledge & PLEDGE_SERIAL != 0
    } else if nr == SYS_CHANNEL_SEND || nr == SYS_CHANNEL_RECV {
        pledge & PLEDGE_CHANNEL != 0
    } else if nr == SYS_GPU_DMA {
        pledge & PLEDGE_GPU_DMA != 0
    } else {
        pledge == u64::MAX
    }
}

/// The number as an index; a large one is out of range either way.
fn index(x: u64) -> (i: usize)
    ensures
        x < 0xFFFF ==> i == x,
        x >= 0xFFFF ==> i == 0xFFFF,
{
    if x < 0xFFFF {
        x as usize
    } else {
        0xFFFF
    }
}

/// Whether the shard holds the capability for the channel.
pub open spec fn may_use(s: ShardDescriptor, channel: u64, right: u16) -> bool {
    channel < 0xFFFF && holds(s, CAP_CHANNEL, channel as u32, right)
}

/// What a send on a channel does: with the capability, a readable buffer and a usable
/// channel the message waits at the other endpoint, and the shard there is woken.
pub open spec fn send_effect(
    s: &Supervisor,
    s2: &Supervisor,
    user: &UserMemory,
    r: &Outcome,
    a0: u64,
    a1: u64,
    a2: u64,
) -> bool {
    let t = s.table@;
    let cs = s.channels@;
    let id = s.caller();
    let ch = a0 as int;
    if may_use(t[id as int], a0, RIGHT_CHANNEL_SEND) && readable(a1, a2) && a2 <= MAX_MSG_SIZE
        && usable(cs, ch, id) {
        let other = 1 - endpoint(cs[ch], id)->0;
        &&& r matches Outcome::Value(v) && *v == 0
        &&& s2.channels@ == with_message(cs, ch, other, user.bytes(a1, a2))
        &&& s2.table@ == woken(t, cs[ch].shard[other], a0 as usize)
        &&& s2.table.current == s.table.current
        &&& s2.files@ == s.files@ && s2.gpu@ == s.gpu@ && s2.frames@ == s.frames@ && s2.mem@
            == s.mem@
    } else {
        (r matches Outcome::Value(v) && *v == u64::MAX) && s2.same(s)
    }
}

/// Send the bytes of a user buffer on a channel.
fn sys_channel_send(s: &mut Supervisor, user: &UserMemory, a0: u64, a1: u64, a2: u64) -> (r: Outcome)
    requires
        old(s).wf(),
        old(s).table.current is Some,
        user.wf(),
    ensures
        final(s).wf(),
        send_effect(old(s), final(s), user, &r, a0, a1, a2),
{
    let caller: usize = match s.table.current {
        Some(id) => id,
        None => {
            return Outcome::Value(u64::MAX);
        },
    };
    let ghost t0 = s.table@;
    let channel: usize = index(a0);
    if a0 >= 0xFFFF || !check(&s.table, caller, CAP_CHANNEL, channel as u32, RIGHT_CHANNEL_SEND)
        || !validate_user_read_buf(a1, a2) {
        return Outcome::Value(u64::MAX);
    }
    let data = user.read(a1, a2);
    let v: u64 = send(&mut s.channels, &mut s.table, channel, caller, data.as_slice());
    proof {
        lemma_isolated_same(t0, s.table@, s.mem@, s.frames@);
    }
    Outcome::Value(v)
}

/// What a receive on a channel does: with the capability, a buffer that may be filled and a
/// usable channel, the waiting message goes to the buffer; without a message the shard is
/// blocked.
pub open spec fn recv_effect(
    s: &Supervisor,
    s2: &Supervisor,
    user: &UserMemory,
    user2: &UserMemory,
    r: &Outcome,
    a0: u64,
    a1: u64,
    a2: u64,
) -> bool {
    let t = s.table@;
    let cs = s.channels@;
    let id = s.caller();
    let ch = a0 as int;
    let msg = cs[ch].inbox[endpoint(cs[ch], id)->0];
    &&& user2.code@ == user.code@
    &&& s2.files@ == s.files@ && s2.gpu@ == s.gpu@ && s2.frames@ == s.frames@ && s2.mem@ == s.mem@
    &&& s2.table.current == s.table.current
    &&& if !(may_use(t[id as int], a0, RIGHT_CHANNEL_RECV) && fillable(a1, a2) && usable(
        cs,
        ch,
        id,
    )) {
        (r matches Outcome::Value(v) && *v == u64::MAX) && s2.same(s) && user2.stack@ == user.stack@
    } else if msg.len() > 0 {
        let data = cut(msg, a2 as int);
        &&& r matches Outcome::Value(v) && *v == data.len()
        &&& user2.stack@ == replaced(user.stack@, a1 - STACK_START, data)
        &&& s2.channels@ == with_message(cs, ch, endpoint(cs[ch], id)->0, Seq::<u8>::empty())
        &&& s2.table@ == t
    } else {
        &&& r is Blocked
        &&& user2.stack@ == user.stack@
        &&& s2.channels@ == cs
        &&& s2.table@ == blocked(t, id, a0 as usize)
    }
}

/// Receive a message into a user buffer.
fn sys_channel_recv(
    s: &mut Supervisor,
    user: &mut UserMemory,
    a0: u64,
    a1: u64,
    a2: u64,
) -> (r: Outcome)
    requires
        old(s).wf(),
        old(s).table.current is Some,
        old(user).wf(),
    ensures
        final(s).wf(),
        final(user).wf(),
        recv_effect(old(s), final(s), old(user), final(user), &r, a0, a1, a2),
{
    let caller: usize = match s.table.current {
        Some(id) => id,
        None => {
            return Outcome::Value(u64::MAX);
        },
    };
    let ghost t0 = s.table@;
    let channel: usize = index(a0);
    if a0 >= 0xFFFF || !check(&s.table, caller, CAP_CHANNEL, channel as u32, RIGHT_CHANNEL_RECV)
        || !validate_user_write_buf(a1, a2) {
        return Outcome::Value(u64::MAX);
    }
    let r = recv(&mut s.channels, &mut s.table, channel, caller, a2 as usize);
    proof {
        lemma_isolated_same(t0, s.table@, s.mem@, s.frames@);
    }
    match r {
        Recv::Failed => Outcome::Value(u64::MAX),
        Recv::Blocked => Outcome::Blocked,
        Recv::Message(v) => {
            user.write(a1, v.as_slice(), v.len());
            assert(v@.take(v@.len() as int) =~= v@);
            Outcome::Value(v.len() as u64)
        },
    }
}

/// Finish a receive that had blocked: put the message that woke the shard into its buffer.
/// Returns its length, or `u64::MAX` where none has arrived.
pub fn finish_recv(
    channels: &mut ChannelTable,
    user: &mut UserMemory,
    channel_id: usize,
    receiver: usize,
    buf_ptr: u64,
    max_len: u64,
) -> (r: u64)
    requires
        old(channels).wf(),
        old(user).wf(),
        usable(old(channels)@, channel_id as int, receiver),
        fillable(buf_ptr, max_len),
    ensures
        final(channels).wf(),
        final(user).wf(),
        final(user).code@ == old(user).code@,
        ({
            let cs = old(channels)@;
            let ch = channel_id as int;
            let ep = endpoint(cs[ch], receiver)->0;
            let data = cut(cs[ch].inbox[ep], max_len as int);
            if cs[ch].inbox[ep].len() > 0 {
                &&& r == data.len()
                &&& final(user).stack@ == replaced(old(user).stack@, buf_ptr - STACK_START, data)
                &&& final(channels)@ == with_message(cs, ch, ep, Seq::<u8>::empty())
            } else {
                r == u64::MAX && final(user).stack@ == old(user).stack@ && final(channels)@ == cs
            }
        }),
{
    match recv_resumed(channels, channel_id, receiver, max_len as usize) {
        Some(v) => {
            user.write(buf_ptr, v.as_slice(), v.len());
            assert(v@.take(v@.len() as int) =~= v@);
            v.len() as u64
        },
        None => u64::MAX,
    }
}

/// Whether the call ends with the value.
pub open spec fn gives(r: &Outcome, v: int) -> bool {
    r matches Outcome::Value(x) && *x == v
}

/// What the capability calls do.
pub open spec fn cap_effect(
    s: &Supervisor,
    s2: &Supervisor,
    r: &Outcome,
    nr: u64,
    a0: u64,
    a1: u64,
    a2: u64,
) -> bool {
    let t = s.table@;
    let t2 = s2.table@;
    let id = s.caller() as int;
    let c = t[id].caps@[a0 as int];
    &&& s2.same_but_shards(s)
    &&& s2.table.current == s.table.current
    &&& if nr == SYS_CAP_GRANT {
        let h = first_empty(t[a1 as int].caps@, 0);
        if a0 < MAX_CAPS_PER_SHARD && a1 < MAX_SHARDS && grantable(c) && h < MAX_CAPS_PER_SHARD {
            &&& gives(r, h)
            &&& with_cap(
                t,
                t2,
                a1 as int,
                h,
                (CapEntry { rights: c.rights & ((a2 % 0x1_0000) as u16), ..c }),
            )
        } else {
            gives(r, u64::MAX as int) && t2 == t
        }
    } else if nr == SYS_CAP_INSPECT {
        &&& t2 == t
        &&& gives(
            r,
            if handle_ok(t, id, a0 as int) {
                packed(c)
            } else {
                u64::MAX as int
            },
        )
    } else if !handle_ok(t, id, a0 as int) {
        gives(r, u64::MAX as int) && t2 == t
    } else if nr == SYS_CAP_REVOKE {
        gives(r, 0) && with_cap(t, t2, id, a0 as int, CapEntry::spec_empty())
    } else {
        gives(r, 0) && with_cap(
            t,
            t2,
            id,
            a0 as int,
            (CapEntry { rights: c.rights & ((a1 % 0x1_0000) as u16), ..c }),
        )
    }
}

/// The calls on the current shard's capabilities.
fn sys_cap(s: &mut Supervisor, nr: u64, a0: u64, a1: u64, a2: u64) -> (r: Outcome)
    requires
        old(s).wf(),
        old(s).table.current is Some,
        nr == SYS_CAP_GRANT || nr == SYS_CAP_REVOKE || nr == SYS_CAP_RESTRICT || nr
            == SYS_CAP_INSPECT,
    ensures
        final(s).wf(),
        cap_effect(old(s), final(s), &r, nr, a0, a1, a2),
{
    let caller: usize = match s.table.current {
        Some(id) => id,
        None => {
            return Outcome::Value(u64::MAX);
        },
    };
    let ghost t0 = s.table@;
    let handle: usize = index(a0);
    let v: u64 = if nr == SYS_CAP_GRANT {
        grant_copy(&mut s.table, caller, handle, index(a1), (a2 % 0x1_0000) as u16)
    } else if nr == SYS_CAP_REVOKE {
        revoke(&mut s.table, caller, handle)
    } else if nr == SYS_CAP_RESTRICT {
        restrict(&mut s.table, caller, handle, (a1 % 0x1_0000) as u16)
    } else {
        inspect(&s.table, caller, handle)
    };
    proof {
        lemma_isolated_same(t0, s.table@, s.mem@, s.frames@);
    }
    Outcome::Value(v)
}

/// What the file calls do.
pub open spec fn fs_effect(
    s: &Supervisor,
    s2: &Supervisor,
    user: &UserMemory,
    user2: &UserMemory,
    fs: Option<&Ext2Fs<'_>>,
    r: &Outcome,
    nr: u64,
    a0: u64,
    a1: u64,
    a2: u64,
) -> bool {
    let f = s.files@;
    let f2 = s2.files@;
    let id = s.caller();
    let file = f[a0 as int];
    &&& s2.same_shards(s)
    &&& s2.channels@ == s.channels@ && s2.gpu@ == s.gpu@ && s2.frames@ == s.frames@ && s2.mem@
        == s.mem@
    &&& user2.code@ == user.code@
    &&& nr != SYS_FS_READ ==> user2.stack@ == user.stack@
    &&& match fs {
        None => gives(r, u64::MAX as int) && f2 == f && user2.stack@ == user.stack@,
        Some(fs) => if nr == SYS_FS_OPEN {
            let found = opened(*fs, user.bytes(a0, a1));
            let fd = first_unused(f, 0);
            if a1 <= MAX_PATH_LEN && readable(a0, a1) && found is Some && fd < MAX_OPEN_FILES {
                &&& gives(r, fd)
                &&& f2 == f.update(
                    fd,
                    OpenFile {
                        active: true,
                        shard_id: id,
                        inode_nr: found->0 as u32,
                        size: le32(fs.data@, inode_at(*fs, found->0) + 4) as u32,
                        offset: 0,
                    },
                )
            } else {
                gives(r, u64::MAX as int) && f2 == f
            }
        } else if nr == SYS_FS_READ {
            if owned(f, a0, id) && fillable(a1, a2) && has_inode(*fs, file.inode_nr as int) {
                let i = inode_view(fs.data@, inode_at(*fs, file.inode_nr as int));
                let data = read_bytes(*fs, i, file.offset as int, a2 as int);
                &&& gives(r, data.len() as int)
                &&& user2.stack@ == replaced(user.stack@, a1 - STACK_START, data)
                &&& f2 == f.update(
                    a0 as int,
                    OpenFile { offset: (file.offset + data.len()) as u32, ..file },
                )
            } else {
                gives(r, u64::MAX as int) && f2 == f && user2.stack@ == user.stack@
            }
        } else if !owned(f, a0, id) {
            gives(r, u64::MAX as int) && f2 == f
        } else if nr == SYS_FS_STAT {
            gives(r, file.size as int) && f2 == f
        } else {
            gives(r, 0) && f2 == f.update(a0 as int, OpenFile::spec_closed())
        },
    }
}

/// The calls on files.
fn sys_fs(
    s: &mut Supervisor,
    user: &mut UserMemory,
    fs: Option<&Ext2Fs<'_>>,
    nr: u64,
    a0: u64,
    a1: u64,
    a2: u64,
) -> (r: Outcome)
    requires
        old(s).wf(),
        old(s).table.current is Some,
        old(user).wf(),
        fs matches Some(f) ==> f.wf(),
        nr == SYS_FS_OPEN || nr == SYS_FS_READ || nr == SYS_FS_STAT || nr == SYS_FS_CLOSE,
    ensures
        final(s).wf(),
        final(user).wf(),
        fs_effect(old(s), final(s), old(user), final(user), fs, &r, nr, a0, a1, a2),
{
    let caller: usize = match s.table.current {
        Some(id) => id,
        None => {
            return Outcome::Value(u64::MAX);
        },
    };
    let v: u64 = match fs {
        None => u64::MAX,
        Some(fs) => {
            if nr == SYS_FS_OPEN {
                handle_fs_open(&mut s.files, fs, user, caller, a0, a1)
            } else if nr == SYS_FS_READ {
                handle_fs_read(&mut s.files, fs, user, caller, a0, a1, a2)
            } else if nr == SYS_FS_STAT {
                handle_fs_stat(&s.files, caller, a0)
            } else {
                handle_fs_close(&mut s.files, caller, a0)
            }
        },
    };
    Outcome::Value(v)
}

/// What the GPU calls do.
pub open spec fn gpu_effect(
    s: &Supervisor,
    s2: &Supervisor,
    vram: Seq<u8>,
    vram2: Seq<u8>,
    r: &Outcome,
    nr: u64,
    a0: u64,
    a1: u64,
    a2: u64,
) -> bool {
    let t = s.table@;
    let id = s.caller() as int;
    let ps = s.gpu@;
    &&& s2.same_but_shards(s)
    &&& s2.table.current == s.table.current
    &&& nr != SYS_GPU_DMA ==> vram2 == vram
    &&& if nr == SYS_GPU_PLEDGE {
        gives(r, 0) && s2.table@ == pledged(t, id, a0)
    } else if nr == SYS_GPU_UNVEIL {
        if unveil_ok(ps, t, id, a0, a1) {
            &&& gives(r, 0)
            &&& s2.table@ == t.update(
                id,
                ShardDescriptor { vram_unveil_offset: a0, vram_unveil_size: a1, ..t[id] },
            )
        } else {
            gives(r, u64::MAX as int) && s2.table@ == t
        }
    } else {
        let dst = a2 as int / 0x1_0000_0000;
        let len = a2 as int % 0x1_0000_0000;
        &&& s2.table@ == t
        &&& if dma_ok(ps, t, vram.len() as int, s.caller(), a0 as int, a1 as int, dst, len) {
            &&& gives(r, 0)
            &&& vram2 == copied(
                vram,
                ps[first_owned(ps, s.caller(), 0)].vram_offset + a1,
                ps[a0 as int].vram_offset + dst,
                len,
            )
        } else {
            gives(r, u64::MAX as int) && vram2 == vram
        }
    }
}

/// The calls on the GPU.
fn sys_gpu(s: &mut Supervisor, vram: &mut [u8], nr: u64, a0: u64, a1: u64, a2: u64) -> (r: Outcome)
    requires
        old(s).wf(),
        old(s).table.current is Some,
        old(vram)@.len() == 0 || partitions_within(old(s).gpu@, old(vram)@.len() as int),
        nr == SYS_GPU_PLEDGE || nr == SYS_GPU_UNVEIL || nr == SYS_GPU_DMA,
    ensures
        final(s).wf(),
        gpu_effect(old(s), final(s), old(vram)@, final(vram)@, &r, nr, a0, a1, a2),
{
    let ghost t0 = s.table@;
    let v: u64 = if nr == SYS_GPU_PLEDGE {
        handle_gpu_pledge(&mut s.table, a0)
    } else if nr == SYS_GPU_UNVEIL {
        handle_gpu_unveil(&s.gpu, &mut s.table, a0, a1)
    } else {
        handle_dma(&s.gpu, &s.table, vram, a0, a1, a2)
    };
    proof {
        lemma_isolated_same(t0, s.table@, s.mem@, s.frames@);
    }
    Outcome::Value(v)
}

/// What a request for data pages does.
pub open spec fn mmap_effect(s: &Supervisor, s2: &Supervisor, r: &Outcome, a0: u64, a1: u64) -> bool {
    let t = s.table@;
    let id = s.caller() as int;
    let d = t[id];
    let d2 = s2.table@[id];
    &&& s2.channels@ == s.channels@ && s2.files@ == s.files@ && s2.gpu@ == s.gpu@
    &&& s2.table.current == s.table.current
    &&& if mmap_ok(d, s.mem@, s.frames@, a0, a1) {
        &&& gives(r, 0)
        &&& s2.table@ == t.update(id, d2)
        &&& d2 == (ShardDescriptor {
            allocated_frames: d2.allocated_frames,
            frame_count: (d.frame_count + a1) as usize,
            ..d
        })
        &&& space_grown(s.mem@, s2.mem@, s.frames@, s2.frames@, d.frames(), d2.frames())
        &&& data_mapped(
            s.mem@,
            s2.mem@,
            d.pml4_phys,
            d2.frames(),
            d.frame_count as int,
            a0,
            a1 as int,
        )
    } else {
        gives(r, u64::MAX as int) && s2.same(s)
    }
}

/// What a system call does, whichever it is.
pub open spec fn effect(
    s: &Supervisor,
    s2: &Supervisor,
    user: &UserMemory,
    user2: &UserMemory,
    vram: Seq<u8>,
    vram2: Seq<u8>,
    fs: Option<&Ext2Fs<'_>>,
    r: &Outcome,
    nr: u64,
    a0: u64,
    a1: u64,
    a2: u64,
) -> bool {
    let t = s.table@;
    let id = s.caller() as int;
    &&& nr != SYS_GPU_DMA ==> vram2 == vram
    &&& nr != SYS_FS_READ && nr != SYS_CHANNEL_RECV ==> user2.code@ == user.code@ && user2.stack@
        == user.stack@
    &&& if !allowed(t[id].gpu_pledge, nr) {
        &&& gives(r, u64::MAX as int)
        &&& s2.same(s)
        &&& vram2 == vram
        &&& user2.code@ == user.code@ && user2.stack@ == user.stack@
    } else if nr == SYS_EXIT {
        &&& r is Exited
        &&& s2.same_but_shards(s)
        &&& s2.table.current is None
        &&& s2.table@ == t.update(
            id,
            ShardDescriptor { state: ShardState::Exited, exit_code: a0, ..t[id] },
        )
    } else if nr == SYS_YIELD {
        &&& r is Yielded
        &&& s2.same_but_shards(s)
        &&& s2.table.current == s.table.current
        &&& s2.table@ == yielded(t, s.table.current)
    } else if nr == SYS_SERIAL_WRITE {
        &&& s2.same(s)
        &&& if printable(a0, a1) {
            r matches Outcome::Print(v) && v@ == with_returns(user.bytes(a0, a1))
        } else {
            gives(r, u64::MAX as int)
        }
    } else if nr == SYS_CAP_GRANT || nr == SYS_CAP_REVOKE || nr == SYS_CAP_RESTRICT || nr
        == SYS_CAP_INSPECT {
        cap_effect(s, s2, r, nr, a0, a1, a2)
    } else if nr == SYS_CHANNEL_SEND {
        send_effect(s, s2, user, r, a0, a1, a2)
    } else if nr == SYS_CHANNEL_RECV {
        recv_effect(s, s2, user, user2, r, a0, a1, a2)
    } else if nr == SYS_FS_OPEN || nr == SYS_FS_READ || nr == SYS_FS_STAT || nr == SYS_FS_CLOSE {
        fs_effect(s, s2, user, user2, fs, r, nr, a0, a1, a2)
    } else if nr == SYS_GPU_PLEDGE || nr == SYS_GPU_UNVEIL || nr == SYS_GPU_DMA {
        gpu_effect(s, s2, vram, vram2, r, nr, a0, a1, a2)
    } else if nr == SYS_MMAP {
        mmap_effect(s, s2, r, a0, a1)
    } else {
        gives(r, u64::MAX as int) && s2.same(s)
    }
}

/// Perform system call number `nr` for the current shard. A call that the shard's pledge
/// does not allow, or that there is none of, returns `u64::MAX`.
pub fn syscall_dispatch(
    s: &mut Supervisor,
    user: &mut UserMemory,
    vram: &mut [u8],
    fs: Option<&Ext2Fs<'_>>,
    nr: u64,
    a0: u64,
    a1: u64,
    a2: u64,
) -> (r: Outcome)
    requires
        old(s).wf(),
        old(s).table.current is Some,
        old(user).wf(),
        fs matches Some(f) ==> f.wf(),
        old(vram)@.len() == 0 || partitions_within(old(s).gpu@, old(vram)@.len() as int),
    ensures
        final(s).wf(),
        final(user).wf(),
        effect(
            old(s),
            final(s),
            old(user),
            final(user),
            old(vram)@,
            final(vram)@,
            fs,
            &r,
            nr,
            a0,
            a1,
            a2,
        ),
{
    let caller: usize = match s.table.current {
        Some(id) => id,
        None => {
            return Outcome::Value(u64::MAX);
        },
    };
    let ghost t0 = s.table@;
    if !pledge_allows(s.table.shards[caller].gpu_pledge, nr) {
        return Outcome::Value(u64::MAX);
    }
    if nr == SYS_EXIT {
        handle_sys_exit(&mut s.table, a0);
        proof {
            lemma_isolated_same(t0, s.table@, s.mem@, s.frames@);
        }
        Outcome::Exited
    } else if nr == SYS_YIELD {
        handle_sys_yield(&mut s.table);
        proof {
            lemma_isolated_same(t0, s.table@, s.mem@, s.frames@);
        }
        Outcome::Yielded
    } else if nr == SYS_SERIAL_WRITE {
        match handle_serial_write(user, a0, a1) {
            Some(v) => Outcome::Print(v),
            None => Outcome::Value(u64::MAX),
        }
    } else if nr == SYS_CAP_GRANT || nr == SYS_CAP_REVOKE || nr == SYS_CAP_RESTRICT || nr
        == SYS_CAP_INSPECT {
        sys_cap(s, nr, a0, a1, a2)
    } else if nr == SYS_CHANNEL_SEND {
        sys_channel_send(s, user, a0, a1, a2)
    } else if nr == SYS_CHANNEL_RECV {
        sys_channel_recv(s, user, a0, a1, a2)
    } else if nr == SYS_FS_OPEN || nr == SYS_FS_READ || nr == SYS_FS_STAT || nr == SYS_FS_CLOSE {
        sys_fs(s, user, fs, nr, a0, a1, a2)
    } else if nr == SYS_GPU_PLEDGE || nr == SYS_GPU_UNVEIL || nr == SYS_GPU_DMA {
        sys_gpu(s, vram, nr, a0, a1, a2)
    } else if nr == SYS_MMAP {
        let v: u64 = handle_mmap(&mut s.table, &mut s.frames, &mut s.mem, a0, a1);
        Outcome::Value(v)
    } else {
        Outcome::Value(u64::MAX)
    }
}

// ---------------------------------------------------------------------------
// Laws
// ---------------------------------------------------------------------------

/// A shard cannot win back what it has given up: what a pledge does not allow stays refused
/// after any further pledge.
pub proof fn law_refused_stays_refused(pledge: u64, mask: u64, nr: u64)
    requires
        !allowed(pledge, nr),
    ensures
        !allowed(pledge & mask, nr),
{
    assert(forall|c: u64| pledge & c == 0 ==> #[trigger] (pledge & mask & c) == 0) by (bit_vector);
    assert(pledge & mask == u64::MAX ==> pledge == u64::MAX) by (bit_vector);
}

/// A shard can always end, whatever it has pledged.
pub proof fn law_exit_always_allowed(pledge: u64)
    ensures
        allowed(pledge, SYS_EXIT),
        allowed(pledge, SYS_YIELD),
{
}

/// Without the capability no message is sent, and none is received.
pub proof fn law_channels_need_capability(
    s: &Supervisor,
    s2: &Supervisor,
    user: &UserMemory,
    user2: &UserMemory,
    r: &Outcome,
    a0: u64,
    a1: u64,
    a2: u64,
)
    requires
        send_effect(s, s2, user, r, a0, a1, a2) && !may_use(
            s.table@[s.caller() as int],
            a0,
            RIGHT_CHANNEL_SEND,
        ) || recv_effect(s, s2, user, user2, r, a0, a1, a2) && !may_use(
            s.table@[s.caller() as int],
            a0,
            RIGHT_CHANNEL_RECV,
        ),
    ensures
        gives(r, u64::MAX as int),
        s2.same(s),
{
}

/// Messages arrive: what a shard has sent, the shard at the other end receives, the same
/// bytes and once, unless another message was sent to it in between. A message that is
/// longer than the buffer is cut.
pub proof fn law_send_then_receive(
    s: &Supervisor,
    s2: &Supervisor,
    user: &UserMemory,
    r: &Outcome,
    channel: u64,
    ptr: u64,
    len: u64,
    s3: &Supervisor,
    s4: &Supervisor,
    user3: &UserMemory,
    user4: &UserMemory,
    r4: &Outcome,
    ptr4: u64,
    max_len: u64,
)
    requires
        user.wf(),
        send_effect(s, s2, user, r, channel, ptr, len),
        gives(r, 0),
        s3.channels@ == s2.channels@,
        s3.caller() != s.caller(),
        usable(s3.channels@, channel as int, s3.caller()),
        may_use(s3.table@[s3.caller() as int], channel, RIGHT_CHANNEL_RECV),
        fillable(ptr4, max_len),
        recv_effect(s3, s4, user3, user4, r4, channel, ptr4, max_len),
    ensures
        gives(r4, if len <= max_len { len as int } else { max_len as int }),
        user4.stack@ == replaced(
            user3.stack@,
            ptr4 - STACK_START,
            cut(user.bytes(ptr, len), max_len as int),
        ),
        len <= max_len ==> cut(user.bytes(ptr, len), max_len as int) == user.bytes(ptr, len),
        s4.channels@[channel as int].inbox[endpoint(
            s3.channels@[channel as int],
            s3.caller(),
        )->0].len() == 0,
{
    s.channels.lemma_shape();
    let ch = channel as int;
    let data = user.bytes(ptr, len);
    assert(data.len() == len);
}

/// Whether `c` is a capability on what `a` is one on, with no more rights.
pub open spec fn stems_from(a: CapEntry, c: CapEntry) -> bool {
    &&& a.valid
    &&& c.cap_type == a.cap_type
    &&& c.resource_id == a.resource_id
    &&& c.rights & !a.rights == 0
}

/// Whether some shard holds a capability that `c` stems from.
pub open spec fn derived(t: Seq<ShardDescriptor>, c: CapEntry) -> bool {
    exists|j: int, k: int|
        0 <= j < MAX_SHARDS && 0 <= k < MAX_CAPS_PER_SHARD && #[trigger] stems_from(
            t[j].caps@[k],
            c,
        )
}

/// Capabilities cannot be forged: whatever a shard asks for, each capability that anyone
/// holds afterwards stems from one that was held before.
pub proof fn law_no_forged_capability(
    s: &Supervisor,
    s2: &Supervisor,
    user: &UserMemory,
    user2: &UserMemory,
    vram: Seq<u8>,
    vram2: Seq<u8>,
    fs: Option<&Ext2Fs<'_>>,
    r: &Outcome,
    nr: u64,
    a0: u64,
    a1: u64,
    a2: u64,
    i: int,
    h: int,
)
    requires
        s.wf(),
        s.table.current is Some,
        effect(s, s2, user, user2, vram, vram2, fs, r, nr, a0, a1, a2),
        0 <= i < MAX_SHARDS,
        0 <= h < MAX_CAPS_PER_SHARD,
        s2.table@[i].caps@[h].valid,
    ensures
        derived(s.table@, s2.table@[i].caps@[h]),
{
    let t = s.table@;
    let t2 = s2.table@;
    let id = s.caller() as int;
    let c2 = t2[i].caps@[h];
    let r2 = c2.rights;
    assert(r2 & !r2 == 0) by (bit_vector);
    if t2[i].caps@[h] == t[i].caps@[h] {
        assert(stems_from(t[i].caps@[h], c2));
    } else {
        let c = t[id].caps@[a0 as int];
        let old_rights = c.rights;
        let n = if nr == SYS_CAP_GRANT {
            (a2 % 0x1_0000) as u16
        } else {
            (a1 % 0x1_0000) as u16
        };
        assert((old_rights & n) & !old_rights == 0) by (bit_vector);
        assert(stems_from(t[id].caps@[a0 as int], c2));
    }
}

/// No system call changes a frame or a page table of another shard.
pub proof fn law_calls_keep_other_memory(
    s: &Supervisor,
    s2: &Supervisor,
    user: &UserMemory,
    user2: &UserMemory,
    vram: Seq<u8>,
    vram2: Seq<u8>,
    fs: Option<&Ext2Fs<'_>>,
    r: &Outcome,
    nr: u64,
    a0: u64,
    a1: u64,
    a2: u64,
    i: int,
    frame: u64,
)
    requires
        s.wf(),
        s.table.current is Some,
        effect(s, s2, user, user2, vram, vram2, fs, r, nr, a0, a1, a2),
        0 <= i < MAX_SHARDS,
        i != s.caller(),
        s.table@[i].live(),
        claimed(s.mem@, s.table@[i].frames()).contains(frame),
    ensures
        same_frame(s.mem@, s2.mem@, frame),
{
    let t = s.table@;
    let m = s.mem@;
    let v = s.frames@;
    let id = s.caller() as int;
    let mine = claimed(m, t[id].frames());
    assert(shard_wf(t[i], m, v) && shard_wf(t[id], m, v) && claimed(m, t[i].frames()).disjoint(
        mine,
    )) by {
        reveal(isolated);
    }
    lemma_claimed(m, v, t[i].frames());
    lemma_claimed(m, v, t[id].frames());
    if s2.mem@ != m {
        assert forall|w: int| in_frame(w, frame) implies #[trigger] s2.mem@[w] == m[w] by {
            lemma_free_frame_apart(m, v, frame, w);
            reveal(space_grown);
            if in_frames(mine, w) {
                let y = choose|y: u64| mine.contains(y) && #[trigger] in_frame(w, y);
                lemma_frames_apart(m, frame, y, w);
            }
        }
    }
}

/// Whatever a shard asks for, every shard stays confined to its own frames and devices, and
/// the supervisor's half of the address space stays in order and out of reach.
pub proof fn law_calls_keep_confinement(
    s: &Supervisor,
    s2: &Supervisor,
    user: &UserMemory,
    user2: &UserMemory,
    vram: Seq<u8>,
    vram2: Seq<u8>,
    fs: Option<&Ext2Fs<'_>>,
    r: &Outcome,
    nr: u64,
    a0: u64,
    a1: u64,
    a2: u64,
    sup: u64,
    devices: Seq<Seq<DeviceRange>>,
)
    requires
        s.wf(),
        s2.wf(),
        s.table.current is Some,
        effect(s, s2, user, user2, vram, vram2, fs, r, nr, a0, a1, a2),
        kernel_ok(s.table@, s.mem@, s.frames@, sup),
        all_confined(s.table@, s.mem@, devices),
    ensures
        kernel_ok(s2.table@, s2.mem@, s2.frames@, sup),
        all_confined(s2.table@, s2.mem@, devices),
{
    let t = s.table@;
    let id = s.caller() as int;
    if allowed(t[id].gpu_pledge, nr) && nr == SYS_MMAP && mmap_ok(t[id], s.mem@, s.frames@, a0, a1) {
        s2.frames.lemma_wf();
        law_data_confined(
            t,
            s.mem@,
            s2.mem@,
            s.frames@,
            s2.frames@,
            sup,
            id,
            s2.table@[id],
            a0,
            a1 as int,
            devices,
        );
    } else {
        assert(s2.mem@ == s.mem@ && s2.frames@ == s.frames@);
        assert forall|i: int| 0 <= i < t.len() implies (#[trigger] s2.table@[i]).live()
            == t[i].live() && s2.table@[i].frames() == t[i].frames() && s2.table@[i].pml4_phys
            == t[i].pml4_phys by {}
        lemma_kernel_same(t, s2.table@, s.mem@, s.frames@, sup);
        lemma_confined_same(t, s2.table@, s.mem@, devices);
    }
}

/// Without the capability for a partition, nothing is copied there.
pub proof fn law_copies_need_capability(
    s: &Supervisor,
    s2: &Supervisor,
    vram: Seq<u8>,
    vram2: Seq<u8>,
    r: &Outcome,
    target: u64,
    src: u64,
    packed_dst_len: u64,
)
    requires
        gpu_effect(s, s2, vram, vram2, r, SYS_GPU_DMA, target, src, packed_dst_len),
        !holds(s.table@[s.caller() as int], CAP_GPU_DMA, target as u32, RIGHT_GPU_DMA_WRITE),
    ensures
        gives(r, u64::MAX as int),
        vram2 == vram,
{
}

/// A system call changes no byte of video memory outside the partition that it names.
pub proof fn law_calls_keep_other_partitions(
    s: &Supervisor,
    s2: &Supervisor,
    user: &UserMemory,
    user2: &UserMemory,
    vram: Seq<u8>,
    vram2: Seq<u8>,
    fs: Option<&Ext2Fs<'_>>,
    r: &Outcome,
    nr: u64,
    a0: u64,
    a1: u64,
    a2: u64,
    a: int,
)
    requires
        effect(s, s2, user, user2, vram, vram2, fs, r, nr, a0, a1, a2),
        0 <= a < vram.len(),
        a0 >= s.gpu@.len() || !s.gpu@[a0 as int].has(a),
    ensures
        vram2.len() == vram.len(),
        vram2[a] == vram[a],
{
    let dst = a2 as int / 0x1_0000_0000;
    let len = a2 as int % 0x1_0000_0000;
    if nr == SYS_GPU_DMA && dma_ok(
        s.gpu@,
        s.table@,
        vram.len() as int,
        s.caller(),
        a0 as int,
        a1 as int,
        dst,
        len,
    ) {
        law_dma_stays_in_target(
            s.gpu@,
            s.table@,
            vram,
            s.caller(),
            a0 as int,
            a1 as int,
            dst,
            len,
            a,
        );
    }
}

/// Each category by its own bit: printing, call 1, is allowed exactly with bit 0 of the
/// pledge; sending and receiving, calls 21 and 22, with bit 1; copies, call 40, with bit 2,
/// whatever the other bits are. To exit, to yield, to pledge and to unveil, calls 0, 62, 41
/// and 42, is always allowed, and any other call until the first pledge.
pub proof fn law_pledge_by_bits(pledge: u64, nr: u64)
    ensures
        allowed(pledge, 1) <==> pledge & 1 != 0,
        allowed(pledge, 21) <==> pledge & 2 != 0,
        allowed(pledge, 22) <==> pledge & 2 != 0,
        allowed(pledge, 40) <==> pledge & 4 != 0,
        allowed(pledge, 0) && allowed(pledge, 62) && allowed(pledge, 41) && allowed(pledge, 42),
        nr != 0 && nr != 1 && nr != 21 && nr != 22 && nr != 40 && nr != 41 && nr != 42 && nr != 62
            ==> (allowed(pledge, nr) <==> pledge == 0xFFFF_FFFF_FFFF_FFFF),
{
}

/// A pledge keeps a category exactly where it was kept before and the mask names it, and
/// the categories do not touch each other.
pub proof fn law_pledge_keeps_by_bits(pledge: u64, mask: u64)
    ensures
        allowed(pledge & mask, 1) <==> allowed(pledge, 1) && mask & 1 != 0,
        allowed(pledge & mask, 21) <==> allowed(pledge, 21) && mask & 2 != 0,
        allowed(pledge & mask, 22) <==> allowed(pledge, 22) && mask & 2 != 0,
        allowed(pledge & mask, 40) <==> allowed(pledge, 40) && mask & 4 != 0,
{
    assert(((pledge & mask) & 1 != 0 <==> pledge & 1 != 0 && mask & 1 != 0) && ((pledge & mask) & 2
        != 0 <==> pledge & 2 != 0 && mask & 2 != 0) && ((pledge & mask) & 4 != 0 <==> pledge & 4
        != 0 && mask & 4 != 0)) by (bit_vector);
}

} // verus!
