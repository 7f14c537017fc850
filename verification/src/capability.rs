//! Capabilities: tokens for access control that only the supervisor can make.
//!
//! Each shard has a capability table of fixed size. User code refers to a capability by
//! its handle, the number of its slot; the supervisor looks it up on every privileged
//! operation.

use vstd::prelude::*;

use crate::shard::{CapEntry, ShardDescriptor, ShardTable, MAX_CAPS_PER_SHARD, MAX_SHARDS};
use crate::shared::{CAP_CHANNEL, RIGHT_CHANNEL_GRANT, RIGHT_CHANNEL_RECV, RIGHT_CHANNEL_SEND};

verus! {

/// The first slot without a capability from number `i` on.
pub open spec fn first_empty(caps: Seq<CapEntry>, i: int) -> int
    decreases caps.len() - i,
{
    if i >= caps.len() || !caps[i].valid {
        i
    } else {
        first_empty(caps, i + 1)
    }
}

/// Whether all rights in `required` are among `rights`.
pub open spec fn covers(rights: u16, required: u16) -> bool {
    rights & required == required
}

/// Whether the capability is for the given resource and covers the given rights.
pub open spec fn permits(c: CapEntry, cap_type: u8, resource_id: u32, required: u16) -> bool {
    &&& c.valid
    &&& c.cap_type == cap_type
    &&& c.resource_id == resource_id
    &&& covers(c.rights, required)
}

/// Whether the shard holds a capability for the given resource that covers the rights.
pub open spec fn holds(s: ShardDescriptor, cap_type: u8, resource_id: u32, required: u16) -> bool {
    exists|i: int|
        0 <= i < MAX_CAPS_PER_SHARD && permits(
            #[trigger] s.caps@[i],
            cap_type,
            resource_id,
            required,
        )
}

/// The shard table with slot `h` of the capability table of shard `id` set to `c`.
pub open spec fn with_cap(
    t: Seq<ShardDescriptor>,
    t2: Seq<ShardDescriptor>,
    id: int,
    h: int,
    c: CapEntry,
) -> bool {
    &&& t2 == t.update(id, t2[id])
    &&& t2[id] == (ShardDescriptor { caps: t2[id].caps, ..t[id] })
    &&& t2[id].caps@ == t[id].caps@.update(h, c)
}

/// Whether there is a capability at this handle.
pub open spec fn handle_ok(t: Seq<ShardDescriptor>, id: int, h: int) -> bool {
    id < MAX_SHARDS && h < MAX_CAPS_PER_SHARD && t[id].caps@[h].valid
}

/// Put a capability into the first free slot of a shard's table. The result is its handle;
/// there is none, and nothing changes, where the table is full.
pub fn grant_to_shard(
    table: &mut ShardTable,
    shard_id: usize,
    cap_type: u8,
    resource_id: u32,
    rights: u16,
) -> (r: Option<usize>)
    requires
        old(table).wf(),
        shard_id < MAX_SHARDS,
    ensures
        final(table).wf(),
        final(table).current == old(table).current,
        ({
            let h = first_empty(old(table)@[shard_id as int].caps@, 0);
            &&& r is Some <==> h < MAX_CAPS_PER_SHARD
            &&& match r {
                None => final(table)@ == old(table)@,
                Some(handle) => handle == h && with_cap(
                    old(table)@,
                    final(table)@,
                    shard_id as int,
                    h,
                    (CapEntry { valid: true, cap_type, resource_id, rights }),
                ),
            }
        }),
{
    let ghost caps = table@[shard_id as int].caps@;
    let mut i: usize = 0;
    while i < MAX_CAPS_PER_SHARD
        invariant
            i <= MAX_CAPS_PER_SHARD,
            table.wf(),
            shard_id < MAX_SHARDS,
            *table == *old(table),
            caps == table@[shard_id as int].caps@,
            caps.len() == MAX_CAPS_PER_SHARD,
            first_empty(caps, i as int) == first_empty(caps, 0),
        decreases MAX_CAPS_PER_SHARD - i,
    {
        if !table.shards[shard_id].caps[i].valid {
            table.shards[shard_id].caps[i] = CapEntry { valid: true, cap_type, resource_id, rights };
            assert(table@ =~= old(table)@.update(shard_id as int, table@[shard_id as int]));
            return Some(i);
        }
        i += 1;
    }
    None
}

/// Check whether a shard holds a capability matching the given type, resource and rights.
pub fn check(
    table: &ShardTable,
    shard_id: usize,
    cap_type: u8,
    resource_id: u32,
    required_rights: u16,
) -> (r: bool)
    requires
        table.wf(),
    ensures
        r == (shard_id < MAX_SHARDS && holds(
            table@[shard_id as int],
            cap_type,
            resource_id,
            required_rights,
        )),
{
    if shard_id >= MAX_SHARDS {
        return false;
    }
    let mut i: usize = 0;
    while i < MAX_CAPS_PER_SHARD
        invariant
            i <= MAX_CAPS_PER_SHARD,
            table.wf(),
            shard_id < MAX_SHARDS,
            forall|k: int|
                0 <= k < i ==> !permits(
                    #[trigger] table@[shard_id as int].caps@[k],
                    cap_type,
                    resource_id,
                    required_rights,
                ),
        decreases MAX_CAPS_PER_SHARD - i,
    {
        let cap = table.shards[shard_id].caps[i];
        if cap.valid && cap.cap_type == cap_type && cap.resource_id == resource_id && (cap.rights
            & required_rights) == required_rights {
            assert(permits(
                table@[shard_id as int].caps@[i as int],
                cap_type,
                resource_id,
                required_rights,
            ));
            return true;
        }
        i += 1;
    }
    false
}

/// Revoke a capability by handle. Returns 0, or `u64::MAX` where there is none.
pub fn revoke(table: &mut ShardTable, shard_id: usize, handle: usize) -> (r: u64)
    requires
        old(table).wf(),
    ensures
        final(table).wf(),
        final(table).current == old(table).current,
        r == (if handle_ok(old(table)@, shard_id as int, handle as int) {
            0
        } else {
            u64::MAX
        }),
        if r == 0 {
            with_cap(
                old(table)@,
                final(table)@,
                shard_id as int,
                handle as int,
                CapEntry::spec_empty(),
            )
        } else {
            final(table)@ == old(table)@
        },
{
    if shard_id >= MAX_SHARDS || handle >= MAX_CAPS_PER_SHARD {
        return u64::MAX;
    }
    if !table.shards[shard_id].caps[handle].valid {
        return u64::MAX;
    }
    table.shards[shard_id].caps[handle] = CapEntry::empty();
    assert(table@ =~= old(table)@.update(shard_id as int, table@[shard_id as int]));
    0
}

/// Restrict the rights of a capability to those in `new_rights`. Returns 0, or `u64::MAX`
/// where there is none.
pub fn restrict(table: &mut ShardTable, shard_id: usize, handle: usize, new_rights: u16) -> (r: u64)
    requires
        old(table).wf(),
    ensures
        final(table).wf(),
        final(table).current == old(table).current,
        r == (if handle_ok(old(table)@, shard_id as int, handle as int) {
            0
        } else {
            u64::MAX
        }),
        if r == 0 {
            let c = old(table)@[shard_id as int].caps@[handle as int];
            with_cap(
                old(table)@,
                final(table)@,
                shard_id as int,
                handle as int,
                (CapEntry { rights: c.rights & new_rights, ..c }),
            )
        } else {
            final(table)@ == old(table)@
        },
{
    if shard_id >= MAX_SHARDS || handle >= MAX_CAPS_PER_SHARD {
        return u64::MAX;
    }
    if !table.shards[shard_id].caps[handle].valid {
        return u64::MAX;
    }
    let rights: u16 = table.shards[shard_id].caps[handle].rights;
    table.shards[shard_id].caps[handle].rights = rights & new_rights;
    assert(table@ =~= old(table)@.update(shard_id as int, table@[shard_id as int]));
    0
}

/// Whether a capability may be copied to another shard.
pub open spec fn grantable(c: CapEntry) -> bool {
    c.valid && (c.cap_type == CAP_CHANNEL ==> c.rights & RIGHT_CHANNEL_GRANT != 0)
}

/// Copy a capability from one shard to another, with the rights that are both in the
/// capability and in `new_rights`. A channel capability can be copied only with the right
/// to grant. Returns the handle in the target's table, or `u64::MAX` on error.
pub fn grant_copy(
    table: &mut ShardTable,
    src_shard: usize,
    src_handle: usize,
    target_shard: usize,
    new_rights: u16,
) -> (r: u64)
    requires
        old(table).wf(),
    ensures
        final(table).wf(),
        final(table).current == old(table).current,
        ({
            let ok = src_shard < MAX_SHARDS && target_shard < MAX_SHARDS && src_handle
                < MAX_CAPS_PER_SHARD && grantable(
                old(table)@[src_shard as int].caps@[src_handle as int],
            ) && first_empty(old(table)@[target_shard as int].caps@, 0) < MAX_CAPS_PER_SHARD;
            if ok {
                let c = old(table)@[src_shard as int].caps@[src_handle as int];
                let h = first_empty(old(table)@[target_shard as int].caps@, 0);
                r == h && with_cap(
                    old(table)@,
                    final(table)@,
                    target_shard as int,
                    h,
                    (CapEntry { rights: c.rights & new_rights, ..c }),
                )
            } else {
                r == u64::MAX && final(table)@ == old(table)@
            }
        }),
{
    if src_shard >= MAX_SHARDS || target_shard >= MAX_SHARDS || src_handle >= MAX_CAPS_PER_SHARD {
        return u64::MAX;
    }
    let src_cap = table.shards[src_shard].caps[src_handle];
    if !src_cap.valid {
        return u64::MAX;
    }
    if src_cap.cap_type == CAP_CHANNEL && (src_cap.rights & RIGHT_CHANNEL_GRANT) == 0 {
        return u64::MAX;
    }
    let effective_rights: u16 = src_cap.rights & new_rights;
    match grant_to_shard(
        table,
        target_shard,
        src_cap.cap_type,
        src_cap.resource_id,
        effective_rights,
    ) {
        Some(handle) => handle as u64,
        None => u64::MAX,
    }
}

/// A capability as one number: type, resource and rights, from the high bits down.
pub open spec fn packed(c: CapEntry) -> int {
    c.cap_type * 0x1_0000_0000_0000 + c.resource_id * 0x1_0000 + c.rights
}

/// Inspect a capability by handle. Returns its type, resource and rights in one number, or
/// `u64::MAX` where there is none.
pub fn inspect(table: &ShardTable, shard_id: usize, handle: usize) -> (r: u64)
    requires
        table.wf(),
    ensures
        r == (if handle_ok(table@, shard_id as int, handle as int) {
            packed(table@[shard_id as int].caps@[handle as int])
        } else {
            u64::MAX as int
        }),
{
    if shard_id >= MAX_SHARDS || handle >= MAX_CAPS_PER_SHARD {
        return u64::MAX;
    }
    let cap = table.shards[shard_id].caps[handle];
    if !cap.valid {
        return u64::MAX;
    }
    proof {
        let (t, i, x) = (cap.cap_type, cap.resource_id, cap.rights);
        assert(((t as u64) << 48) | ((i as u64) << 16) | (x as u64) == (t as u64)
            * 0x1_0000_0000_0000 + (i as u64) * 0x1_0000 + (x as u64)) by (bit_vector);
    }
    ((cap.cap_type as u64) << 48) | ((cap.resource_id as u64) << 16) | (cap.rights as u64)
}

/// Clear all capabilities of a shard.
pub fn clear_shard(table: &mut ShardTable, shard_id: usize)
    requires
        old(table).wf(),
    ensures
        final(table).wf(),
        final(table).current == old(table).current,
        if shard_id < MAX_SHARDS {
            let s2 = final(table)@[shard_id as int];
            &&& final(table)@ == old(table)@.update(shard_id as int, s2)
            &&& s2 == (ShardDescriptor { caps: s2.caps, ..old(table)@[shard_id as int] })
            &&& forall|i: int|
                0 <= i < MAX_CAPS_PER_SHARD ==> #[trigger] s2.caps@[i] == CapEntry::spec_empty()
        } else {
            final(table)@ == old(table)@
        },
{
    if shard_id >= MAX_SHARDS {
        return ;
    }
    table.shards[shard_id].caps = [CapEntry::empty();MAX_CAPS_PER_SHARD];
    assert(table@ =~= old(table)@.update(shard_id as int, table@[shard_id as int]));
}

/// The name of a capability type.
pub open spec fn type_text(cap_type: u8) -> Seq<char> {
    match cap_type {
        1 => "CHANNEL"@,
        2 => "SHARD"@,
        3 => "MEMORY"@,
        4 => "GPU_DMA"@,
        _ => "UNKNOWN"@,
    }
}

/// The name of a capability type.
pub fn cap_type_name(cap_type: u8) -> (r: &'static str)
    ensures
        r@ == type_text(cap_type),
{
    match cap_type {
        1 => "CHANNEL",
        2 => "SHARD",
        3 => "MEMORY",
        4 => "GPU_DMA",
        _ => "UNKNOWN",
    }
}

/// The rights of a capability in words: the names of the channel rights, joined by bars.
pub open spec fn rights_text(cap_type: u8, rights: u16) -> Seq<char> {
    if cap_type != CAP_CHANNEL {
        "ALL"@
    } else {
        let send = rights & RIGHT_CHANNEL_SEND != 0;
        let recv = rights & RIGHT_CHANNEL_RECV != 0;
        let grant = rights & RIGHT_CHANNEL_GRANT != 0;
        if send && recv && grant {
            "SEND|RECV|GRANT"@
        } else if send && recv {
            "SEND|RECV"@
        } else if send && grant {
            "SEND|GRANT"@
        } else if recv && grant {
            "RECV|GRANT"@
        } else if send {
            "SEND"@
        } else if recv {
            "RECV"@
        } else if grant {
            "GRANT"@
        } else {
            "NONE"@
        }
    }
}

/// The rights of a capability in words.
pub fn format_channel_rights(cap_type: u8, rights: u16) -> (r: &'static str)
    ensures
        r@ == rights_text(cap_type, rights),
{
    if cap_type != CAP_CHANNEL {
        return "ALL";
    }
    let send = (rights & RIGHT_CHANNEL_SEND) != 0;
    let recv = (rights & RIGHT_CHANNEL_RECV) != 0;
    let grant = (rights & RIGHT_CHANNEL_GRANT) != 0;
    match (send, recv, grant) {
        (true, false, false) => "SEND",
        (false, true, false) => "RECV",
        (true, true, false) => "SEND|RECV",
        (true, false, true) => "SEND|GRANT",
        (false, true, true) => "RECV|GRANT",
        (true, true, true) => "SEND|RECV|GRANT",
        (false, false, true) => "GRANT",
        (false, false, false) => "NONE",
    }
}

// ---------------------------------------------------------------------------
// Laws
// ---------------------------------------------------------------------------

/// Restricting is monotonic: what the restricted rights cover, the rights before covered
/// and the new rights cover.
pub proof fn law_restrict_never_adds(rights: u16, new_rights: u16, required: u16)
    requires
        covers(rights & new_rights, required),
    ensures
        covers(rights, required),
        covers(new_rights, required),
{
    assert(rights & required == required && new_rights & required == required) by (bit_vector)
        requires
            (rights & new_rights) & required == required,
    ;
}

/// Copying a capability never escalates: whatever any shard may do after a copy, it or the
/// shard that gave the copy could do before.
pub proof fn law_grant_never_escalates(
    t: Seq<ShardDescriptor>,
    t2: Seq<ShardDescriptor>,
    src: int,
    src_handle: int,
    target: int,
    h: int,
    new_rights: u16,
    cap_type: u8,
    resource_id: u32,
    required: u16,
)
    requires
        t.len() == MAX_SHARDS,
        0 <= src < MAX_SHARDS,
        0 <= target < MAX_SHARDS,
        0 <= src_handle < MAX_CAPS_PER_SHARD,
        0 <= h < MAX_CAPS_PER_SHARD,
        t[src].caps@[src_handle].valid,
        ({
            let c = t[src].caps@[src_handle];
            with_cap(t, t2, target, h, (CapEntry { rights: c.rights & new_rights, ..c }))
        }),
        holds(t2[target], cap_type, resource_id, required),
    ensures
        holds(t[target], cap_type, resource_id, required) || holds(
            t[src],
            cap_type,
            resource_id,
            required,
        ),
{
    let c = t[src].caps@[src_handle];
    let i = choose|i: int|
        0 <= i < MAX_CAPS_PER_SHARD && permits(
            #[trigger] t2[target].caps@[i],
            cap_type,
            resource_id,
            required,
        );
    if i == h {
        law_restrict_never_adds(c.rights, new_rights, required);
        assert(permits(t[src].caps@[src_handle], cap_type, resource_id, required));
    } else {
        assert(permits(t[target].caps@[i], cap_type, resource_id, required));
    }
}

/// A channel capability without the right to grant stays with its shard, and so do all
/// that are restricted from it.
pub proof fn law_no_grant_stays(c: CapEntry, new_rights: u16)
    requires
        c.cap_type == CAP_CHANNEL,
        c.rights & RIGHT_CHANNEL_GRANT == 0,
    ensures
        !grantable(c),
        !grantable((CapEntry { rights: c.rights & new_rights, ..c })),
{
    let rights = c.rights;
    assert((rights & new_rights) & 4 == 0) by (bit_vector)
        requires
            rights & 4 == 0,
    ;
}

/// Type, resource and rights can be read back from the number that stands for them, and
/// that number is not the one for an error.
pub proof fn law_packed_round_trip(c: CapEntry)
    ensures
        packed(c) / 0x1_0000_0000_0000 == c.cap_type,
        packed(c) / 0x1_0000 % 0x1_0000_0000 == c.resource_id,
        packed(c) % 0x1_0000 == c.rights,
        packed(c) < u64::MAX,
{
}

/// After revoking, the handle gives nothing any more.
pub proof fn law_revoked_is_gone(
    t: Seq<ShardDescriptor>,
    t2: Seq<ShardDescriptor>,
    id: int,
    h: int,
)
    requires
        t.len() == MAX_SHARDS,
        0 <= id < MAX_SHARDS,
        0 <= h < MAX_CAPS_PER_SHARD,
        with_cap(t, t2, id, h, CapEntry::spec_empty()),
    ensures
        !handle_ok(t2, id, h),
        forall|cap_type: u8, resource_id: u32, required: u16|
            !permits(t2[id].caps@[h], cap_type, resource_id, required),
{
}

} // verus!
