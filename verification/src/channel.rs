//! Channels for synchronous message passing between shards.
//!
//! Each channel connects two shards. Messages of up to 256 bytes are single-buffered per
//! direction. Receiving from an empty channel blocks the calling shard until the other
//! endpoint sends.

use vstd::prelude::*;

use crate::shard::{ShardDescriptor, ShardState, ShardTable, MAX_SHARDS};

verus! {

/// Greatest length of a message.
pub const MAX_MSG_SIZE: usize = 256;

/// Number of channels.
pub const MAX_CHANNELS: usize = 4;

/// The message waiting for one endpoint; a length of zero stands for none.
#[derive(Debug, Clone, Copy)]
struct Inbox {
    buffer: [u8; MAX_MSG_SIZE],
    msg_len: usize,
}

impl Inbox {
    spec fn wf(&self) -> bool {
        self.msg_len <= MAX_MSG_SIZE
    }

    spec fn message(&self) -> Seq<u8> {
        self.buffer@.take(self.msg_len as int)
    }

    fn empty() -> (i: Inbox)
        ensures
            i.wf(),
            i.message() == Seq::<u8>::empty(),
    {
        let i = Inbox { buffer: [0u8;MAX_MSG_SIZE], msg_len: 0 };
        assert(i.message() =~= Seq::<u8>::empty());
        i
    }

    fn holding(data: &[u8]) -> (i: Inbox)
        requires
            data@.len() <= MAX_MSG_SIZE,
        ensures
            i.wf(),
            i.message() == data@,
    {
        let mut buffer: [u8; MAX_MSG_SIZE] = [0u8;MAX_MSG_SIZE];
        let mut k: usize = 0;
        while k < data.len()
            invariant
                k <= data@.len() <= MAX_MSG_SIZE,
                buffer@.len() == MAX_MSG_SIZE,
                forall|j: int| 0 <= j < k ==> #[trigger] buffer@[j] == data@[j],
            decreases data@.len() - k,
        {
            buffer[k] = data[k];
            k += 1;
        }
        let i = Inbox { buffer, msg_len: data.len() };
        assert(i.message() =~= data@);
        i
    }

    /// The first bytes of the message, at most `max_len` of them.
    fn copy_out(&self, max_len: usize) -> (v: Vec<u8>)
        requires
            self.wf(),
        ensures
            v@ == cut(self.message(), max_len as int),
    {
        let len: usize = if self.msg_len <= max_len {
            self.msg_len
        } else {
            max_len
        };
        let mut v: Vec<u8> = Vec::new();
        let mut k: usize = 0;
        while k < len
            invariant
                k <= len <= self.msg_len <= MAX_MSG_SIZE,
                v@ == self.message().take(k as int),
            decreases len - k,
        {
            v.push(self.buffer[k]);
            k += 1;
            assert(v@ =~= self.message().take(k as int));
        }
        assert(v@ =~= cut(self.message(), max_len as int));
        v
    }
}

#[derive(Debug, Clone, Copy)]
struct Channel {
    active: bool,
    /// The shards at the two endpoints.
    shard: [usize; 2],
    /// The message waiting for each endpoint.
    inbox: [Inbox; 2],
}

/// A channel: whether it is in use, the shards at its two endpoints, and the message
/// waiting for each of them, empty where there is none.
#[verifier::ext_equal]
pub struct ChannelView {
    pub active: bool,
    pub shard: Seq<usize>,
    pub inbox: Seq<Seq<u8>>,
}

impl Channel {
    spec fn wf(&self) -> bool {
        self.inbox@[0].wf() && self.inbox@[1].wf()
    }

    spec fn view(&self) -> ChannelView {
        ChannelView {
            active: self.active,
            shard: self.shard@,
            inbox: seq![self.inbox@[0].message(), self.inbox@[1].message()],
        }
    }

    /// Which endpoint a shard is on this channel.
    fn endpoint_of(&self, shard_id: usize) -> (r: Option<usize>)
        ensures
            match r {
                Some(ep) => endpoint(self.view(), shard_id) == Some(ep as int) && ep < 2,
                None => endpoint(self.view(), shard_id) is None,
            },
    {
        if self.shard[0] == shard_id {
            Some(0)
        } else if self.shard[1] == shard_id {
            Some(1)
        } else {
            None
        }
    }
}

/// The first bytes of a message, at most `max_len` of them.
pub open spec fn cut(msg: Seq<u8>, max_len: int) -> Seq<u8> {
    if msg.len() <= max_len {
        msg
    } else {
        msg.take(max_len)
    }
}

/// Which endpoint the shard is on the channel.
pub open spec fn endpoint(c: ChannelView, shard_id: usize) -> Option<int> {
    if c.shard[0] == shard_id {
        Some(0)
    } else if c.shard[1] == shard_id {
        Some(1)
    } else {
        None
    }
}

/// Whether the shard can use the channel.
pub open spec fn usable(cs: Seq<ChannelView>, channel_id: int, shard_id: usize) -> bool {
    &&& channel_id < MAX_CHANNELS
    &&& cs[channel_id].active
    &&& endpoint(cs[channel_id], shard_id) is Some
}

/// The channels with the message for endpoint `ep` of one channel replaced.
pub open spec fn with_message(
    cs: Seq<ChannelView>,
    channel_id: int,
    ep: int,
    msg: Seq<u8>,
) -> Seq<ChannelView> {
    cs.update(
        channel_id,
        ChannelView { inbox: cs[channel_id].inbox.update(ep, msg), ..cs[channel_id] },
    )
}

/// The shards with the one at `id` woken, if it is blocked on the channel.
pub open spec fn woken(t: Seq<ShardDescriptor>, id: usize, channel_id: usize) -> Seq<
    ShardDescriptor,
> {
    if id < MAX_SHARDS && t[id as int].state == ShardState::Blocked
        && t[id as int].blocked_on_channel == Some(channel_id) {
        t.update(
            id as int,
            ShardDescriptor {
                state: ShardState::Ready,
                blocked_on_channel: None,
                ..t[id as int]
            },
        )
    } else {
        t
    }
}

/// The shards with the one at `id` blocked on the channel.
pub open spec fn blocked(t: Seq<ShardDescriptor>, id: usize, channel_id: usize) -> Seq<
    ShardDescriptor,
> {
    t.update(
        id as int,
        ShardDescriptor {
            state: ShardState::Blocked,
            blocked_on_channel: Some(channel_id),
            ..t[id as int]
        },
    )
}

/// All channels.
pub struct ChannelTable {
    channels: [Channel; MAX_CHANNELS],
}

impl View for ChannelTable {
    type V = Seq<ChannelView>;

    closed spec fn view(&self) -> Seq<ChannelView> {
        Seq::new(MAX_CHANNELS as nat, |i: int| self.channels@[i].view())
    }
}

impl ChannelTable {
    pub closed spec fn wf(&self) -> bool {
        forall|i: int| 0 <= i < MAX_CHANNELS ==> (#[trigger] self.channels@[i]).wf()
    }

    /// A table with no channel in use.
    pub fn new() -> (t: ChannelTable)
        ensures
            t.wf(),
            t@.len() == MAX_CHANNELS,
            forall|i: int| 0 <= i < MAX_CHANNELS ==> !(#[trigger] t@[i]).active,
    {
        let c = Channel {
            active: false,
            shard: [usize::MAX;2],
            inbox: [Inbox::empty();2],
        };
        ChannelTable { channels: [c;MAX_CHANNELS] }
    }

    /// Every channel has two endpoints, and an inbox for each.
    pub proof fn lemma_shape(&self)
        ensures
            self@.len() == MAX_CHANNELS,
            forall|i: int|
                0 <= i < MAX_CHANNELS ==> (#[trigger] self@[i]).shard.len() == 2
                    && self@[i].inbox.len() == 2,
    {
    }

    /// Replace the message for one endpoint.
    fn put(&mut self, channel_id: usize, ep: usize, i: Inbox)
        requires
            old(self).wf(),
            channel_id < MAX_CHANNELS,
            ep < 2,
            i.wf(),
        ensures
            final(self).wf(),
            final(self)@ == with_message(old(self)@, channel_id as int, ep as int, i.message()),
    {
        let mut c = self.channels[channel_id];
        c.inbox[ep] = i;
        self.channels[channel_id] = c;
        proof {
            let want = with_message(old(self)@, channel_id as int, ep as int, i.message());
            assert forall|k: int| 0 <= k < MAX_CHANNELS implies self@[k] == want[k] by {
                if k == channel_id {
                    assert(self@[k].inbox =~= want[k].inbox);
                }
            }
            assert(self@ =~= want);
        }
    }
}

/// Initialize a channel between two shards, with no message waiting.
pub fn init(channels: &mut ChannelTable, channel_id: usize, shard_a: usize, shard_b: usize)
    requires
        old(channels).wf(),
        channel_id < MAX_CHANNELS,
    ensures
        final(channels).wf(),
        final(channels)@ == old(channels)@.update(
            channel_id as int,
            (ChannelView {
                active: true,
                shard: seq![shard_a, shard_b],
                inbox: seq![Seq::<u8>::empty(), Seq::<u8>::empty()],
            }),
        ),
{
    let c = Channel { active: true, shard: [shard_a, shard_b], inbox: [Inbox::empty();2] };
    channels.channels[channel_id] = c;
    proof {
        let v = ChannelView {
            active: true,
            shard: seq![shard_a, shard_b],
            inbox: seq![Seq::<u8>::empty(), Seq::<u8>::empty()],
        };
        assert(c.view().shard =~= v.shard);
        assert(c.view().inbox =~= v.inbox);
        let want = old(channels)@.update(channel_id as int, v);
        assert forall|k: int| 0 <= k < MAX_CHANNELS implies channels@[k] == want[k] by {
            if k == channel_id {
                assert(channels@[k] == c.view());
            }
        }
        assert(channels@ =~= want);
    }
}

/// Send a message on a channel. The message waits at the other endpoint, in place of one
/// that was not received yet. If the shard there is blocked on this channel, it is woken.
///
/// Returns 0, or `u64::MAX` on error.
pub fn send(
    channels: &mut ChannelTable,
    table: &mut ShardTable,
    channel_id: usize,
    sender_shard: usize,
    data: &[u8],
) -> (r: u64)
    requires
        old(channels).wf(),
        old(table).wf(),
    ensures
        final(channels).wf(),
        final(table).wf(),
        final(table).current == old(table).current,
        ({
            let cs = old(channels)@;
            let id = channel_id as int;
            if 0 < data@.len() <= MAX_MSG_SIZE && usable(cs, id, sender_shard) {
                let other = 1 - endpoint(cs[id], sender_shard)->0;
                &&& r == 0
                &&& final(channels)@ == with_message(cs, id, other, data@)
                &&& final(table)@ == woken(old(table)@, cs[id].shard[other], channel_id)
            } else {
                r == u64::MAX && final(channels)@ == cs && final(table)@ == old(table)@
            }
        }),
{
    if channel_id >= MAX_CHANNELS || data.len() > MAX_MSG_SIZE || data.len() == 0 {
        return u64::MAX;
    }
    assert(channels@[channel_id as int] == channels.channels@[channel_id as int].view());
    if !channels.channels[channel_id].active {
        return u64::MAX;
    }
    let my_ep: usize = match channels.channels[channel_id].endpoint_of(sender_shard) {
        Some(ep) => ep,
        None => return u64::MAX,
    };
    let other_ep: usize = 1 - my_ep;
    let other_shard: usize = channels.channels[channel_id].shard[other_ep];
    channels.put(channel_id, other_ep, Inbox::holding(data));
    if other_shard < MAX_SHARDS {
        if table.shards[other_shard].state == ShardState::Blocked {
            if let Some(c) = table.shards[other_shard].blocked_on_channel {
                if c == channel_id {
                    table.shards[other_shard].state = ShardState::Ready;
                    table.shards[other_shard].blocked_on_channel = None;
                }
            }
        }
    }
    assert(table@ =~= woken(old(table)@, other_shard, channel_id));
    0
}

/// How a receive goes on.
pub enum Recv {
    /// The channel cannot be used by this shard.
    Failed,
    /// The bytes received.
    Message(Vec<u8>),
    /// There is no message: the shard is blocked and another must run.
    Blocked,
}

/// Receive a message on a channel, at most `max_len` bytes of it; the rest is dropped. With
/// no message waiting the shard is blocked on the channel; an endpoint that no slot of the
/// shard table stands for cannot wait.
pub fn recv(
    channels: &mut ChannelTable,
    table: &mut ShardTable,
    channel_id: usize,
    receiver_shard: usize,
    max_len: usize,
) -> (r: Recv)
    requires
        old(channels).wf(),
        old(table).wf(),
    ensures
        final(channels).wf(),
        final(table).wf(),
        final(table).current == old(table).current,
        ({
            let cs = old(channels)@;
            let id = channel_id as int;
            let ep = endpoint(cs[id], receiver_shard)->0;
            if max_len == 0 || !usable(cs, id, receiver_shard) {
                r is Failed && final(channels)@ == cs && final(table)@ == old(table)@
            } else if cs[id].inbox[ep].len() > 0 {
                &&& r matches Recv::Message(v) && v@ == cut(cs[id].inbox[ep], max_len as int)
                &&& final(channels)@ == with_message(cs, id, ep, Seq::<u8>::empty())
                &&& final(table)@ == old(table)@
            } else if receiver_shard < MAX_SHARDS {
                &&& r is Blocked
                &&& final(channels)@ == cs
                &&& final(table)@ == blocked(old(table)@, receiver_shard, channel_id)
            } else {
                r is Failed && final(channels)@ == cs && final(table)@ == old(table)@
            }
        }),
{
    if channel_id >= MAX_CHANNELS || max_len == 0 {
        return Recv::Failed;
    }
    assert(channels@[channel_id as int] == channels.channels@[channel_id as int].view());
    if !channels.channels[channel_id].active {
        return Recv::Failed;
    }
    let my_ep: usize = match channels.channels[channel_id].endpoint_of(receiver_shard) {
        Some(ep) => ep,
        None => return Recv::Failed,
    };
    assert(channels.channels@[channel_id as int].wf());
    let i = channels.channels[channel_id].inbox[my_ep];
    assert(i.message() == channels@[channel_id as int].inbox[my_ep as int]);
    if i.msg_len > 0 {
        let v = i.copy_out(max_len);
        channels.put(channel_id, my_ep, Inbox::empty());
        return Recv::Message(v);
    }
    if receiver_shard >= MAX_SHARDS {
        return Recv::Failed;
    }
    table.shards[receiver_shard].state = ShardState::Blocked;
    table.shards[receiver_shard].blocked_on_channel = Some(channel_id);
    assert(table@ =~= blocked(old(table)@, receiver_shard, channel_id));
    Recv::Blocked
}

/// Finish a receive that had blocked: take the message that woke the shard. There is no
/// result where none has arrived.
pub fn recv_resumed(
    channels: &mut ChannelTable,
    channel_id: usize,
    receiver_shard: usize,
    max_len: usize,
) -> (r: Option<Vec<u8>>)
    requires
        old(channels).wf(),
        usable(old(channels)@, channel_id as int, receiver_shard),
    ensures
        final(channels).wf(),
        ({
            let cs = old(channels)@;
            let id = channel_id as int;
            let ep = endpoint(cs[id], receiver_shard)->0;
            if cs[id].inbox[ep].len() > 0 {
                &&& r matches Some(v) && v@ == cut(cs[id].inbox[ep], max_len as int)
                &&& final(channels)@ == with_message(cs, id, ep, Seq::<u8>::empty())
            } else {
                r is None && final(channels)@ == cs
            }
        }),
{
    assert(channels@[channel_id as int] == channels.channels@[channel_id as int].view());
    let my_ep: usize = match channels.channels[channel_id].endpoint_of(receiver_shard) {
        Some(ep) => ep,
        None => return None,
    };
    assert(channels.channels@[channel_id as int].wf());
    let i = channels.channels[channel_id].inbox[my_ep];
    assert(i.message() == channels@[channel_id as int].inbox[my_ep as int]);
    if i.msg_len > 0 {
        let v = i.copy_out(max_len);
        channels.put(channel_id, my_ep, Inbox::empty());
        Some(v)
    } else {
        None
    }
}

// ---------------------------------------------------------------------------
// Laws
// ---------------------------------------------------------------------------

/// What one shard sends is what the other one receives: the same bytes, once.
pub proof fn law_message_arrives(
    cs: Seq<ChannelView>,
    channel_id: int,
    sender: usize,
    receiver: usize,
    data: Seq<u8>,
    max_len: int,
)
    requires
        cs.len() == MAX_CHANNELS,
        0 <= channel_id < MAX_CHANNELS,
        cs[channel_id].shard.len() == 2,
        cs[channel_id].inbox.len() == 2,
        sender != receiver,
        endpoint(cs[channel_id], sender) is Some,
        endpoint(cs[channel_id], receiver) is Some,
        0 < data.len() <= max_len,
    ensures
        ({
            let from = endpoint(cs[channel_id], sender)->0;
            let ep = endpoint(cs[channel_id], receiver)->0;
            let sent = with_message(cs, channel_id, 1 - from, data);
            let got = with_message(sent, channel_id, ep, Seq::<u8>::empty());
            &&& endpoint(sent[channel_id], receiver) == Some(ep)
            &&& cut(sent[channel_id].inbox[ep], max_len) == data
            &&& got[channel_id].inbox[ep].len() == 0
        }),
{
}

/// The two directions are independent: sending leaves the message that waits for the
/// sender, and all other channels, as they are.
pub proof fn law_directions_independent(
    cs: Seq<ChannelView>,
    channel_id: int,
    sender: usize,
    data: Seq<u8>,
)
    requires
        cs.len() == MAX_CHANNELS,
        0 <= channel_id < MAX_CHANNELS,
        cs[channel_id].shard.len() == 2,
        cs[channel_id].inbox.len() == 2,
        endpoint(cs[channel_id], sender) is Some,
    ensures
        ({
            let ep = endpoint(cs[channel_id], sender)->0;
            let sent = with_message(cs, channel_id, 1 - ep, data);
            &&& sent[channel_id].inbox[ep] == cs[channel_id].inbox[ep]
            &&& sent[channel_id].shard == cs[channel_id].shard
            &&& forall|k: int| 0 <= k < MAX_CHANNELS && k != channel_id ==> sent[k] == cs[k]
        }),
{
}

/// A shard that blocks on a channel is woken by the next message sent to it there, and by
/// nothing sent elsewhere.
pub proof fn law_blocked_receiver_wakes(
    t: Seq<ShardDescriptor>,
    id: usize,
    channel_id: usize,
    other: usize,
    other_channel: usize,
)
    requires
        t.len() == MAX_SHARDS,
        id < MAX_SHARDS,
        other != id || other_channel != channel_id,
    ensures
        ({
            let b = blocked(t, id, channel_id);
            &&& woken(b, id, channel_id)[id as int].state == ShardState::Ready
            &&& woken(b, id, channel_id)[id as int].blocked_on_channel is None
            &&& woken(b, other, other_channel)[id as int] == b[id as int]
        }),
{
}

} // verus!
