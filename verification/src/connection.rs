//! The state of the connection to one peer: its channels, the packets that it
//! sent and that wait for their acknowledgement, and the packets that arrived.

use vstd::prelude::*;
use crate::ack::{AckView, AckWindow};
use crate::channel::{
    lemma_arrival_keeps_wf, lemma_read_shrinks, ChannelKind, ChannelMode, ChannelReceiver,
    ChannelRegistry, ChannelSettings, ReceiverStep, ReceiverView,
};
use crate::error::ChannelError;
use crate::assembler::{pack, pack_messages};
use crate::message::{MessageContainer, MessageView, SingleData, SingleView};
use crate::packet::{HeaderView, PacketHeader, PacketType};
use crate::sender::{ChannelSender, QueueError, SenderView};
use crate::packet::{
    blocks_view, messages_view, packets_view, BlockView, ChannelBlock, Packet, PacketView,
};
use crate::sent_packets::{MessageAck, ProtocolViolation, SentPackets, SentView};
use crate::wrapping_id::{MessageId, Tick};

verus! {

/// Why a connection refuses what it is asked.
#[derive(Clone, Copy, Debug, PartialEq, Eq, Structural)]
pub enum ConnectionError {
    /// No channel of the kind that was named is declared.
    ChannelNotFound,
    /// The message is too large to be sent, even in fragments.
    MessageTooLarge,
    /// A channel refused a message.
    Channel(ChannelError),
    /// The peer or the connection broke the protocol.
    Protocol(ProtocolViolation),
}

impl ConnectionError {
    /// Whether the error fails the connection; else only the packet or
    /// message at hand is dropped.
    pub open spec fn is_fatal(self) -> bool {
        match self {
            ConnectionError::ChannelNotFound => false,
            ConnectionError::MessageTooLarge => false,
            ConnectionError::Channel(e) => e.is_protocol_violation(),
            ConnectionError::Protocol(_) => true,
        }
    }

    /// Whether the error fails the connection.
    pub fn fails_connection(&self) -> (r: bool)
        ensures
            r == self.is_fatal(),
    {
        match self {
            ConnectionError::ChannelNotFound => false,
            ConnectionError::MessageTooLarge => false,
            ConnectionError::Channel(e) => e.fails_connection(),
            ConnectionError::Protocol(_) => true,
        }
    }
}

/// Mathematical value of one channel of a connection.
pub struct ChannelView {
    pub kind: u16,
    pub receiver: ReceiverView,
    pub sender: SenderView,
}

impl ChannelView {
    /// Both sides of the channel are well formed.
    pub open spec fn wf(self) -> bool {
        self.receiver.wf() && self.sender.wf()
    }
}

/// Whether a channel of the mode `mode` sends its messages again until they
/// are acknowledged.
pub open spec fn is_reliable(mode: ChannelMode) -> bool {
    mode == ChannelMode::ReliableOrdered || mode == ChannelMode::ReliableUnordered
}

/// Mathematical value of a connection.
pub struct ConnectionView {
    /// The channels, in the order of their priority.
    pub channels: Seq<ChannelView>,
    /// The packets that were sent and wait for their acknowledgement.
    pub sent: SentView,
    /// The packets that arrived from the peer.
    pub received: AckView,
    /// Whether a packet has arrived since the last packet left, so that
    /// there is something to acknowledge.
    pub ack_pending: bool,
}

/// A connection after a message was handed to it for sending.
pub struct SendStep {
    pub state: ConnectionView,
    pub result: Result<(), ConnectionError>,
}

/// The messages that were read from one channel.
pub struct ChannelMessagesView {
    pub kind: u16,
    pub messages: Seq<SingleView>,
}

/// A connection after a packet arrived, and the messages of its own that the
/// packet's header retires.
pub struct RecvStep {
    pub state: ConnectionView,
    pub result: Result<Seq<MessageAck>, ConnectionError>,
}

/// The channels of a connection after messages were delivered to them.
pub struct DeliverStep {
    pub channels: Seq<ChannelView>,
    pub result: Result<(), ChannelError>,
}

/// Whether a channel of the kind `kind` is among `channels`.
pub open spec fn has_kind(channels: Seq<ChannelView>, kind: u16) -> bool {
    exists|i: int| 0 <= i < channels.len() && (#[trigger] channels[i]).kind == kind
}

/// The place of the channel of the kind `kind` among `channels`.
pub open spec fn kind_index(channels: Seq<ChannelView>, kind: u16) -> int {
    choose|i: int| 0 <= i < channels.len() && (#[trigger] channels[i]).kind == kind
}

/// The receiver after the messages `messages` arrived one after the other;
/// delivery stops at the first message that the receiver refuses.
pub open spec fn deliver_messages(r: ReceiverView, messages: Seq<MessageView>) -> ReceiverStep
    decreases messages.len(),
{
    if messages.len() == 0 {
        ReceiverStep { state: r, result: Ok(()) }
    } else {
        let before = deliver_messages(r, messages.drop_last());
        match before.result {
            Err(_) => before,
            Ok(_) => before.state.buffer_recv(messages.last()),
        }
    }
}

/// The channels after the blocks `blocks` were delivered one after the
/// other, each to the channel of its kind; delivery stops at the first
/// message that a receiver refuses.
pub open spec fn deliver_blocks(channels: Seq<ChannelView>, blocks: Seq<BlockView>) -> DeliverStep
    decreases blocks.len(),
{
    if blocks.len() == 0 {
        DeliverStep { channels, result: Ok(()) }
    } else {
        let before = deliver_blocks(channels, blocks.drop_last());
        match before.result {
            Err(_) => before,
            Ok(_) => {
                let i = kind_index(before.channels, blocks.last().kind);
                let step = deliver_messages(before.channels[i].receiver, blocks.last().messages);
                DeliverStep {
                    channels: before.channels.update(
                        i,
                        ChannelView { receiver: step.state, ..before.channels[i] },
                    ),
                    result: step.result,
                }
            },
        }
    }
}

/// What is wrong with the block `b` for the channels `channels`, if anything:
/// it names a channel that is not declared, or one of its messages lacks
/// what the mode of the channel goes by.
pub open spec fn block_fault(channels: Seq<ChannelView>, b: BlockView) -> Option<ConnectionError> {
    if !has_kind(channels, b.kind) {
        Some(ConnectionError::ChannelNotFound)
    } else {
        let mode = channels[kind_index(channels, b.kind)].receiver.mode();
        if exists|k: int|
            0 <= k < b.messages.len() && ReceiverView::lacks(mode, #[trigger] b.messages[k])
                is Some {
            Some(
                ConnectionError::Channel(
                    if mode == ChannelMode::TickBuffered {
                        ChannelError::MissingTick
                    } else {
                        ChannelError::MissingMessageId
                    },
                ),
            )
        } else {
            None
        }
    }
}

/// What is wrong with the first of the blocks `blocks` with which something
/// is wrong, if there is one.
pub open spec fn packet_fault(channels: Seq<ChannelView>, blocks: Seq<BlockView>) -> Option<
    ConnectionError,
>
    decreases blocks.len(),
{
    if blocks.len() == 0 {
        None
    } else {
        match packet_fault(channels, blocks.drop_last()) {
            Some(e) => Some(e),
            None => block_fault(channels, blocks.last()),
        }
    }
}

proof fn lemma_ok_is_unit(r: Result<(), ChannelError>)
    requires
        r is Ok,
    ensures
        r == Ok::<(), ChannelError>(()),
{
    match r {
        Ok(u) => {
            assert(u == ());
        },
        Err(_) => {},
    }
}

/// Delivery of one message more, after a delivery that was not refused.
pub proof fn lemma_deliver_messages_step(r: ReceiverView, messages: Seq<MessageView>, n: int)
    requires
        0 <= n < messages.len(),
        deliver_messages(r, messages.take(n)).result is Ok,
    ensures
        deliver_messages(r, messages.take(n + 1)) == deliver_messages(
            r,
            messages.take(n),
        ).state.buffer_recv(messages[n]),
{
    assert(messages.take(n + 1).drop_last() =~= messages.take(n));
    assert(messages.take(n + 1).last() == messages[n]);
}

/// Delivery of one block more, after a delivery that was not refused.
pub proof fn lemma_deliver_blocks_step(channels: Seq<ChannelView>, blocks: Seq<BlockView>, n: int)
    requires
        0 <= n < blocks.len(),
        deliver_blocks(channels, blocks.take(n)).result is Ok,
    ensures
        ({
            let before = deliver_blocks(channels, blocks.take(n));
            let i = kind_index(before.channels, blocks[n].kind);
            let step = deliver_messages(before.channels[i].receiver, blocks[n].messages);
            deliver_blocks(channels, blocks.take(n + 1)) == (DeliverStep {
                channels: before.channels.update(
                    i,
                    ChannelView { receiver: step.state, ..before.channels[i] },
                ),
                result: step.result,
            })
        }),
{
    assert(blocks.take(n + 1).drop_last() =~= blocks.take(n));
    assert(blocks.take(n + 1).last() == blocks[n]);
}

/// The fault of a packet, one block more taken into account.
pub proof fn lemma_packet_fault_step(channels: Seq<ChannelView>, blocks: Seq<BlockView>, n: int)
    requires
        0 <= n < blocks.len(),
        packet_fault(channels, blocks.take(n)) is None,
    ensures
        packet_fault(channels, blocks.take(n + 1)) == block_fault(channels, blocks[n]),
{
    assert(blocks.take(n + 1).drop_last() =~= blocks.take(n));
    assert(blocks.take(n + 1).last() == blocks[n]);
}

/// A packet without fault is refused in delivery only where a message
/// breaks the protocol, which fails the connection.
pub proof fn lemma_delivery_fails_fatally(channels: Seq<ChannelView>, blocks: Seq<BlockView>)
    requires
        forall|i: int| 0 <= i < channels.len() ==> (#[trigger] channels[i]).wf(),
        forall|i: int, j: int|
            0 <= i < j < channels.len() ==> (#[trigger] channels[i]).kind != (
            #[trigger] channels[j]).kind,
        packet_fault(channels, blocks) is None,
    ensures
        match deliver_blocks(channels, blocks).result {
            Ok(_) => true,
            Err(e) => e.is_protocol_violation(),
        },
    decreases blocks.len(),
{
    if blocks.len() > 0 {
        lemma_deliver_blocks_keeps(channels, blocks.drop_last());
        lemma_delivery_fails_fatally(channels, blocks.drop_last());
        let before = deliver_blocks(channels, blocks.drop_last());
        if before.result is Ok {
            let b = blocks.last();
            let i = kind_index(before.channels, b.kind);
            assert(has_kind(channels, b.kind));
            let w = kind_index(channels, b.kind);
            assert(before.channels[w].kind == b.kind);
            assert(0 <= i < before.channels.len() && before.channels[i].kind == b.kind);
            assert(i == w) by {
                if i < w {
                    assert(channels[i].kind != channels[w].kind);
                } else if w < i {
                    assert(channels[w].kind != channels[i].kind);
                }
            }
            lemma_messages_fail_fatally(before.channels[i].receiver, b.messages);
        }
    }
}

/// Messages that lack nothing for the channel are refused only where one
/// breaks the protocol.
pub proof fn lemma_messages_fail_fatally(r: ReceiverView, messages: Seq<MessageView>)
    requires
        r.wf(),
        forall|k: int|
            0 <= k < messages.len() ==> ReceiverView::lacks(r.mode(), #[trigger] messages[k])
                is None,
    ensures
        match deliver_messages(r, messages).result {
            Ok(_) => true,
            Err(e) => e.is_protocol_violation(),
        },
    decreases messages.len(),
{
    if messages.len() > 0 {
        let front = messages.drop_last();
        assert forall|k: int| 0 <= k < front.len() implies ReceiverView::lacks(
            r.mode(),
            #[trigger] front[k],
        ) is None by {
            assert(messages[k] == front[k]);
        }
        lemma_messages_fail_fatally(r, front);
        lemma_deliver_messages_wf(r, front);
        let before = deliver_messages(r, front);
        assert(ReceiverView::lacks(r.mode(), messages[messages.len() - 1]) is None);
        crate::channel::lemma_refusal_is_fatal(before.state, messages.last());
    }
}

/// A packet that a connection drops without failing leaves the connection
/// as it was.
pub proof fn lemma_dropped_packet_keeps_state(c: ConnectionView, p: PacketView)
    requires
        c.wf(),
        c.recv_packet(p).result is Err,
        !c.recv_packet(p).result->Err_0.is_fatal(),
    ensures
        c.recv_packet(p).state == c,
{
    match packet_fault(c.channels, p.blocks) {
        Some(e) => {},
        None => {
            let acks = c.sent.process_acks(p.header.latest_ack, p.header.ack_bits);
            if acks.result is Ok {
                lemma_delivery_fails_fatally(c.channels, p.blocks);
            }
        },
    }
}

/// A message that a connection refuses to queue leaves the connection as it was.
pub proof fn lemma_refused_send_keeps_state(c: ConnectionView, m: MessageView, kind: u16)
    requires
        c.buffer_send(m, kind).result is Err,
    ensures
        c.buffer_send(m, kind).state == c,
{
    if c.has_channel(kind) {
        let i = c.channel_index(kind);
        assert(c.buffer_send(m, kind).state.channels =~= c.channels);
    }
}

/// Delivery that was refused at some message is not taken up again.
pub proof fn lemma_deliver_messages_stops(r: ReceiverView, messages: Seq<MessageView>, n: int)
    requires
        0 <= n <= messages.len(),
        deliver_messages(r, messages.take(n)).result is Err,
    ensures
        deliver_messages(r, messages) == deliver_messages(r, messages.take(n)),
    decreases messages.len(),
{
    if n == messages.len() {
        assert(messages.take(n) =~= messages);
    } else {
        assert(messages.drop_last().take(n) =~= messages.take(n));
        lemma_deliver_messages_stops(r, messages.drop_last(), n);
    }
}

/// Delivery keeps a receiver well formed and of its mode.
pub proof fn lemma_deliver_messages_wf(r: ReceiverView, messages: Seq<MessageView>)
    requires
        r.wf(),
    ensures
        deliver_messages(r, messages).state.wf(),
        deliver_messages(r, messages).state.mode() == r.mode(),
    decreases messages.len(),
{
    if messages.len() > 0 {
        lemma_deliver_messages_wf(r, messages.drop_last());
        let before = deliver_messages(r, messages.drop_last());
        lemma_arrival_keeps_wf(before.state, messages.last());
    }
}

/// Block delivery that was refused at some message is not taken up again.
pub proof fn lemma_deliver_blocks_stops(channels: Seq<ChannelView>, blocks: Seq<BlockView>, n: int)
    requires
        0 <= n <= blocks.len(),
        deliver_blocks(channels, blocks.take(n)).result is Err,
    ensures
        deliver_blocks(channels, blocks) == deliver_blocks(channels, blocks.take(n)),
    decreases blocks.len(),
{
    if n == blocks.len() {
        assert(blocks.take(n) =~= blocks);
    } else {
        assert(blocks.drop_last().take(n) =~= blocks.take(n));
        lemma_deliver_blocks_stops(channels, blocks.drop_last(), n);
    }
}

/// A fault in some block is a fault of the packet.
pub proof fn lemma_packet_fault_stays(channels: Seq<ChannelView>, blocks: Seq<BlockView>, n: int)
    requires
        0 <= n <= blocks.len(),
        packet_fault(channels, blocks.take(n)) is Some,
    ensures
        packet_fault(channels, blocks) == packet_fault(channels, blocks.take(n)),
    decreases blocks.len(),
{
    if n == blocks.len() {
        assert(blocks.take(n) =~= blocks);
    } else {
        assert(blocks.drop_last().take(n) =~= blocks.take(n));
        lemma_packet_fault_stays(channels, blocks.drop_last(), n);
    }
}

/// Delivering blocks without fault keeps the channels' kinds and order, and
/// keeps every receiver well formed.
pub proof fn lemma_deliver_blocks_keeps(channels: Seq<ChannelView>, blocks: Seq<BlockView>)
    requires
        forall|i: int| 0 <= i < channels.len() ==> (#[trigger] channels[i]).wf(),
        packet_fault(channels, blocks) is None,
    ensures
        deliver_blocks(channels, blocks).channels.len() == channels.len(),
        forall|i: int|
            0 <= i < channels.len() ==> {
                &&& (#[trigger] deliver_blocks(channels, blocks).channels[i]).kind
                    == channels[i].kind
                &&& deliver_blocks(channels, blocks).channels[i].sender == channels[i].sender
                &&& deliver_blocks(channels, blocks).channels[i].receiver.wf()
                &&& deliver_blocks(channels, blocks).channels[i].receiver.mode()
                    == channels[i].receiver.mode()
            },
    decreases blocks.len(),
{
    if blocks.len() > 0 {
        lemma_deliver_blocks_keeps(channels, blocks.drop_last());
        let before = deliver_blocks(channels, blocks.drop_last());
        if before.result is Ok {
            let b = blocks.last();
            assert(has_kind(channels, b.kind));
            let w = kind_index(channels, b.kind);
            assert(before.channels[w].kind == b.kind);
            let i = kind_index(before.channels, b.kind);
            lemma_deliver_messages_wf(before.channels[i].receiver, b.messages);
        }
    }
}

/// The channels after the acknowledgements `acks` were taken, one after the
/// other, each by the sender of its channel; one that names a channel that
/// is not declared is passed over.
pub open spec fn retire_all(channels: Seq<ChannelView>, acks: Seq<MessageAck>) -> Seq<ChannelView>
    decreases acks.len(),
{
    if acks.len() == 0 {
        channels
    } else {
        let before = retire_all(channels, acks.drop_last());
        let ack = acks.last();
        if has_kind(before, ack.channel) {
            let i = kind_index(before, ack.channel);
            before.update(
                i,
                ChannelView {
                    sender: before[i].sender.retire(ack.message_id, ack.fragment),
                    ..before[i]
                },
            )
        } else {
            before
        }
    }
}

/// Taking acknowledgements changes nothing but the senders' queues.
pub proof fn lemma_retire_all_keeps(channels: Seq<ChannelView>, acks: Seq<MessageAck>)
    ensures
        retire_all(channels, acks).len() == channels.len(),
        forall|i: int|
            0 <= i < channels.len() ==> {
                &&& (#[trigger] retire_all(channels, acks)[i]).kind == channels[i].kind
                &&& retire_all(channels, acks)[i].receiver == channels[i].receiver
                &&& retire_all(channels, acks)[i].sender.next_id == channels[i].sender.next_id
                &&& retire_all(channels, acks)[i].sender.reliable == channels[i].sender.reliable
            },
    decreases acks.len(),
{
    if acks.len() > 0 {
        lemma_retire_all_keeps(channels, acks.drop_last());
        let before = retire_all(channels, acks.drop_last());
        let ack = acks.last();
        if has_kind(before, ack.channel) {
            let i = kind_index(before, ack.channel);
            assert(0 <= i < before.len());
        }
    }
}

/// The record of the message `m` of the channel `kind` in a packet.
pub open spec fn ack_of(kind: u16, m: MessageView) -> MessageAck {
    match m {
        MessageView::Single(data) => MessageAck {
            channel: kind,
            message_id: match data.id {
                Some(id) => id,
                None => 0,
            },
            fragment: None,
        },
        MessageView::Fragment(data) => MessageAck {
            channel: kind,
            message_id: data.message_id,
            fragment: Some(data.fragment_id),
        },
    }
}

/// The records of the messages of the block `b`.
pub open spec fn acks_of(b: BlockView) -> Seq<MessageAck> {
    Seq::new(b.messages.len(), |k: int| ack_of(b.kind, b.messages[k]))
}

/// The packet that carries the block `b` under the id `id`.
pub open spec fn packet_of(id: u16, tick: u16, latest_ack: u16, ack_bits: u32, b: BlockView) -> PacketView {
    PacketView {
        header: HeaderView {
            packet_type: if b.messages.len() > 0 && b.messages[0] is Fragment {
                PacketType::DataFragment
            } else {
                PacketType::Data
            },
            packet_id: id,
            tick,
            latest_ack,
            ack_bits,
        },
        blocks: seq![b],
    }
}

/// The packet without messages that acknowledges what has arrived.
pub open spec fn acknowledgement(id: u16, tick: u16, latest_ack: u16, ack_bits: u32) -> PacketView {
    PacketView {
        header: HeaderView { packet_type: PacketType::Data, packet_id: id, tick, latest_ack, ack_bits },
        blocks: Seq::empty(),
    }
}

/// The blocks that the channel `c` sends at the time `now`: its due
/// messages, sorted into packets of the budget `budget`.
pub open spec fn channel_blocks(c: ChannelView, now: u64, resend_after: u64, budget: int) -> Seq<
    BlockView,
> {
    let groups = pack(c.sender.due_messages(now, resend_after), budget);
    Seq::new(groups.len(), |g: int| BlockView { kind: c.kind, messages: groups[g] })
}

/// The blocks that the channels send at the time `now`, channel by channel
/// in the order of their priority.
pub open spec fn due_blocks(channels: Seq<ChannelView>, now: u64, resend_after: u64, budget: int) -> Seq<
    BlockView,
>
    decreases channels.len(),
{
    if channels.len() == 0 {
        Seq::empty()
    } else {
        due_blocks(channels.drop_last(), now, resend_after, budget) + channel_blocks(
            channels.last(),
            now,
            resend_after,
            budget,
        )
    }
}

/// The sender's records and the packets made so far, and whether every
/// block so far found a free record.
pub struct EmitStep {
    pub sent: SentView,
    pub packets: Seq<PacketView>,
    pub complete: bool,
}

/// The packets that carry the blocks `blocks`, one block each, under
/// successive ids, and the records after them. Where no record is free for a
/// packet, that packet and those after it are not made.
pub open spec fn emit(sent: SentView, tick: u16, latest_ack: u16, ack_bits: u32, blocks: Seq<BlockView>) -> EmitStep
    decreases blocks.len(),
{
    if blocks.len() == 0 {
        EmitStep { sent, packets: Seq::empty(), complete: true }
    } else {
        let before = emit(sent, tick, latest_ack, ack_bits, blocks.drop_last());
        if !before.complete || !before.sent.has_room() {
            EmitStep { complete: false, ..before }
        } else {
            EmitStep {
                sent: before.sent.register(acks_of(blocks.last())),
                packets: before.packets.push(
                    packet_of(before.sent.next, tick, latest_ack, ack_bits, blocks.last()),
                ),
                complete: true,
            }
        }
    }
}

/// Once a packet found no free record, no later one is made.
pub proof fn lemma_emit_stops(
    sent: SentView,
    tick: u16,
    latest_ack: u16,
    ack_bits: u32,
    blocks: Seq<BlockView>,
    n: int,
)
    requires
        0 <= n <= blocks.len(),
        !emit(sent, tick, latest_ack, ack_bits, blocks.take(n)).complete,
    ensures
        emit(sent, tick, latest_ack, ack_bits, blocks) == emit(
            sent,
            tick,
            latest_ack,
            ack_bits,
            blocks.take(n),
        ),
    decreases blocks.len(),
{
    if n == blocks.len() {
        assert(blocks.take(n) =~= blocks);
    } else {
        assert(blocks.drop_last().take(n) =~= blocks.take(n));
        lemma_emit_stops(sent, tick, latest_ack, ack_bits, blocks.drop_last(), n);
    }
}

/// A connection after a flush, and the packets that leave.
pub struct FlushStep {
    pub state: ConnectionView,
    pub result: Result<Seq<PacketView>, ConnectionError>,
}

impl ConnectionView {
    /// What holds of a connection at any time: no two channels have one
    /// kind, and every part is well formed.
    pub open spec fn wf(self) -> bool {
        &&& forall|i: int, j: int|
            0 <= i < j < self.channels.len() ==> (#[trigger] self.channels[i]).kind != (
            #[trigger] self.channels[j]).kind
        &&& forall|i: int| 0 <= i < self.channels.len() ==> (#[trigger] self.channels[i]).wf()
        &&& self.sent.wf()
    }

    /// Whether the connection has a channel of the kind `kind`.
    pub open spec fn has_channel(self, kind: u16) -> bool {
        has_kind(self.channels, kind)
    }

    /// The place of the channel of the kind `kind` among the channels.
    pub open spec fn channel_index(self, kind: u16) -> int {
        kind_index(self.channels, kind)
    }

    /// The connection after the packet `p` arrived.
    ///
    /// A packet with a fault is dropped and changes nothing. So is one whose
    /// header acknowledges a packet that was never sent, which is a violation
    /// of the protocol. Else the packet is noted as arrived, its messages are
    /// delivered to their channels, and the messages that its header
    /// acknowledges are retired from the senders. The result names the
    /// retired messages, or the error of the receiver that refused a
    /// message; after such an error nothing is retired.
    pub open spec fn recv_packet(self, p: PacketView) -> RecvStep {
        match packet_fault(self.channels, p.blocks) {
            Some(e) => RecvStep { state: self, result: Err(e) },
            None => {
                let acks = self.sent.process_acks(p.header.latest_ack, p.header.ack_bits);
                match acks.result {
                    Err(v) => RecvStep { state: self, result: Err(ConnectionError::Protocol(v)) },
                    Ok(retired) => {
                        let delivered = deliver_blocks(self.channels, p.blocks);
                        RecvStep {
                            state: ConnectionView {
                                channels: match delivered.result {
                                    Ok(_) => retire_all(delivered.channels, retired),
                                    Err(_) => delivered.channels,
                                },
                                sent: acks.state,
                                received: self.received.record(p.header.packet_id),
                                ack_pending: true,
                            },
                            result: match delivered.result {
                                Ok(_) => Ok(retired),
                                Err(e) => Err(ConnectionError::Channel(e)),
                            },
                        }
                    },
                }
            },
        }
    }

    /// The connection after a flush at the time `now`, and the packets that
    /// leave.
    ///
    /// Every channel hands out its due messages, which are sorted into
    /// packets of the budget `budget`; every packet carries the tick `tick`
    /// and the acknowledgement of what has arrived, and is recorded with the
    /// messages that it carries. Where no message is due but a packet has
    /// arrived since the last one left, one packet without messages leaves
    /// to acknowledge it. Where no record is free for a packet, the flush
    /// fails, which fails the connection.
    pub open spec fn send_packets(
        self,
        now: u64,
        tick: u16,
        resend_after: u64,
        budget: int,
    ) -> FlushStep {
        let due = due_blocks(self.channels, now, resend_after, budget);
        let made = emit(
            self.sent,
            tick,
            self.received.header_latest(),
            self.received.bits,
            due,
        );
        let channels = Seq::new(
            self.channels.len(),
            |i: int|
                ChannelView {
                    sender: self.channels[i].sender.after_sending(now, resend_after),
                    ..self.channels[i]
                },
        );
        if due.len() == 0 && self.ack_pending {
            if self.sent.has_room() {
                FlushStep {
                    state: ConnectionView {
                        channels,
                        sent: self.sent.register(Seq::empty()),
                        received: self.received,
                        ack_pending: false,
                    },
                    result: Ok(
                        seq![
                            acknowledgement(
                                self.sent.next,
                                tick,
                                self.received.header_latest(),
                                self.received.bits,
                            ),
                        ],
                    ),
                }
            } else {
                FlushStep {
                    state: ConnectionView { channels, ..self },
                    result: Err(ConnectionError::Protocol(ProtocolViolation::TooManyUnacked)),
                }
            }
        } else {
            FlushStep {
                state: ConnectionView {
                    channels,
                    sent: made.sent,
                    received: self.received,
                    ack_pending: self.ack_pending && made.packets.len() == 0,
                },
                result: if made.complete {
                    Ok(made.packets)
                } else {
                    Err(ConnectionError::Protocol(ProtocolViolation::TooManyUnacked))
                },
            }
        }
    }

    /// The connection after time has moved on to `now` and the tick to
    /// `tick`: every receiver gives up the reassemblies that have waited for
    /// `timeout` microseconds or more, and the receivers that go by ticks
    /// stand at the new tick.
    pub open spec fn update(self, now: u64, tick: u16, timeout: u64) -> ConnectionView {
        ConnectionView {
            channels: Seq::new(
                self.channels.len(),
                |i: int|
                    ChannelView {
                        receiver: self.channels[i].receiver.update(now, tick, timeout),
                        ..self.channels[i]
                    },
            ),
            ..self
        }
    }

    /// The connection after the message `m` was handed to it for the channel
    /// `kind`: the message, or its fragments, wait in that channel's sender
    /// under the next id of the channel. Without such a channel the message
    /// is refused and nothing changes; so it is where the message is too
    /// large to be sent, and where the channel's sender is full, which fails
    /// the connection.
    pub open spec fn buffer_send(self, m: MessageView, kind: u16) -> SendStep {
        if !self.has_channel(kind) {
            SendStep { state: self, result: Err(ConnectionError::ChannelNotFound) }
        } else {
            let i = self.channel_index(kind);
            let channel = self.channels[i];
            let queued = channel.sender.buffer_send(m);
            SendStep {
                state: ConnectionView {
                    channels: self.channels.update(
                        i,
                        ChannelView { sender: queued.state, ..channel },
                    ),
                    ..self
                },
                result: match queued.result {
                    Ok(_) => Ok(()),
                    Err(QueueError::TooManyUnacked) => Err(
                        ConnectionError::Protocol(ProtocolViolation::TooManyUnacked),
                    ),
                    Err(QueueError::MessageTooLarge) => Err(ConnectionError::MessageTooLarge),
                },
            }
        }
    }

    /// The connection after every channel was read until it had nothing more
    /// to hand out.
    pub open spec fn after_read(self) -> ConnectionView {
        ConnectionView {
            channels: Seq::new(
                self.channels.len(),
                |i: int|
                    ChannelView { receiver: self.channels[i].receiver.drain().0, ..self.channels[i] },
            ),
            ..self
        }
    }

    /// What reading every channel hands out: for each channel, in the order
    /// of the channels, its kind and its messages in the order of the reads.
    pub open spec fn read_messages(self) -> Seq<ChannelMessagesView> {
        Seq::new(
            self.channels.len(),
            |i: int|
                ChannelMessagesView {
                    kind: self.channels[i].kind,
                    messages: self.channels[i].receiver.drain().1,
                },
        )
    }
}

/// One channel of a connection.
pub struct Channel {
    kind: ChannelKind,
    receiver: ChannelReceiver,
    sender: ChannelSender,
}

impl View for Channel {
    type V = ChannelView;

    closed spec fn view(&self) -> ChannelView {
        ChannelView { kind: self.kind.0, receiver: self.receiver@, sender: self.sender@ }
    }
}

impl Channel {
    fn deliver(&mut self, messages: Vec<MessageContainer>) -> (r: Result<(), ChannelError>)
        requires
            old(self).receiver.wf(),
        ensures
            final(self).receiver.wf(),
            final(self)@ == (ChannelView {
                receiver: deliver_messages(old(self)@.receiver, messages_view(messages@)).state,
                ..old(self)@
            }),
            r == deliver_messages(old(self)@.receiver, messages_view(messages@)).result,
    {
        let ghost all = messages_view(messages@);
        let ghost start = self@.receiver;
        let mut rest = messages;
        let mut i: usize = 0;
        proof {
            assert(all.take(0) =~= Seq::empty());
        }
        while i < rest.len()
            invariant
                self.receiver.wf(),
                self.kind == old(self).kind,
                self.sender == old(self).sender,
                all == messages_view(messages@),
                start == old(self)@.receiver,
                i <= rest.len(),
                rest.len() == all.len(),
                forall|k: int| i <= k < rest.len() ==> (#[trigger] rest[k])@ == all[k],
                deliver_messages(start, all.take(i as int)).state == self.receiver@,
                deliver_messages(start, all.take(i as int)).result is Ok,
            decreases rest.len() - i,
        {
            let mut message = MessageContainer::new(Vec::new());
            rest.set_and_swap(i, &mut message);
            proof {
                assert(message@ == all[i as int]);
                lemma_deliver_messages_step(start, all, i as int);
            }
            let ghost before = self.receiver@;
            let result = self.receiver.buffer_recv(message);
            proof {
                let step = before.buffer_recv(all[i as int]);
                assert(deliver_messages(start, all.take(i as int + 1)) == step);
                assert(step.state == self.receiver@ && step.result == result);
            }
            match result {
                Ok(_) => {},
                Err(e) => {
                    proof {
                        lemma_deliver_messages_stops(start, all, i as int + 1);
                    }
                    return Err(e);
                },
            }
            i += 1;
        }
        proof {
            assert(all.take(i as int) =~= all);
            lemma_ok_is_unit(deliver_messages(start, all).result);
        }
        Ok(())
    }

    fn drain(&mut self) -> (r: Vec<SingleData>)
        requires
            old(self).receiver.wf(),
        ensures
            final(self).receiver.wf(),
            final(self)@ == (ChannelView {
                receiver: old(self)@.receiver.drain().0,
                ..old(self)@
            }),
            singles_view(r@) == old(self)@.receiver.drain().1,
    {
        let ghost start = self@.receiver;
        let mut out: Vec<SingleData> = Vec::new();
        proof {
            self.receiver.lemma_view_wf();
            assert(singles_view(out@) + start.drain().1 =~= start.drain().1);
        }
        loop
            invariant
                self.receiver.wf(),
                self.receiver@.wf(),
                self.kind == old(self).kind,
                self.sender == old(self).sender,
                start.drain().0 == self.receiver@.drain().0,
                start.drain().1 == singles_view(out@) + self.receiver@.drain().1,
            ensures
                self.receiver.wf(),
                self.kind == old(self).kind,
                self.sender == old(self).sender,
                start.drain().0 == self.receiver@,
                start.drain().1 == singles_view(out@),
            decreases self.receiver@.waiting(),
        {
            let ghost current = self.receiver@;
            let ghost so_far = singles_view(out@);
            proof {
                lemma_read_shrinks(current);
            }
            match self.receiver.read_message() {
                Some(message) => {
                    out.push(message);
                    proof {
                        self.receiver.lemma_view_wf();
                        assert(singles_view(out@) =~= so_far.push(message@));
                        assert(so_far + (seq![message@] + self.receiver@.drain().1) =~= singles_view(
                            out@,
                        ) + self.receiver@.drain().1);
                    }
                },
                None => {
                    proof {
                        assert(so_far + Seq::<SingleView>::empty() =~= so_far);
                    }
                    break ;
                },
            }
        }
        out
    }
}

/// The messages that were read from one channel.
#[derive(Clone, Debug, PartialEq, Eq)]
pub struct ChannelMessages {
    pub kind: ChannelKind,
    pub messages: Vec<SingleData>,
}

/// The mathematical values of the messages `messages`.
pub open spec fn singles_view(messages: Seq<SingleData>) -> Seq<SingleView> {
    Seq::new(messages.len(), |i: int| messages[i]@)
}

impl View for ChannelMessages {
    type V = ChannelMessagesView;

    open spec fn view(&self) -> ChannelMessagesView {
        ChannelMessagesView { kind: self.kind.0, messages: singles_view(self.messages@) }
    }
}

/// The mathematical values of what was read from the channels.
pub open spec fn read_view(read: Seq<ChannelMessages>) -> Seq<ChannelMessagesView> {
    Seq::new(read.len(), |i: int| read[i]@)
}

/// The connection to one peer.
pub struct Connection {
    channels: Vec<Channel>,
    sent: SentPackets,
    received: AckWindow,
    ack_pending: bool,
}

spec fn channels_view(channels: Seq<Channel>) -> Seq<ChannelView> {
    Seq::new(channels.len(), |i: int| channels[i]@)
}

impl View for Connection {
    type V = ConnectionView;

    closed spec fn view(&self) -> ConnectionView {
        ConnectionView {
            channels: channels_view(self.channels@),
            sent: self.sent@,
            received: self.received@,
            ack_pending: self.ack_pending,
        }
    }
}

/// The channel that the settings `settings` call for, before any message.
pub open spec fn fresh_channel(settings: ChannelSettings) -> ChannelView {
    ChannelView {
        kind: settings.kind.0,
        receiver: ReceiverView::fresh(settings.mode),
        sender: SenderView::fresh(is_reliable(settings.mode)),
    }
}

/// The connection with the channels that `registry` declares on which
/// nothing has happened yet.
pub open spec fn fresh_connection(registry: Seq<ChannelSettings>) -> ConnectionView {
    ConnectionView {
        channels: Seq::new(registry.len(), |i: int| fresh_channel(registry[i])),
        sent: SentView { next: 0, records: Seq::empty() },
        received: AckView::empty(),
        ack_pending: false,
    }
}

impl Connection {
    /// The invariant of the connection's representation.
    pub closed spec fn wf(&self) -> bool {
        &&& self@.wf()
        &&& forall|i: int| 0 <= i < self.channels.len() ==> (#[trigger] self.channels[i]).receiver.wf()
    }

    /// A well-formed connection has a well-formed value.
    pub proof fn lemma_view_wf(&self)
        requires
            self.wf(),
        ensures
            self@.wf(),
    {
    }

    /// A connection with the channels that `registry` declares, on which
    /// nothing has happened yet.
    pub fn new(registry: &ChannelRegistry) -> (r: Connection)
        requires
            registry.wf(),
        ensures
            r.wf(),
            r@ == fresh_connection(registry@),
    {
        let mut channels: Vec<Channel> = Vec::new();
        let mut i: usize = 0;
        while i < registry.len()
            invariant
                i <= registry@.len(),
                channels.len() == i,
                forall|k: int|
                    0 <= k < i ==> (#[trigger] channels[k]).receiver.wf() && channels[k]@
                        == fresh_channel(registry@[k]),
            decreases registry@.len() - i,
        {
            let settings = registry.settings_at(i);
            let reliable = match settings.mode {
                ChannelMode::ReliableOrdered => true,
                ChannelMode::ReliableUnordered => true,
                _ => false,
            };
            let channel = Channel {
                kind: settings.kind,
                receiver: ChannelReceiver::new(settings.mode),
                sender: ChannelSender::new(reliable),
            };
            channels.push(channel);
            i += 1;
        }
        let r = Connection {
            channels,
            sent: SentPackets::new(),
            received: AckWindow::new(),
            ack_pending: false,
        };
        proof {
            assert(r@.channels =~= fresh_connection(registry@).channels);
            assert forall|k: int| 0 <= k < r@.channels.len() implies (#[trigger] r@.channels[k]).wf() by {
                r.channels[k].receiver.lemma_view_wf();
            }
            assert forall|a: int, b: int| 0 <= a < b < r@.channels.len() implies (
            #[trigger] r@.channels[a]).kind != (#[trigger] r@.channels[b]).kind by {
                assert(registry@[a].kind != registry@[b].kind);
            }
        }
        r
    }

    /// The number of channels.
    pub fn channel_count(&self) -> (n: usize)
        ensures
            n == self@.channels.len(),
    {
        self.channels.len()
    }

    fn find(&self, kind: ChannelKind) -> (r: Option<usize>)
        requires
            self.wf(),
        ensures
            match r {
                Some(i) => self@.has_channel(kind.0) && i == self@.channel_index(kind.0) && i
                    < self.channels.len(),
                None => !self@.has_channel(kind.0),
            },
    {
        let mut i: usize = 0;
        while i < self.channels.len()
            invariant
                self.wf(),
                i <= self.channels.len(),
                forall|k: int| 0 <= k < i ==> (#[trigger] self@.channels[k]).kind != kind.0,
            decreases self.channels.len() - i,
        {
            if self.channels[i].kind.0 == kind.0 {
                proof {
                    assert(self@.channels[i as int].kind == kind.0);
                    assert(self@.has_channel(kind.0));
                    let j = self@.channel_index(kind.0);
                    assert(0 <= j < self@.channels.len() && self@.channels[j].kind == kind.0);
                    if j < i {
                        assert(self@.channels[j].kind != self@.channels[i as int].kind);
                    } else if i < j {
                        assert(self@.channels[i as int].kind != self@.channels[j].kind);
                    }
                }
                return Some(i);
            }
            i += 1;
        }
        None
    }

    /// Queues a message to be sent on the channel `channel_kind`.
    pub fn buffer_send(&mut self, message: MessageContainer, channel_kind: ChannelKind) -> (r:
        Result<(), ConnectionError>)
        requires
            old(self).wf(),
        ensures
            final(self).wf(),
            final(self)@ == old(self)@.buffer_send(message@, channel_kind.0).state,
            r == old(self)@.buffer_send(message@, channel_kind.0).result,
    {
        let i = match self.find(channel_kind) {
            Some(i) => i,
            None => {
                return Err(ConnectionError::ChannelNotFound);
            },
        };
        let ghost before = self.channels@;
        let ghost view_before = self@.channels;
        let channel = &mut self.channels[i];
        let queued = channel.sender.buffer_send(message);
        proof {
            let after = self.channels@;
            assert forall|k: int| 0 <= k < after.len() && k != i implies after[k] == before[k] by {}
            assert(channels_view(after) =~= channels_view(before).update(
                i as int,
                after[i as int]@,
            ));
            assert forall|k: int| 0 <= k < after.len() implies (#[trigger] after[k]).receiver.wf() by {
                assert(before[k].receiver.wf());
            }
            assert forall|k: int| 0 <= k < after.len() implies (#[trigger] self@.channels[k]).wf() by {
                assert(view_before[k].wf());
            }
            assert forall|a: int, b: int| 0 <= a < b < after.len() implies (
            #[trigger] self@.channels[a]).kind != (#[trigger] self@.channels[b]).kind by {
                assert(view_before[a].kind != view_before[b].kind);
            }
        }
        match queued {
            Ok(_) => Ok(()),
            Err(QueueError::TooManyUnacked) => Err(
                ConnectionError::Protocol(ProtocolViolation::TooManyUnacked),
            ),
            Err(QueueError::MessageTooLarge) => Err(ConnectionError::MessageTooLarge),
        }
    }

    fn block_fault_of(&self, block: &ChannelBlock) -> (r: Option<ConnectionError>)
        requires
            self.wf(),
        ensures
            r == block_fault(self@.channels, block@),
    {
        let index = match self.find(block.kind) {
            Some(index) => index,
            None => {
                return Some(ConnectionError::ChannelNotFound);
            },
        };
        let mode = self.channels[index].receiver.mode();
        assert(mode == self@.channels[index as int].receiver.mode());
        let mut k: usize = 0;
        while k < block.messages.len()
            invariant
                has_kind(self@.channels, block@.kind),
                mode == self@.channels[kind_index(self@.channels, block@.kind)].receiver.mode(),
                k <= block.messages.len(),
                forall|j: int|
                    0 <= j < k ==> ReceiverView::lacks(mode, #[trigger] block@.messages[j])
                        is None,
            decreases block.messages.len() - k,
        {
            match crate::channel::lacks(mode, &block.messages[k]) {
                Some(e) => {
                    assert(ReceiverView::lacks(mode, block@.messages[k as int]) is Some);
                    return Some(ConnectionError::Channel(e));
                },
                None => {},
            }
            k += 1;
        }
        None
    }

    fn packet_fault_of(&self, blocks: &Vec<ChannelBlock>) -> (r: Option<ConnectionError>)
        requires
            self.wf(),
        ensures
            r == packet_fault(self@.channels, blocks_view(blocks@)),
    {
        let ghost all = blocks_view(blocks@);
        let mut i: usize = 0;
        proof {
            assert(all.take(0) =~= Seq::empty());
        }
        while i < blocks.len()
            invariant
                self.wf(),
                all == blocks_view(blocks@),
                i <= blocks.len(),
                packet_fault(self@.channels, all.take(i as int)) is None,
            decreases blocks.len() - i,
        {
            proof {
                lemma_packet_fault_step(self@.channels, all, i as int);
            }
            let fault = self.block_fault_of(&blocks[i]);
            if fault.is_some() {
                proof {
                    lemma_packet_fault_stays(self@.channels, all, i as int + 1);
                }
                return fault;
            }
            i += 1;
        }
        proof {
            assert(all.take(i as int) =~= all);
        }
        None
    }

    /// Takes a packet that arrived from the peer.
    pub fn recv_packet(&mut self, packet: Packet) -> (r: Result<Vec<MessageAck>, ConnectionError>)
        requires
            old(self).wf(),
        ensures
            final(self).wf(),
            final(self)@ == old(self)@.recv_packet(packet@).state,
            match r {
                Ok(retired) => old(self)@.recv_packet(packet@).result == Ok::<
                    Seq<MessageAck>,
                    ConnectionError,
                >(retired@),
                Err(e) => old(self)@.recv_packet(packet@).result == Err::<
                    Seq<MessageAck>,
                    ConnectionError,
                >(e),
            },
    {
        let ghost start = self@.channels;
        let ghost all = blocks_view(packet.blocks@);
        if let Some(e) = self.packet_fault_of(&packet.blocks) {
            return Err(e);
        }
        let retired = match self.sent.process_acks(
            packet.header.latest_ack,
            packet.header.ack_bits,
        ) {
            Ok(retired) => retired,
            Err(v) => {
                return Err(ConnectionError::Protocol(v));
            },
        };
        self.received.record(packet.header.packet_id);
        self.ack_pending = true;
        let mut blocks = packet.blocks;
        let mut i: usize = 0;
        proof {
            assert(all.take(0) =~= Seq::empty());
        }
        while i < blocks.len()
            invariant
                self.wf(),
                self.sent@ == old(self)@.sent.process_acks(
                    packet@.header.latest_ack,
                    packet@.header.ack_bits,
                ).state,
                old(self)@.sent.process_acks(
                    packet@.header.latest_ack,
                    packet@.header.ack_bits,
                ).result == Ok::<Seq<MessageAck>, ProtocolViolation>(retired@),
                self.received@ == old(self)@.received.record(packet@.header.packet_id),
                self.ack_pending,
                start == old(self)@.channels,
                all == blocks_view(packet.blocks@),
                packet_fault(start, all) is None,
                forall|k: int| 0 <= k < start.len() ==> (#[trigger] start[k]).wf(),
                i <= blocks.len(),
                blocks.len() == all.len(),
                forall|k: int| i <= k < blocks.len() ==> (#[trigger] blocks[k])@ == all[k],
                deliver_blocks(start, all.take(i as int)).channels == self@.channels,
                deliver_blocks(start, all.take(i as int)).result is Ok,
                self@.channels.len() == start.len(),
                forall|k: int|
                    0 <= k < start.len() ==> (#[trigger] self@.channels[k]).kind == start[k].kind,
            decreases blocks.len() - i,
        {
            let mut block = ChannelBlock { kind: ChannelKind(0), messages: Vec::new() };
            blocks.set_and_swap(i, &mut block);
            let ghost current = self@.channels;
            let ghost view_before = self@.channels;
            proof {
                assert(block@ == all[i as int]);
                lemma_deliver_blocks_step(start, all, i as int);
                if packet_fault(start, all.take(i as int + 1)) is Some {
                    lemma_packet_fault_stays(start, all, i as int + 1);
                }
                if packet_fault(start, all.take(i as int)) is Some {
                    lemma_packet_fault_stays(start, all, i as int);
                }
                lemma_packet_fault_step(start, all, i as int);
                assert(has_kind(start, block@.kind));
                let w = kind_index(start, block@.kind);
                assert(current[w].kind == block@.kind);
                assert(has_kind(current, block@.kind));
            }
            let index = match self.find(block.kind) {
                Some(index) => index,
                None => {
                    return Err(ConnectionError::ChannelNotFound);
                },
            };
            let ghost channels_before = self.channels@;
            let channel = &mut self.channels[index];
            let result = channel.deliver(block.messages);
            proof {
                let after = self.channels@;
                assert forall|k: int| 0 <= k < after.len() && k != index implies after[k]
                    == channels_before[k] by {}
                assert(channels_view(after) =~= channels_view(channels_before).update(
                    index as int,
                    after[index as int]@,
                ));
                assert(messages_view(block.messages@) == all[i as int].messages);
                assert forall|k: int| 0 <= k < after.len() implies (
                #[trigger] after[k]).receiver.wf() by {
                    if k != index {
                        assert(channels_before[k].receiver.wf());
                    }
                }
                assert forall|k: int| 0 <= k < after.len() implies (
                #[trigger] self@.channels[k]).wf() by {
                    after[k].receiver.lemma_view_wf();
                    assert(self@.channels[k].sender == view_before[k].sender);
                    assert(view_before[k].wf());
                }
                assert forall|a: int, b: int| 0 <= a < b < after.len() implies (
                #[trigger] self@.channels[a]).kind != (#[trigger] self@.channels[b]).kind by {
                    assert(current[a].kind != current[b].kind);
                }
                assert(deliver_blocks(start, all.take(i as int + 1)).channels == self@.channels);
                assert(deliver_blocks(start, all.take(i as int + 1)).result == result);
            }
            match result {
                Ok(_) => {},
                Err(e) => {
                    proof {
                        lemma_deliver_blocks_stops(start, all, i as int + 1);
                    }
                    return Err(ConnectionError::Channel(e));
                },
            }
            i += 1;
        }
        proof {
            assert(all.take(i as int) =~= all);
        }
        let ghost delivered = self@.channels;
        let mut j: usize = 0;
        proof {
            assert(retired@.take(0) =~= Seq::empty());
        }
        while j < retired.len()
            invariant
                self.wf(),
                self.sent@ == old(self)@.sent.process_acks(
                    packet@.header.latest_ack,
                    packet@.header.ack_bits,
                ).state,
                self.received@ == old(self)@.received.record(packet@.header.packet_id),
                self.ack_pending,
                j <= retired.len(),
                self@.channels == retire_all(delivered, retired@.take(j as int)),
            decreases retired.len() - j,
        {
            let ack = retired[j];
            proof {
                assert(retired@.take(j as int + 1).drop_last() =~= retired@.take(j as int));
                assert(retired@.take(j as int + 1).last() == ack);
            }
            match self.find(ChannelKind(ack.channel)) {
                Some(index) => {
                    let ghost channels_before = self.channels@;
                    let ghost view_before = self@.channels;
                    let channel = &mut self.channels[index];
                    channel.sender.retire(MessageId(ack.message_id), ack.fragment);
                    proof {
                        let after = self.channels@;
                        assert forall|k: int| 0 <= k < after.len() && k != index implies after[k]
                            == channels_before[k] by {}
                        assert(channels_view(after) =~= channels_view(channels_before).update(
                            index as int,
                            after[index as int]@,
                        ));
                        assert forall|k: int| 0 <= k < after.len() implies (
                        #[trigger] after[k]).receiver.wf() by {
                            assert(channels_before[k].receiver.wf());
                        }
                        assert forall|k: int| 0 <= k < after.len() implies (
                        #[trigger] self@.channels[k]).wf() by {
                            assert(view_before[k].wf());
                        }
                        assert forall|a: int, b: int| 0 <= a < b < after.len() implies (
                        #[trigger] self@.channels[a]).kind != (
                        #[trigger] self@.channels[b]).kind by {
                            assert(view_before[a].kind != view_before[b].kind);
                        }
                    }
                },
                None => {},
            }
            j += 1;
        }
        proof {
            assert(retired@.take(j as int) =~= retired@);
        }
        Ok(retired)
    }

    /// Makes the packets that are to leave at the time `now`.
    pub fn send_packets(&mut self, now: u64, tick: Tick, resend_after: u64, budget: usize) -> (r:
        Result<Vec<Packet>, ConnectionError>)
        requires
            old(self).wf(),
        ensures
            final(self).wf(),
            final(self)@ == old(self)@.send_packets(now, tick.0, resend_after, budget as int).state,
            match r {
                Ok(packets) => old(self)@.send_packets(
                    now,
                    tick.0,
                    resend_after,
                    budget as int,
                ).result == Ok::<Seq<PacketView>, ConnectionError>(packets_view(packets@)),
                Err(e) => old(self)@.send_packets(now, tick.0, resend_after, budget as int).result
                    == Err::<Seq<PacketView>, ConnectionError>(e),
            },
    {
        let ghost start = self@;
        let mut blocks: Vec<ChannelBlock> = Vec::new();
        let mut i: usize = 0;
        proof {
            assert(start.channels.take(0) =~= Seq::empty());
            assert(blocks_view(blocks@) =~= Seq::empty());
        }
        while i < self.channels.len()
            invariant
                self.wf(),
                start == old(self)@,
                self.sent == old(self).sent,
                self.received == old(self).received,
                self.ack_pending == old(self).ack_pending,
                i <= self.channels.len(),
                self.channels.len() == start.channels.len(),
                forall|k: int|
                    0 <= k < i ==> (#[trigger] self@.channels[k]) == (ChannelView {
                        sender: start.channels[k].sender.after_sending(now, resend_after),
                        ..start.channels[k]
                    }),
                forall|k: int|
                    i <= k < self.channels.len() ==> (#[trigger] self@.channels[k])
                        == start.channels[k],
                blocks_view(blocks@) == due_blocks(
                    start.channels.take(i as int),
                    now,
                    resend_after,
                    budget as int,
                ),
            decreases self.channels.len() - i,
        {
            let ghost channels_before = self.channels@;
            let ghost view_before = self@.channels;
            let ghost blocks_before = blocks_view(blocks@);
            proof {
                assert(view_before[i as int].wf());
                assert(view_before[i as int] == channels_before[i as int]@);
            }
            let channel = &mut self.channels[i];
            let kind = channel.kind;
            let due = channel.sender.take_due(now, resend_after);
            let mut groups = pack_messages(due, budget);
            let ghost made = channel_blocks(start.channels[i as int], now, resend_after, budget as int);
            proof {
                let after = self.channels@;
                assert forall|k: int| 0 <= k < after.len() && k != i implies after[k]
                    == channels_before[k] by {}
                assert(self@.channels[i as int] == after[i as int]@);
                assert(view_before[i as int] == channels_before[i as int]@);
                assert forall|k: int| 0 <= k < after.len() implies (
                #[trigger] after[k]).receiver.wf() by {
                    assert(channels_before[k].receiver.wf());
                }
                assert forall|k: int| 0 <= k < after.len() implies (
                #[trigger] self@.channels[k]).wf() by {
                    assert(view_before[k].wf());
                }
                assert forall|a: int, b: int| 0 <= a < b < after.len() implies (
                #[trigger] self@.channels[a]).kind != (#[trigger] self@.channels[b]).kind by {
                    assert(view_before[a].kind != view_before[b].kind);
                    assert(self@.channels[a].kind == view_before[a].kind);
                    assert(self@.channels[b].kind == view_before[b].kind);
                }
                assert forall|k: int| 0 <= k < i implies (#[trigger] self@.channels[k])
                    == (ChannelView {
                    sender: start.channels[k].sender.after_sending(now, resend_after),
                    ..start.channels[k]
                }) by {
                    assert(self@.channels[k] == view_before[k]);
                }
                assert forall|k: int| i < k < self.channels.len() implies (
                #[trigger] self@.channels[k]) == start.channels[k] by {
                    assert(self@.channels[k] == view_before[k]);
                }
                assert(start.channels.take(i as int + 1).drop_last() =~= start.channels.take(
                    i as int,
                ));
                assert(start.channels.take(i as int + 1).last() == start.channels[i as int]);
                assert(made.len() == groups.len());
                assert(blocks_before + made.take(0) =~= blocks_before);
            }
            let mut g: usize = 0;
            while g < groups.len()
                invariant
                    g <= groups.len(),
                    groups.len() == made.len(),
                    kind.0 == start.channels[i as int].kind,
                    forall|k: int|
                        g <= k < groups.len() ==> messages_view((#[trigger] groups[k])@)
                            == made[k].messages,
                    forall|k: int| 0 <= k < made.len() ==> (#[trigger] made[k]).kind == kind.0,
                    blocks_view(blocks@) == blocks_before + made.take(g as int),
                decreases groups.len() - g,
            {
                let mut messages: Vec<MessageContainer> = Vec::new();
                groups.set_and_swap(g, &mut messages);
                let ghost so_far = blocks_view(blocks@);
                let block = ChannelBlock { kind, messages };
                proof {
                    assert(block@ == made[g as int]);
                }
                blocks.push(block);
                proof {
                    assert(blocks_view(blocks@) =~= so_far.push(made[g as int]));
                    assert(made.take(g as int + 1) =~= made.take(g as int).push(made[g as int]));
                    assert(blocks_view(blocks@) =~= blocks_before + made.take(g as int + 1));
                }
                g += 1;
            }
            proof {
                assert(made.take(g as int) =~= made);
            }
            i += 1;
        }
        proof {
            assert(start.channels.take(i as int) =~= start.channels);
            assert(self@.channels =~= start.send_packets(
                now,
                tick.0,
                resend_after,
                budget as int,
            ).state.channels);
        }
        let header = self.received.header();
        let latest_ack = header.0;
        let ack_bits = header.1;
        let ghost all = blocks_view(blocks@);
        let mut packets: Vec<Packet> = Vec::new();
        if blocks.len() == 0 {
            proof {
                assert(all =~= Seq::<BlockView>::empty());
                assert(packets_view(packets@) =~= Seq::<PacketView>::empty());
            }
            if self.ack_pending {
                // nothing is due, but what has arrived is to be acknowledged
                let id = match self.sent.register(Vec::new()) {
                    Ok(id) => id,
                    Err(_) => {
                        return Err(ConnectionError::Protocol(ProtocolViolation::TooManyUnacked));
                    },
                };
                self.ack_pending = false;
                let packet = Packet {
                    header: PacketHeader {
                        packet_type: PacketType::Data,
                        packet_id: id,
                        tick,
                        latest_ack,
                        ack_bits,
                    },
                    blocks: Vec::new(),
                };
                proof {
                    assert(blocks_view(packet.blocks@) =~= Seq::<BlockView>::empty());
                }
                packets.push(packet);
                proof {
                    assert(packets_view(packets@) =~= seq![
                        acknowledgement(id.0, tick.0, latest_ack.0, ack_bits),
                    ]);
                }
            }
            return Ok(packets);
        }
        let mut j: usize = 0;
        proof {
            assert(all.take(0) =~= Seq::empty());
            assert(packets_view(packets@) =~= Seq::empty());
        }
        while j < blocks.len()
            invariant
                self.wf(),
                start == old(self)@,
                self.received == old(self).received,
                self.ack_pending == old(self).ack_pending,
                blocks.len() > 0,
                packets.len() == j,
                latest_ack.0 == start.received.header_latest(),
                ack_bits == start.received.bits,
                self@.channels == start.send_packets(
                    now,
                    tick.0,
                    resend_after,
                    budget as int,
                ).state.channels,
                all == due_blocks(start.channels, now, resend_after, budget as int),
                j <= blocks.len(),
                blocks.len() == all.len(),
                forall|k: int| j <= k < blocks.len() ==> (#[trigger] blocks[k])@ == all[k],
                emit(start.sent, tick.0, latest_ack.0, ack_bits, all.take(j as int)) == (EmitStep {
                    sent: self.sent@,
                    packets: packets_view(packets@),
                    complete: true,
                }),
            decreases blocks.len() - j,
        {
            let mut block = ChannelBlock { kind: ChannelKind(0), messages: Vec::new() };
            blocks.set_and_swap(j, &mut block);
            let ghost so_far = packets_view(packets@);
            proof {
                assert(block@ == all[j as int]);
                assert(all.take(j as int + 1).drop_last() =~= all.take(j as int));
                assert(all.take(j as int + 1).last() == all[j as int]);
            }
            let mut acks: Vec<MessageAck> = Vec::new();
            let mut k: usize = 0;
            while k < block.messages.len()
                invariant
                    k <= block.messages.len(),
                    acks.len() == k,
                    forall|m: int|
                        0 <= m < k ==> (#[trigger] acks[m]) == ack_of(block@.kind, block@.messages[m]),
                decreases block.messages.len() - k,
            {
                let ack = match &block.messages[k] {
                    MessageContainer::Single(data) => MessageAck {
                        channel: block.kind.0,
                        message_id: match data.id {
                            Some(id) => id.0,
                            None => 0,
                        },
                        fragment: None,
                    },
                    MessageContainer::Fragment(data) => MessageAck {
                        channel: block.kind.0,
                        message_id: data.message_id.0,
                        fragment: Some(data.fragment_id),
                    },
                };
                assert(ack == ack_of(block@.kind, block@.messages[k as int]));
                acks.push(ack);
                k += 1;
            }
            proof {
                assert(acks@ =~= acks_of(block@));
            }
            let packet_type = if block.messages.len() > 0 {
                match &block.messages[0] {
                    MessageContainer::Fragment(_) => PacketType::DataFragment,
                    MessageContainer::Single(_) => PacketType::Data,
                }
            } else {
                PacketType::Data
            };
            assert(packet_type == packet_of(0, 0, 0, 0, block@).header.packet_type);
            let id = match self.sent.register(acks) {
                Ok(id) => id,
                Err(_) => {
                    proof {
                        lemma_emit_stops(
                            start.sent,
                            tick.0,
                            latest_ack.0,
                            ack_bits,
                            all,
                            j as int + 1,
                        );
                    }
                    if packets.len() > 0 {
                        self.ack_pending = false;
                    }
                    return Err(ConnectionError::Protocol(ProtocolViolation::TooManyUnacked));
                },
            };
            let mut carried: Vec<ChannelBlock> = Vec::new();
            carried.push(block);
            let packet = Packet {
                header: PacketHeader { packet_type, packet_id: id, tick, latest_ack, ack_bits },
                blocks: carried,
            };
            proof {
                assert(blocks_view(carried@) =~= seq![all[j as int]]);
                assert(packet@ == packet_of(id.0, tick.0, latest_ack.0, ack_bits, all[j as int]));
            }
            packets.push(packet);
            proof {
                assert(packets_view(packets@) =~= so_far.push(packet@));
            }
            j += 1;
        }
        proof {
            assert(all.take(j as int) =~= all);
            assert(packets.len() == all.len());
        }
        self.ack_pending = false;
        Ok(packets)
    }

    /// Reads every channel until it has nothing more to hand out.
    pub fn read_messages(&mut self) -> (r: Vec<ChannelMessages>)
        requires
            old(self).wf(),
        ensures
            final(self).wf(),
            final(self)@ == old(self)@.after_read(),
            read_view(r@) == old(self)@.read_messages(),
    {
        let ghost start = self@;
        let mut out: Vec<ChannelMessages> = Vec::new();
        let mut i: usize = 0;
        while i < self.channels.len()
            invariant
                self.wf(),
                start == old(self)@,
                self.sent == old(self).sent,
                self.received == old(self).received,
                self.ack_pending == old(self).ack_pending,
                i <= self.channels.len(),
                self.channels.len() == start.channels.len(),
                out.len() == i,
                forall|k: int|
                    0 <= k < i ==> (#[trigger] self@.channels[k]) == start.after_read().channels[k],
                forall|k: int|
                    i <= k < self.channels.len() ==> (#[trigger] self@.channels[k])
                        == start.channels[k],
                forall|k: int| 0 <= k < i ==> (#[trigger] out[k])@ == start.read_messages()[k],
            decreases self.channels.len() - i,
        {
            let ghost channels_before = self.channels@;
            let ghost view_before = self@.channels;
            let channel = &mut self.channels[i];
            let kind = channel.kind;
            let messages = channel.drain();
            out.push(ChannelMessages { kind, messages });
            proof {
                let after = self.channels@;
                assert forall|k: int| 0 <= k < after.len() && k != i implies after[k]
                    == channels_before[k] by {}
                assert(self@.channels[i as int] == after[i as int]@);
                assert(view_before[i as int] == channels_before[i as int]@);
                assert forall|k: int| 0 <= k < after.len() implies (
                #[trigger] after[k]).receiver.wf() by {
                    if k != i {
                        assert(channels_before[k].receiver.wf());
                    }
                }
                assert forall|k: int| 0 <= k < after.len() implies (
                #[trigger] self@.channels[k]).wf() by {
                    after[k].receiver.lemma_view_wf();
                    assert(self@.channels[k].sender == view_before[k].sender);
                    assert(view_before[k].wf());
                }
                assert forall|a: int, b: int| 0 <= a < b < after.len() implies (
                #[trigger] self@.channels[a]).kind != (#[trigger] self@.channels[b]).kind by {
                    assert(view_before[a].kind != view_before[b].kind);
                    assert(self@.channels[a].kind == view_before[a].kind);
                    assert(self@.channels[b].kind == view_before[b].kind);
                }
                assert forall|k: int| 0 <= k < i implies (#[trigger] self@.channels[k])
                    == start.after_read().channels[k] by {
                    assert(self@.channels[k] == view_before[k]);
                }
                assert forall|k: int| i < k < self.channels.len() implies (
                #[trigger] self@.channels[k]) == start.channels[k] by {
                    assert(self@.channels[k] == view_before[k]);
                }
            }
            i += 1;
        }
        proof {
            assert(self@.channels =~= start.after_read().channels);
            assert(read_view(out@) =~= start.read_messages());
        }
        out
    }

    /// Lets time move on to `now` and the tick to `tick`: every receiver
    /// gives up the reassemblies that have waited for `timeout` microseconds
    /// or more, and the receivers that go by ticks stand at the new tick.
    pub fn update(&mut self, now: u64, tick: Tick, timeout: u64)
        requires
            old(self).wf(),
        ensures
            final(self).wf(),
            final(self)@ == old(self)@.update(now, tick.0, timeout),
    {
        let ghost start = self@;
        let mut i: usize = 0;
        while i < self.channels.len()
            invariant
                self.wf(),
                start == old(self)@,
                self.sent == old(self).sent,
                self.received == old(self).received,
                self.ack_pending == old(self).ack_pending,
                i <= self.channels.len(),
                self.channels.len() == start.channels.len(),
                forall|k: int|
                    0 <= k < i ==> (#[trigger] self@.channels[k]) == start.update(
                        now,
                        tick.0,
                        timeout,
                    ).channels[k],
                forall|k: int|
                    i <= k < self.channels.len() ==> (#[trigger] self@.channels[k])
                        == start.channels[k],
            decreases self.channels.len() - i,
        {
            let ghost channels_before = self.channels@;
            let ghost view_before = self@.channels;
            let channel = &mut self.channels[i];
            channel.receiver.update(now, tick, timeout);
            proof {
                let after = self.channels@;
                assert forall|k: int| 0 <= k < after.len() && k != i implies after[k]
                    == channels_before[k] by {}
                assert(self@.channels[i as int] == after[i as int]@);
                assert(view_before[i as int] == channels_before[i as int]@);
                assert forall|k: int| 0 <= k < after.len() implies (
                #[trigger] after[k]).receiver.wf() by {
                    if k != i {
                        assert(channels_before[k].receiver.wf());
                    }
                }
                assert forall|k: int| 0 <= k < after.len() implies (
                #[trigger] self@.channels[k]).wf() by {
                    after[k].receiver.lemma_view_wf();
                    assert(self@.channels[k].sender == view_before[k].sender);
                    assert(view_before[k].wf());
                }
                assert forall|a: int, b: int| 0 <= a < b < after.len() implies (
                #[trigger] self@.channels[a]).kind != (#[trigger] self@.channels[b]).kind by {
                    assert(view_before[a].kind != view_before[b].kind);
                    assert(self@.channels[a].kind == view_before[a].kind);
                    assert(self@.channels[b].kind == view_before[b].kind);
                }
                assert forall|k: int| 0 <= k < i implies (#[trigger] self@.channels[k])
                    == start.update(now, tick.0, timeout).channels[k] by {
                    assert(self@.channels[k] == view_before[k]);
                }
                assert forall|k: int| i < k < self.channels.len() implies (
                #[trigger] self@.channels[k]) == start.channels[k] by {
                    assert(self@.channels[k] == view_before[k]);
                }
            }
            i += 1;
        }
        proof {
            assert(self@.channels =~= start.update(now, tick.0, timeout).channels);
        }
    }
}

} // verus!
