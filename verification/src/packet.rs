//! Packets in their decoded form.

use vstd::prelude::*;
use crate::channel::ChannelKind;
use crate::message::{MessageContainer, MessageView};
use crate::wrapping_id::{PacketId, Tick};

verus! {

/// What a packet carries.
#[derive(Clone, Copy, Debug, PartialEq, Eq, Structural)]
pub enum PacketType {
    /// Whole messages, of one channel or several.
    Data,
    /// One fragment of a message, alone in its packet.
    DataFragment,
}

/// The header of a packet.
#[derive(Clone, Copy, Debug, PartialEq, Eq)]
pub struct PacketHeader {
    pub packet_type: PacketType,
    /// The id of this packet.
    pub packet_id: PacketId,
    /// The sender's tick when the packet left.
    pub tick: Tick,
    /// The id of the latest packet that the sender received.
    pub latest_ack: PacketId,
    /// Which of the 32 packets before `latest_ack` the sender received.
    pub ack_bits: u32,
}

/// Mathematical value of a packet header.
pub struct HeaderView {
    pub packet_type: PacketType,
    pub packet_id: u16,
    pub tick: u16,
    pub latest_ack: u16,
    pub ack_bits: u32,
}

impl View for PacketHeader {
    type V = HeaderView;

    open spec fn view(&self) -> HeaderView {
        HeaderView {
            packet_type: self.packet_type,
            packet_id: self.packet_id.0,
            tick: self.tick.0,
            latest_ack: self.latest_ack.0,
            ack_bits: self.ack_bits,
        }
    }
}

/// The messages of one channel in a packet.
#[derive(Clone, Debug, PartialEq, Eq)]
pub struct ChannelBlock {
    pub kind: ChannelKind,
    pub messages: Vec<MessageContainer>,
}

/// Mathematical value of a channel block.
pub struct BlockView {
    pub kind: u16,
    pub messages: Seq<MessageView>,
}

/// The mathematical values of the messages `messages`.
pub open spec fn messages_view(messages: Seq<MessageContainer>) -> Seq<MessageView> {
    Seq::new(messages.len(), |i: int| messages[i]@)
}

impl View for ChannelBlock {
    type V = BlockView;

    open spec fn view(&self) -> BlockView {
        BlockView { kind: self.kind.0, messages: messages_view(self.messages@) }
    }
}

/// A packet: its header and the messages it carries, channel by channel.
#[derive(Clone, Debug, PartialEq, Eq)]
pub struct Packet {
    pub header: PacketHeader,
    pub blocks: Vec<ChannelBlock>,
}

/// Mathematical value of a packet.
pub struct PacketView {
    pub header: HeaderView,
    pub blocks: Seq<BlockView>,
}

/// The mathematical values of the blocks `blocks`.
pub open spec fn blocks_view(blocks: Seq<ChannelBlock>) -> Seq<BlockView> {
    Seq::new(blocks.len(), |i: int| blocks[i]@)
}

/// The mathematical values of the packets `packets`.
pub open spec fn packets_view(packets: Seq<Packet>) -> Seq<PacketView> {
    Seq::new(packets.len(), |i: int| packets[i]@)
}

impl View for Packet {
    type V = PacketView;

    open spec fn view(&self) -> PacketView {
        PacketView { header: self.header@, blocks: blocks_view(self.blocks@) }
    }
}

} // verus!
