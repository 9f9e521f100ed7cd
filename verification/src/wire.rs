//! The wire format of packets.
//!
//! A packet is its header, then its channel blocks until the packet ends. A
//! block is the channel kind, the number of its messages, and the messages. A
//! message is a byte of flags, the length of its payload, the id and the tick
//! where the flags announce them, the fragment's index and count where the
//! message is a fragment, and the payload.

use vstd::prelude::*;
use crate::assembler::{group_cost, message_cost, payload, MESSAGE_OVERHEAD, PACKET_OVERHEAD};
use crate::channel::ChannelKind;
use crate::codec::{
    get_le16, get_le32, get_varint, le16, le32, lemma_le16_parsed, lemma_le16_round_trip,
    lemma_le32_parsed, lemma_le32_round_trip, lemma_varint_len, lemma_varint_parsed,
    lemma_varint_round_trip, parse_le16, parse_le32, parse_varint, put_le16, put_le32, put_varint,
    varint,
};
use crate::message::{
    FragmentData, FragmentView, MessageContainer, MessageView, SingleData, SingleView,
};
use crate::packet::{
    blocks_view, messages_view, BlockView, ChannelBlock, HeaderView, Packet, PacketHeader,
    PacketType, PacketView,
};
use crate::wrapping_id::{MessageId, PacketId, Tick};

verus! {

/// The flag of a message that is a fragment.
pub const FLAG_FRAGMENT: u8 = 1;

/// The flag of a message that carries an id.
pub const FLAG_ID: u8 = 2;

/// The flag of a message that carries a tick.
pub const FLAG_TICK: u8 = 4;

/// Why bytes are no packet.
#[derive(Clone, Copy, Debug, PartialEq, Eq, Structural)]
pub enum DecodeError {
    /// The bytes end too early, or hold a value that the format does not allow.
    Malformed,
}

/// Why a packet has no encoding.
#[derive(Clone, Copy, Debug, PartialEq, Eq, Structural)]
pub enum EncodeError {
    /// A payload or a block is longer than the format can say.
    TooLarge,
}

/// The tick that a message carries, if any.
pub open spec fn tick_of_message(m: MessageView) -> Option<u16> {
    match m {
        MessageView::Single(data) => data.tick,
        MessageView::Fragment(data) => data.tick,
    }
}

/// The flags of a message.
pub open spec fn flags_of(m: MessageView) -> u8 {
    ((if m is Fragment {
        1
    } else {
        0int
    }) + (if m.id() is Some {
        2
    } else {
        0int
    }) + (if tick_of_message(m) is Some {
        4
    } else {
        0int
    })) as u8
}

/// The bytes of an id or tick that is there, and none where it is not.
pub open spec fn optional_le16(v: Option<u16>) -> Seq<u8> {
    match v {
        Some(x) => le16(x),
        None => Seq::empty(),
    }
}

/// The bytes that say which fragment of how many a message is.
pub open spec fn fragment_bytes(m: MessageView) -> Seq<u8> {
    match m {
        MessageView::Single(_) => Seq::empty(),
        MessageView::Fragment(data) => seq![data.fragment_id, data.num_fragments],
    }
}

/// What follows flags and length in the encoding of a message.
pub open spec fn message_body(m: MessageView) -> Seq<u8> {
    optional_le16(m.id()) + optional_le16(tick_of_message(m)) + fragment_bytes(m) + payload(m)
}

/// The encoding of a message.
pub open spec fn encode_message(m: MessageView) -> Seq<u8> {
    seq![flags_of(m)] + varint(payload(m).len()) + message_body(m)
}

/// Whether a message has an encoding: its payload is no longer than 32 bits
/// can say.
pub open spec fn encodable_message(m: MessageView) -> bool {
    payload(m).len() <= u32::MAX
}

/// The id or tick at the head of `b` where `present` says that there is one,
/// and what follows.
pub open spec fn parse_optional_le16(b: Seq<u8>, present: bool) -> Option<(Option<u16>, Seq<u8>)> {
    if present {
        match parse_le16(b) {
            Some((v, rest)) => Some((Some(v), rest)),
            None => None,
        }
    } else {
        Some((None, b))
    }
}

/// The message at the head of `b`, and what follows it.
pub open spec fn parse_message(b: Seq<u8>) -> Option<(MessageView, Seq<u8>)> {
    if b.len() == 0 || b[0] >= 8 {
        None
    } else {
        let fragment = b[0] % 2 == 1;
        let has_id = (b[0] / 2) % 2 == 1;
        let has_tick = (b[0] / 4) % 2 == 1;
        if fragment && !has_id {
            None
        } else {
            match parse_varint(b.skip(1), 5) {
                None => None,
                Some((len, after_len)) => match parse_optional_le16(after_len, has_id) {
                    None => None,
                    Some((id, after_id)) => match parse_optional_le16(after_id, has_tick) {
                        None => None,
                        Some((tick, after_tick)) => {
                            if fragment {
                                if after_tick.len() < 2 + len {
                                    None
                                } else {
                                    Some(
                                        (
                                            MessageView::Fragment(
                                                FragmentView {
                                                    message_id: id.unwrap(),
                                                    tick,
                                                    fragment_id: after_tick[0],
                                                    num_fragments: after_tick[1],
                                                    bytes: after_tick.subrange(2, 2 + len as int),
                                                },
                                            ),
                                            after_tick.skip(2 + len as int),
                                        ),
                                    )
                                }
                            } else {
                                if after_tick.len() < len {
                                    None
                                } else {
                                    Some(
                                        (
                                            MessageView::Single(
                                                SingleView {
                                                    id,
                                                    tick,
                                                    bytes: after_tick.subrange(0, len as int),
                                                },
                                            ),
                                            after_tick.skip(len as int),
                                        ),
                                    )
                                }
                            }
                        },
                    },
                },
            }
        }
    }
}

proof fn lemma_optional_round_trip(v: Option<u16>, rest: Seq<u8>)
    ensures
        parse_optional_le16(optional_le16(v) + rest, v is Some) == Some((v, rest)),
{
    match v {
        Some(x) => {
            lemma_le16_round_trip(x, rest);
        },
        None => {
            assert(optional_le16(v) + rest =~= rest);
        },
    }
}

proof fn lemma_optional_parsed(b: Seq<u8>, present: bool)
    requires
        parse_optional_le16(b, present) is Some,
    ensures
        b == optional_le16(parse_optional_le16(b, present).unwrap().0) + parse_optional_le16(
            b,
            present,
        ).unwrap().1,
        parse_optional_le16(b, present).unwrap().0 is Some == present,
{
    if present {
        lemma_le16_parsed(b);
    } else {
        assert(b =~= Seq::<u8>::empty() + b);
    }
}

/// The encoding of a message decodes to the message.
pub proof fn lemma_message_round_trip(m: MessageView, rest: Seq<u8>)
    requires
        encodable_message(m),
    ensures
        parse_message(encode_message(m) + rest) == Some((m, rest)),
{
    let b = encode_message(m) + rest;
    let len = payload(m).len();
    let id = m.id();
    let tick = tick_of_message(m);
    let after_len = message_body(m) + rest;
    let after_id = optional_le16(tick) + fragment_bytes(m) + payload(m) + rest;
    let after_tick = fragment_bytes(m) + payload(m) + rest;
    assert(b[0] == flags_of(m));
    assert(b.skip(1) =~= varint(len) + after_len);
    lemma_varint_len(len);
    lemma_varint_round_trip(len, after_len, 5);
    assert(after_len =~= optional_le16(id) + after_id);
    lemma_optional_round_trip(id, after_id);
    assert(after_id =~= optional_le16(tick) + after_tick);
    lemma_optional_round_trip(tick, after_tick);
    match m {
        MessageView::Single(data) => {
            assert(after_tick =~= data.bytes + rest);
            assert(after_tick.subrange(0, len as int) =~= data.bytes);
            assert(after_tick.skip(len as int) =~= rest);
        },
        MessageView::Fragment(data) => {
            assert(after_tick =~= seq![data.fragment_id, data.num_fragments] + data.bytes + rest);
            assert(after_tick.subrange(2, 2 + len as int) =~= data.bytes);
            assert(after_tick.skip(2 + len as int) =~= rest);
        },
    }
}

proof fn lemma_flags(flags: u8)
    requires
        flags < 8,
    ensures
        flags == (if flags % 2 == 1 {
            1int
        } else {
            0
        }) + (if (flags / 2) % 2 == 1 {
            2int
        } else {
            0
        }) + (if (flags / 4) % 2 == 1 {
            4int
        } else {
            0
        }),
{
}

proof fn lemma_body_with_rest(m: MessageView, rest: Seq<u8>)
    ensures
        message_body(m) + rest == optional_le16(m.id()) + (optional_le16(tick_of_message(m)) + (
        fragment_bytes(m) + (payload(m) + rest))),
        encode_message(m) + rest == seq![flags_of(m)] + (varint(payload(m).len()) + (message_body(m)
            + rest)),
{
    assert(message_body(m) + rest =~= optional_le16(m.id()) + (optional_le16(tick_of_message(m))
        + (fragment_bytes(m) + (payload(m) + rest))));
    assert(encode_message(m) + rest =~= seq![flags_of(m)] + (varint(payload(m).len()) + (
    message_body(m) + rest)));
}

proof fn lemma_payload_split(after_tick: Seq<u8>, m: MessageView, rest: Seq<u8>, len: nat)
    requires
        match m {
            MessageView::Single(data) => after_tick.len() >= len && data.bytes
                == after_tick.subrange(0, len as int) && rest == after_tick.skip(len as int),
            MessageView::Fragment(data) => after_tick.len() >= 2 + len && data.fragment_id
                == after_tick[0] && data.num_fragments == after_tick[1] && data.bytes
                == after_tick.subrange(2, 2 + len as int) && rest == after_tick.skip(2 + len as int),
        },
    ensures
        after_tick == fragment_bytes(m) + (payload(m) + rest),
        payload(m).len() == len,
{
    assert(after_tick =~= fragment_bytes(m) + (payload(m) + rest));
}

/// What decodes to a message is that message's encoding.
pub proof fn lemma_message_parsed(b: Seq<u8>)
    requires
        parse_message(b) is Some,
    ensures
        b == encode_message(parse_message(b).unwrap().0) + parse_message(b).unwrap().1,
        encodable_message(parse_message(b).unwrap().0),
        parse_message(b).unwrap().1.len() < b.len(),
{
    let m = parse_message(b).unwrap().0;
    let rest = parse_message(b).unwrap().1;
    let has_id = (b[0] / 2) % 2 == 1;
    let has_tick = (b[0] / 4) % 2 == 1;
    let (len, after_len) = parse_varint(b.skip(1), 5).unwrap();
    let (id, after_id) = parse_optional_le16(after_len, has_id).unwrap();
    let (tick, after_tick) = parse_optional_le16(after_id, has_tick).unwrap();
    lemma_varint_parsed(b.skip(1), 5);
    lemma_optional_parsed(after_len, has_id);
    lemma_optional_parsed(after_id, has_tick);
    lemma_payload_split(after_tick, m, rest, len);
    assert(m.id() == id);
    assert(tick_of_message(m) == tick);
    assert(b[0] == flags_of(m)) by {
        lemma_flags(b[0]);
    }
    lemma_body_with_rest(m, rest);
    assert(b =~= seq![b[0]] + b.skip(1));
}

/// The encoding of the messages `ms`, one after the other.
pub open spec fn encode_messages(ms: Seq<MessageView>) -> Seq<u8>
    decreases ms.len(),
{
    if ms.len() == 0 {
        Seq::empty()
    } else {
        encode_message(ms[0]) + encode_messages(ms.skip(1))
    }
}

/// The `count` messages at the head of `b`, and what follows them.
pub open spec fn parse_messages(b: Seq<u8>, count: nat) -> Option<(Seq<MessageView>, Seq<u8>)>
    decreases count,
{
    if count == 0 {
        Some((Seq::empty(), b))
    } else {
        match parse_message(b) {
            None => None,
            Some((m, after)) => match parse_messages(after, (count - 1) as nat) {
                None => None,
                Some((ms, rest)) => Some((seq![m] + ms, rest)),
            },
        }
    }
}

/// Whether every one of the messages has an encoding.
pub open spec fn encodable_messages(ms: Seq<MessageView>) -> bool {
    forall|i: int| 0 <= i < ms.len() ==> encodable_message(#[trigger] ms[i])
}

/// The encoding of messages decodes to the messages.
pub proof fn lemma_messages_round_trip(ms: Seq<MessageView>, rest: Seq<u8>)
    requires
        encodable_messages(ms),
    ensures
        parse_messages(encode_messages(ms) + rest, ms.len()) == Some((ms, rest)),
    decreases ms.len(),
{
    if ms.len() == 0 {
        assert(encode_messages(ms) + rest =~= rest);
    } else {
        let tail = ms.skip(1);
        let after = encode_messages(tail) + rest;
        assert(encode_messages(ms) + rest =~= encode_message(ms[0]) + after);
        lemma_message_round_trip(ms[0], after);
        assert(encodable_messages(tail)) by {
            assert forall|i: int| 0 <= i < tail.len() implies encodable_message(
                #[trigger] tail[i],
            ) by {
                assert(tail[i] == ms[i + 1]);
            }
        }
        lemma_messages_round_trip(tail, rest);
        assert(seq![ms[0]] + tail =~= ms);
    }
}

proof fn lemma_concat_assoc(a: Seq<u8>, b: Seq<u8>, c: Seq<u8>)
    ensures
        a + (b + c) == (a + b) + c,
{
    assert(a + (b + c) =~= (a + b) + c);
}

/// What decodes to messages is those messages' encoding.
pub proof fn lemma_messages_parsed(b: Seq<u8>, count: nat)
    requires
        parse_messages(b, count) is Some,
    ensures
        b == encode_messages(parse_messages(b, count).unwrap().0) + parse_messages(
            b,
            count,
        ).unwrap().1,
        parse_messages(b, count).unwrap().0.len() == count,
        encodable_messages(parse_messages(b, count).unwrap().0),
        parse_messages(b, count).unwrap().1.len() <= b.len(),
    decreases count,
{
    let (ms, rest) = parse_messages(b, count).unwrap();
    if count == 0 {
        assert(Seq::<u8>::empty() + b =~= b);
    } else {
        let (m, after) = parse_message(b).unwrap();
        let (tail, rest2) = parse_messages(after, (count - 1) as nat).unwrap();
        lemma_message_parsed(b);
        lemma_messages_parsed(after, (count - 1) as nat);
        assert(ms == seq![m] + tail);
        assert(ms.len() == count);
        assert(ms[0] == m);
        assert(ms.skip(1) =~= tail);
        assert(encode_messages(ms) == encode_message(m) + encode_messages(tail));
        lemma_concat_assoc(encode_message(m), encode_messages(tail), rest);
        assert forall|i: int| 0 <= i < ms.len() implies encodable_message(#[trigger] ms[i]) by {
            if i > 0 {
                assert(ms[i] == tail[i - 1]);
            }
        }
    }
}

/// The encoding of a block.
pub open spec fn encode_block(block: BlockView) -> Seq<u8> {
    varint(block.kind as nat) + (varint(block.messages.len()) + encode_messages(block.messages))
}

/// Whether a block has an encoding.
pub open spec fn encodable_block(block: BlockView) -> bool {
    block.messages.len() <= u32::MAX && encodable_messages(block.messages)
}

/// The block at the head of `b`, and what follows it.
pub open spec fn parse_block(b: Seq<u8>) -> Option<(BlockView, Seq<u8>)> {
    match parse_varint(b, 5) {
        None => None,
        Some((kind, after_kind)) => if kind > u16::MAX {
            None
        } else {
            match parse_varint(after_kind, 5) {
                None => None,
                Some((count, after_count)) => match parse_messages(after_count, count) {
                    None => None,
                    Some((messages, rest)) => Some((BlockView { kind: kind as u16, messages }, rest)),
                },
            }
        },
    }
}

/// The encoding of a block decodes to the block.
pub proof fn lemma_block_round_trip(block: BlockView, rest: Seq<u8>)
    requires
        encodable_block(block),
    ensures
        parse_block(encode_block(block) + rest) == Some((block, rest)),
{
    let after_count = encode_messages(block.messages) + rest;
    let after_kind = varint(block.messages.len()) + after_count;
    assert(encode_block(block) + rest =~= varint(block.kind as nat) + after_kind);
    lemma_varint_len(block.kind as nat);
    lemma_varint_round_trip(block.kind as nat, after_kind, 5);
    lemma_varint_len(block.messages.len());
    lemma_varint_round_trip(block.messages.len(), after_count, 5);
    lemma_messages_round_trip(block.messages, rest);
}

/// What decodes to a block is that block's encoding.
pub proof fn lemma_block_parsed(b: Seq<u8>)
    requires
        parse_block(b) is Some,
    ensures
        b == encode_block(parse_block(b).unwrap().0) + parse_block(b).unwrap().1,
        encodable_block(parse_block(b).unwrap().0),
        parse_block(b).unwrap().1.len() < b.len(),
{
    let (block, rest) = parse_block(b).unwrap();
    let (kind, after_kind) = parse_varint(b, 5).unwrap();
    let (count, after_count) = parse_varint(after_kind, 5).unwrap();
    lemma_varint_parsed(b, 5);
    lemma_varint_parsed(after_kind, 5);
    lemma_messages_parsed(after_count, count);
    assert(b =~= encode_block(block) + rest);
}

/// The encoding of the blocks `blocks`, one after the other.
pub open spec fn encode_blocks(blocks: Seq<BlockView>) -> Seq<u8>
    decreases blocks.len(),
{
    if blocks.len() == 0 {
        Seq::empty()
    } else {
        encode_block(blocks[0]) + encode_blocks(blocks.skip(1))
    }
}

/// The blocks that `b` consists of, if it consists of blocks.
pub open spec fn parse_blocks(b: Seq<u8>) -> Option<Seq<BlockView>>
    decreases b.len(),
{
    if b.len() == 0 {
        Some(Seq::empty())
    } else {
        match parse_block(b) {
            None => None,
            Some((block, rest)) => if rest.len() >= b.len() {
                None
            } else {
                match parse_blocks(rest) {
                    None => None,
                    Some(blocks) => Some(seq![block] + blocks),
                }
            },
        }
    }
}

/// Whether every one of the blocks has an encoding.
pub open spec fn encodable_blocks(blocks: Seq<BlockView>) -> bool {
    forall|i: int| 0 <= i < blocks.len() ==> encodable_block(#[trigger] blocks[i])
}

/// The encoding of blocks decodes to the blocks.
pub proof fn lemma_blocks_round_trip(blocks: Seq<BlockView>)
    requires
        encodable_blocks(blocks),
    ensures
        parse_blocks(encode_blocks(blocks)) == Some(blocks),
    decreases blocks.len(),
{
    if blocks.len() > 0 {
        let tail = blocks.skip(1);
        let rest = encode_blocks(tail);
        lemma_block_round_trip(blocks[0], rest);
        lemma_varint_len(blocks[0].kind as nat);
        assert(encodable_blocks(tail)) by {
            assert forall|i: int| 0 <= i < tail.len() implies encodable_block(#[trigger] tail[i]) by {
                assert(tail[i] == blocks[i + 1]);
            }
        }
        lemma_blocks_round_trip(tail);
        assert(seq![blocks[0]] + tail =~= blocks);
        assert(encode_blocks(blocks).len() > rest.len());
    }
}

/// What decodes to blocks is those blocks' encoding.
pub proof fn lemma_blocks_parsed(b: Seq<u8>)
    requires
        parse_blocks(b) is Some,
    ensures
        b == encode_blocks(parse_blocks(b).unwrap()),
        encodable_blocks(parse_blocks(b).unwrap()),
    decreases b.len(),
{
    let blocks = parse_blocks(b).unwrap();
    if b.len() == 0 {
        assert(b =~= encode_blocks(blocks));
    } else {
        let (block, rest) = parse_block(b).unwrap();
        let tail = parse_blocks(rest).unwrap();
        lemma_block_parsed(b);
        lemma_blocks_parsed(rest);
        assert(blocks == seq![block] + tail);
        assert(blocks.skip(1) =~= tail);
        assert(blocks[0] == block);
        assert(encode_blocks(blocks) == encode_block(block) + encode_blocks(tail));
        assert forall|i: int| 0 <= i < blocks.len() implies encodable_block(#[trigger] blocks[i]) by {
            if i > 0 {
                assert(blocks[i] == tail[i - 1]);
            }
        }
    }
}

/// The byte that stands for a packet type.
pub open spec fn type_byte(t: PacketType) -> u8 {
    match t {
        PacketType::Data => 0,
        PacketType::DataFragment => 1,
    }
}

/// The encoding of a header.
pub open spec fn encode_header(h: HeaderView) -> Seq<u8> {
    seq![type_byte(h.packet_type)] + (le16(h.packet_id) + (le16(h.tick) + (le16(h.latest_ack)
        + le32(h.ack_bits))))
}

/// The header at the head of `b`, and what follows it.
pub open spec fn parse_header(b: Seq<u8>) -> Option<(HeaderView, Seq<u8>)> {
    if b.len() == 0 || b[0] > 1 {
        None
    } else {
        match parse_le16(b.skip(1)) {
            None => None,
            Some((packet_id, r1)) => match parse_le16(r1) {
                None => None,
                Some((tick, r2)) => match parse_le16(r2) {
                    None => None,
                    Some((latest_ack, r3)) => match parse_le32(r3) {
                        None => None,
                        Some((ack_bits, rest)) => Some(
                            (
                                HeaderView {
                                    packet_type: if b[0] == 0 {
                                        PacketType::Data
                                    } else {
                                        PacketType::DataFragment
                                    },
                                    packet_id,
                                    tick,
                                    latest_ack,
                                    ack_bits,
                                },
                                rest,
                            ),
                        ),
                    },
                },
            },
        }
    }
}

/// The encoding of a header decodes to the header.
pub proof fn lemma_header_round_trip(h: HeaderView, rest: Seq<u8>)
    ensures
        parse_header(encode_header(h) + rest) == Some((h, rest)),
{
    let r3 = le32(h.ack_bits) + rest;
    let r2 = le16(h.latest_ack) + r3;
    let r1 = le16(h.tick) + r2;
    let r0 = le16(h.packet_id) + r1;
    let b = encode_header(h) + rest;
    assert(b =~= seq![type_byte(h.packet_type)] + r0);
    assert(b.skip(1) =~= r0);
    lemma_le16_round_trip(h.packet_id, r1);
    lemma_le16_round_trip(h.tick, r2);
    lemma_le16_round_trip(h.latest_ack, r3);
    lemma_le32_round_trip(h.ack_bits, rest);
}

/// What decodes to a header is that header's encoding.
pub proof fn lemma_header_parsed(b: Seq<u8>)
    requires
        parse_header(b) is Some,
    ensures
        b == encode_header(parse_header(b).unwrap().0) + parse_header(b).unwrap().1,
{
    let (h, rest) = parse_header(b).unwrap();
    let (packet_id, r1) = parse_le16(b.skip(1)).unwrap();
    let (tick, r2) = parse_le16(r1).unwrap();
    let (latest_ack, r3) = parse_le16(r2).unwrap();
    lemma_le16_parsed(b.skip(1));
    lemma_le16_parsed(r1);
    lemma_le16_parsed(r2);
    lemma_le32_parsed(r3);
    assert(b =~= seq![b[0]] + b.skip(1));
    assert(b =~= encode_header(h) + rest);
}

/// The encoding of a packet.
pub open spec fn encode_packet(p: PacketView) -> Seq<u8> {
    encode_header(p.header) + encode_blocks(p.blocks)
}

/// Whether a packet has an encoding.
pub open spec fn encodable_packet(p: PacketView) -> bool {
    encodable_blocks(p.blocks)
}

/// The packet that `b` is, if it is one.
pub open spec fn parse_packet(b: Seq<u8>) -> Option<PacketView> {
    match parse_header(b) {
        None => None,
        Some((header, rest)) => match parse_blocks(rest) {
            None => None,
            Some(blocks) => Some(PacketView { header, blocks }),
        },
    }
}

/// Round trip, from packets: the encoding of a packet decodes to the packet.
pub proof fn lemma_decode_encode(p: PacketView)
    requires
        encodable_packet(p),
    ensures
        parse_packet(encode_packet(p)) == Some(p),
{
    lemma_header_round_trip(p.header, encode_blocks(p.blocks));
    lemma_blocks_round_trip(p.blocks);
}

/// Round trip, from bytes: bytes that decode to a packet are that packet's
/// encoding.
pub proof fn lemma_encode_decode(b: Seq<u8>)
    requires
        parse_packet(b) is Some,
    ensures
        encode_packet(parse_packet(b).unwrap()) == b,
        encodable_packet(parse_packet(b).unwrap()),
{
    lemma_header_parsed(b);
    lemma_blocks_parsed(parse_header(b).unwrap().1);
}

proof fn lemma_message_size(m: MessageView)
    requires
        encodable_message(m),
    ensures
        encode_message(m).len() <= message_cost(m),
{
    lemma_varint_len(payload(m).len());
}

proof fn lemma_messages_append(ms: Seq<MessageView>, m: MessageView)
    ensures
        encode_messages(ms.push(m)) == encode_messages(ms) + encode_message(m),
    decreases ms.len(),
{
    let all = ms.push(m);
    if ms.len() == 0 {
        assert(all.skip(1) =~= Seq::<MessageView>::empty());
        assert(all[0] == m);
        assert(encode_messages(all.skip(1)) =~= Seq::<u8>::empty());
        assert(encode_messages(ms) =~= Seq::<u8>::empty());
        assert(encode_messages(all) =~= encode_messages(ms) + encode_message(m));
    } else {
        lemma_messages_append(ms.skip(1), m);
        assert(all.skip(1) =~= ms.skip(1).push(m));
        assert(all[0] == ms[0]);
        lemma_concat_assoc(encode_message(ms[0]), encode_messages(ms.skip(1)), encode_message(m));
    }
}

proof fn lemma_messages_size(ms: Seq<MessageView>)
    requires
        encodable_messages(ms),
    ensures
        encode_messages(ms).len() <= group_cost(ms),
    decreases ms.len(),
{
    if ms.len() > 0 {
        let front = ms.drop_last();
        assert(encodable_messages(front)) by {
            assert forall|i: int| 0 <= i < front.len() implies encodable_message(
                #[trigger] front[i],
            ) by {
                assert(front[i] == ms[i]);
            }
        }
        lemma_messages_size(front);
        assert(ms =~= front.push(ms.last()));
        lemma_messages_append(front, ms.last());
        assert(encodable_message(ms[ms.len() - 1]));
        lemma_message_size(ms.last());
    }
}

/// A packet fits. A packet that carries one block of messages takes no more
/// bytes than the room that the assembler counts for its messages and the
/// room that it allows for header and block prefix.
pub proof fn lemma_packet_fits(p: PacketView)
    requires
        encodable_packet(p),
        p.blocks.len() == 1,
    ensures
        encode_packet(p).len() <= PACKET_OVERHEAD + group_cost(p.blocks[0].messages),
        MESSAGE_OVERHEAD == 12 && PACKET_OVERHEAD == 19,
{
    let block = p.blocks[0];
    lemma_messages_size(block.messages);
    lemma_varint_len(block.kind as nat);
    lemma_varint_len(block.messages.len());
    assert(crate::codec::varint_len(block.kind as nat) <= 3) by {
        reveal_with_fuel(crate::codec::varint_len, 4);
    }
    assert(p.blocks.skip(1) =~= Seq::<BlockView>::empty());
    assert(encode_blocks(p.blocks.skip(1)) =~= Seq::<u8>::empty());
    assert(encode_blocks(p.blocks) =~= encode_block(block));
}

fn put_bytes(out: &mut Vec<u8>, bytes: &Vec<u8>)
    ensures
        final(out)@ == old(out)@ + bytes@,
{
    let mut i: usize = 0;
    assert(out@ =~= old(out)@ + bytes@.take(0));
    while i < bytes.len()
        invariant
            i <= bytes.len(),
            out@ == old(out)@ + bytes@.take(i as int),
        decreases bytes.len() - i,
    {
        out.push(bytes[i]);
        assert(out@ =~= old(out)@ + bytes@.take(i as int + 1));
        i += 1;
    }
    assert(bytes@.take(bytes.len() as int) =~= bytes@);
}

pub fn copy_range(bytes: &Vec<u8>, from: usize, to: usize) -> (r: Vec<u8>)
    requires
        from <= to <= bytes.len(),
    ensures
        r@ == bytes@.subrange(from as int, to as int),
{
    let mut r: Vec<u8> = Vec::new();
    let mut i: usize = from;
    assert(r@ =~= bytes@.subrange(from as int, from as int));
    while i < to
        invariant
            from <= i <= to <= bytes.len(),
            r@ == bytes@.subrange(from as int, i as int),
        decreases to - i,
    {
        r.push(bytes[i]);
        assert(r@ =~= bytes@.subrange(from as int, i as int + 1));
        i += 1;
    }
    r
}

fn put_optional(out: &mut Vec<u8>, v: Option<u16>)
    ensures
        final(out)@ == old(out)@ + optional_le16(v),
{
    match v {
        Some(x) => {
            put_le16(out, x);
        },
        None => {
            assert(out@ =~= old(out)@ + optional_le16(v));
        },
    }
}

fn put_message(out: &mut Vec<u8>, message: &MessageContainer) -> (ok: bool)
    ensures
        ok == encodable_message(message@),
        ok ==> final(out)@ == old(out)@ + encode_message(message@),
{
    let m = message;
    let (len, id, tick) = match m {
        MessageContainer::Single(data) => (
            data.bytes.len(),
            match data.id {
                Some(id) => Some(id.0),
                None => None,
            },
            match data.tick {
                Some(tick) => Some(tick.0),
                None => None,
            },
        ),
        MessageContainer::Fragment(data) => (
            data.bytes.len(),
            Some(data.message_id.0),
            match data.tick {
                Some(tick) => Some(tick.0),
                None => None,
            },
        ),
    };
    if len > 0xffff_ffff {
        return false;
    }
    let mut flags: u8 = 0;
    if let MessageContainer::Fragment(_) = m {
        flags = flags + FLAG_FRAGMENT;
    }
    if id.is_some() {
        flags = flags + FLAG_ID;
    }
    if tick.is_some() {
        flags = flags + FLAG_TICK;
    }
    assert(flags == flags_of(m@));
    assert(id == m@.id());
    assert(tick == tick_of_message(m@));
    out.push(flags);
    put_varint(out, len as u32);
    put_optional(out, id);
    put_optional(out, tick);
    match m {
        MessageContainer::Single(data) => {
            put_bytes(out, &data.bytes);
        },
        MessageContainer::Fragment(data) => {
            out.push(data.fragment_id);
            out.push(data.num_fragments);
            put_bytes(out, &data.bytes);
        },
    }
    proof {
        assert(out@ =~= old(out)@ + encode_message(m@));
    }
    true
}

fn put_messages(out: &mut Vec<u8>, messages: &Vec<MessageContainer>) -> (ok: bool)
    ensures
        ok == encodable_messages(messages_view(messages@)),
        ok ==> final(out)@ == old(out)@ + encode_messages(messages_view(messages@)),
{
    let ghost all = messages_view(messages@);
    let mut i: usize = 0;
    proof {
        assert(all.skip(0) =~= all);
    }
    while i < messages.len()
        invariant
            all == messages_view(messages@),
            i <= messages.len(),
            forall|k: int| 0 <= k < i ==> encodable_message(#[trigger] all[k]),
            out@ + encode_messages(all.skip(i as int)) == old(out)@ + encode_messages(all),
        decreases messages.len() - i,
    {
        let ghost before = out@;
        proof {
            assert(all.skip(i as int)[0] == all[i as int]);
            assert(all.skip(i as int).skip(1) =~= all.skip(i as int + 1));
        }
        if !put_message(out, &messages[i]) {
            assert(!encodable_message(all[i as int]));
            return false;
        }
        proof {
            assert(out@ + encode_messages(all.skip(i as int + 1)) =~= before + encode_messages(
                all.skip(i as int),
            ));
        }
        i += 1;
    }
    proof {
        assert(all.skip(i as int) =~= Seq::<MessageView>::empty());
        assert(out@ + encode_messages(all.skip(i as int)) =~= out@);
    }
    true
}

fn put_block(out: &mut Vec<u8>, block: &ChannelBlock) -> (ok: bool)
    ensures
        ok == encodable_block(block@),
        ok ==> final(out)@ == old(out)@ + encode_block(block@),
{
    if block.messages.len() > 0xffff_ffff {
        return false;
    }
    put_varint(out, block.kind.0 as u32);
    put_varint(out, block.messages.len() as u32);
    let ok = put_messages(out, &block.messages);
    proof {
        if ok {
            assert(out@ =~= old(out)@ + encode_block(block@));
        }
    }
    ok
}

fn put_blocks(out: &mut Vec<u8>, blocks: &Vec<ChannelBlock>) -> (ok: bool)
    ensures
        ok == encodable_blocks(blocks_view(blocks@)),
        ok ==> final(out)@ == old(out)@ + encode_blocks(blocks_view(blocks@)),
{
    let ghost all = blocks_view(blocks@);
    let mut i: usize = 0;
    proof {
        assert(all.skip(0) =~= all);
    }
    while i < blocks.len()
        invariant
            all == blocks_view(blocks@),
            i <= blocks.len(),
            forall|k: int| 0 <= k < i ==> encodable_block(#[trigger] all[k]),
            out@ + encode_blocks(all.skip(i as int)) == old(out)@ + encode_blocks(all),
        decreases blocks.len() - i,
    {
        let ghost before = out@;
        proof {
            assert(all.skip(i as int)[0] == all[i as int]);
            assert(all.skip(i as int).skip(1) =~= all.skip(i as int + 1));
        }
        if !put_block(out, &blocks[i]) {
            assert(!encodable_block(all[i as int]));
            return false;
        }
        proof {
            assert(out@ + encode_blocks(all.skip(i as int + 1)) =~= before + encode_blocks(
                all.skip(i as int),
            ));
        }
        i += 1;
    }
    proof {
        assert(all.skip(i as int) =~= Seq::<BlockView>::empty());
        assert(out@ + encode_blocks(all.skip(i as int)) =~= out@);
    }
    true
}

/// Encodes a packet. A packet without an encoding is refused.
pub fn encode(packet: &Packet) -> (r: Result<Vec<u8>, EncodeError>)
    ensures
        match r {
            Ok(bytes) => encodable_packet(packet@) && bytes@ == encode_packet(packet@),
            Err(e) => !encodable_packet(packet@) && e == EncodeError::TooLarge,
        },
{
    let mut out: Vec<u8> = Vec::new();
    let header = &packet.header;
    out.push(
        match header.packet_type {
            PacketType::Data => 0,
            PacketType::DataFragment => 1,
        },
    );
    put_le16(&mut out, header.packet_id.0);
    put_le16(&mut out, header.tick.0);
    put_le16(&mut out, header.latest_ack.0);
    put_le32(&mut out, header.ack_bits);
    proof {
        assert(out@ =~= encode_header(packet@.header));
    }
    if !put_blocks(&mut out, &packet.blocks) {
        return Err(EncodeError::TooLarge);
    }
    Ok(out)
}

fn get_optional(bytes: &Vec<u8>, pos: usize, present: bool) -> (r: Option<(Option<u16>, usize)>)
    requires
        pos <= bytes.len(),
    ensures
        match r {
            Some((v, next)) => pos <= next <= bytes.len() && parse_optional_le16(
                bytes@.skip(pos as int),
                present,
            ) == Some((v, bytes@.skip(next as int))),
            None => parse_optional_le16(bytes@.skip(pos as int), present) is None,
        },
{
    if present {
        match get_le16(bytes, pos) {
            Some((v, next)) => {
                proof {
                    assert(bytes@.skip(pos as int).len() >= 2);
                }
                Some((Some(v), next))
            },
            None => None,
        }
    } else {
        Some((None, pos))
    }
}

fn get_message(bytes: &Vec<u8>, pos: usize) -> (r: Option<(MessageContainer, usize)>)
    requires
        pos <= bytes.len(),
    ensures
        match r {
            Some((m, next)) => pos < next <= bytes.len() && parse_message(bytes@.skip(pos as int))
                == Some((m@, bytes@.skip(next as int))),
            None => parse_message(bytes@.skip(pos as int)) is None,
        },
{
    let ghost b = bytes@.skip(pos as int);
    if pos >= bytes.len() {
        return None;
    }
    let flags = bytes[pos];
    assert(b[0] == flags);
    if flags >= 8 {
        return None;
    }
    let fragment = flags % 2 == 1;
    let has_id = (flags / 2) % 2 == 1;
    let has_tick = (flags / 4) % 2 == 1;
    if fragment && !has_id {
        return None;
    }
    proof {
        assert(b.skip(1) =~= bytes@.skip(pos as int + 1));
    }
    let (len, after_len) = match get_varint(bytes, pos + 1, crate::codec::MAX_VARINT_LEN) {
        Some(found) => found,
        None => {
            return None;
        },
    };
    let (id, after_id) = match get_optional(bytes, after_len, has_id) {
        Some(found) => found,
        None => {
            return None;
        },
    };
    let (tick, after_tick) = match get_optional(bytes, after_id, has_tick) {
        Some(found) => found,
        None => {
            return None;
        },
    };
    let ghost tail = bytes@.skip(after_tick as int);
    let left = bytes.len() - after_tick;
    let len = len as usize;
    let tick = match tick {
        Some(t) => Some(Tick(t)),
        None => None,
    };
    if fragment {
        if left < 2 || left - 2 < len {
            return None;
        }
        let fragment_id = bytes[after_tick];
        let num_fragments = bytes[after_tick + 1];
        let start = after_tick + 2;
        let payload = copy_range(bytes, start, start + len);
        proof {
            assert(tail[0] == fragment_id && tail[1] == num_fragments);
            assert(tail.subrange(2, 2 + len as int) =~= payload@);
            assert(tail.skip(2 + len as int) =~= bytes@.skip(start as int + len as int));
        }
        let message_id = match id {
            Some(id) => MessageId(id),
            None => MessageId(0),
        };
        Some(
            (
                MessageContainer::Fragment(
                    FragmentData { message_id, tick, fragment_id, num_fragments, bytes: payload },
                ),
                start + len,
            ),
        )
    } else {
        if left < len {
            return None;
        }
        let payload = copy_range(bytes, after_tick, after_tick + len);
        proof {
            assert(tail.subrange(0, len as int) =~= payload@);
            assert(tail.skip(len as int) =~= bytes@.skip(after_tick as int + len as int));
        }
        let id = match id {
            Some(id) => Some(MessageId(id)),
            None => None,
        };
        Some((MessageContainer::Single(SingleData { id, tick, bytes: payload }), after_tick + len))
    }
}

fn get_messages(bytes: &Vec<u8>, pos: usize, count: u32) -> (r: Option<
    (Vec<MessageContainer>, usize),
>)
    requires
        pos <= bytes.len(),
    ensures
        match r {
            Some((ms, next)) => pos <= next <= bytes.len() && parse_messages(
                bytes@.skip(pos as int),
                count as nat,
            ) == Some((messages_view(ms@), bytes@.skip(next as int))),
            None => parse_messages(bytes@.skip(pos as int), count as nat) is None,
        },
{
    let mut messages: Vec<MessageContainer> = Vec::new();
    let mut at: usize = pos;
    let mut i: u32 = 0;
    proof {
        let whole = parse_messages(bytes@.skip(pos as int), count as nat);
        if whole is Some {
            assert(messages_view(messages@) + whole.unwrap().0 =~= whole.unwrap().0);
        }
    }
    while i < count
        invariant
            i <= count,
            pos <= at <= bytes.len(),
            parse_messages(bytes@.skip(pos as int), count as nat) == match parse_messages(
                bytes@.skip(at as int),
                (count - i) as nat,
            ) {
                None => None,
                Some((ms, rest)) => Some((messages_view(messages@) + ms, rest)),
            },
        decreases count - i,
    {
        let ghost done = messages_view(messages@);
        match get_message(bytes, at) {
            None => {
                return None;
            },
            Some((message, next)) => {
                messages.push(message);
                proof {
                    let later = parse_messages(bytes@.skip(next as int), (count - i - 1) as nat);
                    if later is Some {
                        assert(messages_view(messages@) + later.unwrap().0 =~= done + (seq![
                            message@,
                        ] + later.unwrap().0));
                    }
                }
                at = next;
            },
        }
        i += 1;
    }
    proof {
        assert(messages_view(messages@) + Seq::<MessageView>::empty() =~= messages_view(
            messages@,
        ));
    }
    Some((messages, at))
}

fn get_block(bytes: &Vec<u8>, pos: usize) -> (r: Option<(ChannelBlock, usize)>)
    requires
        pos <= bytes.len(),
    ensures
        match r {
            Some((block, next)) => pos < next <= bytes.len() && parse_block(bytes@.skip(pos as int))
                == Some((block@, bytes@.skip(next as int))),
            None => parse_block(bytes@.skip(pos as int)) is None,
        },
{
    let (kind, after_kind) = match get_varint(bytes, pos, crate::codec::MAX_VARINT_LEN) {
        Some(found) => found,
        None => {
            return None;
        },
    };
    if kind > 0xffff {
        return None;
    }
    let (count, after_count) = match get_varint(bytes, after_kind, crate::codec::MAX_VARINT_LEN) {
        Some(found) => found,
        None => {
            return None;
        },
    };
    match get_messages(bytes, after_count, count) {
        Some((messages, next)) => Some((ChannelBlock { kind: ChannelKind(kind as u16), messages }, next)),
        None => None,
    }
}

/// Decodes a packet. Bytes that are no packet are refused.
pub fn decode(bytes: &Vec<u8>) -> (r: Result<Packet, DecodeError>)
    ensures
        match r {
            Ok(packet) => parse_packet(bytes@) == Some(packet@),
            Err(e) => parse_packet(bytes@) is None && e == DecodeError::Malformed,
        },
{
    proof {
        assert(bytes@.skip(0) =~= bytes@);
    }
    if bytes.len() == 0 || bytes[0] > 1 {
        return Err(DecodeError::Malformed);
    }
    let packet_type = if bytes[0] == 0 {
        PacketType::Data
    } else {
        PacketType::DataFragment
    };
    let (packet_id, after_id) = match get_le16(bytes, 1) {
        Some(found) => found,
        None => {
            return Err(DecodeError::Malformed);
        },
    };
    let (tick, after_tick) = match get_le16(bytes, after_id) {
        Some(found) => found,
        None => {
            return Err(DecodeError::Malformed);
        },
    };
    let (latest_ack, after_ack) = match get_le16(bytes, after_tick) {
        Some(found) => found,
        None => {
            return Err(DecodeError::Malformed);
        },
    };
    let (ack_bits, start) = match get_le32(bytes, after_ack) {
        Some(found) => found,
        None => {
            return Err(DecodeError::Malformed);
        },
    };
    let header = PacketHeader {
        packet_type,
        packet_id: PacketId(packet_id),
        tick: Tick(tick),
        latest_ack: PacketId(latest_ack),
        ack_bits,
    };
    assert(parse_header(bytes@) == Some((header@, bytes@.skip(start as int))));
    let mut blocks: Vec<ChannelBlock> = Vec::new();
    let mut at: usize = start;
    proof {
        let whole = parse_blocks(bytes@.skip(start as int));
        if whole is Some {
            assert(blocks_view(blocks@) + whole.unwrap() =~= whole.unwrap());
        }
    }
    while at < bytes.len()
        invariant
            start <= at <= bytes.len(),
            parse_header(bytes@) == Some((header@, bytes@.skip(start as int))),
            parse_blocks(bytes@.skip(start as int)) == match parse_blocks(bytes@.skip(at as int)) {
                None => None,
                Some(later) => Some(blocks_view(blocks@) + later),
            },
        decreases bytes.len() - at,
    {
        let ghost done = blocks_view(blocks@);
        match get_block(bytes, at) {
            None => {
                return Err(DecodeError::Malformed);
            },
            Some((block, next)) => {
                blocks.push(block);
                proof {
                    let later = parse_blocks(bytes@.skip(next as int));
                    if later is Some {
                        assert(blocks_view(blocks@) + later.unwrap() =~= done + (seq![block@]
                            + later.unwrap()));
                    }
                }
                at = next;
            },
        }
    }
    proof {
        assert(blocks_view(blocks@) + Seq::<BlockView>::empty() =~= blocks_view(blocks@));
    }
    Ok(Packet { header, blocks })
}

} // verus!
