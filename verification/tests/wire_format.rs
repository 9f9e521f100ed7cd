use netsync::channel::ChannelKind;
use netsync::codec::{get_le16, get_le32, get_varint, put_le16, put_le32, put_varint};
use netsync::message::{FragmentData, MessageContainer, SingleData};
use netsync::packet::{ChannelBlock, Packet, PacketHeader, PacketType};
use netsync::wire::{decode, encode, DecodeError};
use netsync::wrapping_id::{MessageId, PacketId, Tick};

fn varint(v: u32) -> Vec<u8> {
    let mut out = Vec::new();
    put_varint(&mut out, v);
    out
}

fn header(packet_type: PacketType) -> PacketHeader {
    PacketHeader {
        packet_type,
        packet_id: PacketId(0x0102),
        tick: Tick(0x0304),
        latest_ack: PacketId(0x0506),
        ack_bits: 0x0708_090A,
    }
}

fn sample_packet() -> Packet {
    Packet {
        header: header(PacketType::Data),
        blocks: vec![
            ChannelBlock {
                kind: ChannelKind(3),
                messages: vec![
                    MessageContainer::Single(SingleData {
                        id: Some(MessageId(7)),
                        tick: Some(Tick(9)),
                        bytes: vec![0xAA, 0xBB],
                    }),
                    MessageContainer::Single(SingleData { id: None, tick: None, bytes: Vec::new() }),
                ],
            },
            ChannelBlock {
                kind: ChannelKind(300),
                messages: vec![MessageContainer::Fragment(FragmentData {
                    message_id: MessageId(0x1234),
                    tick: None,
                    fragment_id: 1,
                    num_fragments: 4,
                    bytes: vec![1, 2, 3],
                })],
            },
        ],
    }
}

#[test]
fn varints_are_little_endian_groups_of_seven_bits() {
    assert_eq!(varint(0), vec![0x00]);
    assert_eq!(varint(127), vec![0x7F]);
    assert_eq!(varint(128), vec![0x80, 0x01]);
    assert_eq!(varint(300), vec![0xAC, 0x02]);
    assert_eq!(varint(16384), vec![0x80, 0x80, 0x01]);
    assert_eq!(varint(u32::MAX), vec![0xFF, 0xFF, 0xFF, 0xFF, 0x0F]);
}

#[test]
fn varints_decode_to_what_was_encoded() {
    for v in [0u32, 1, 127, 128, 255, 300, 16383, 16384, 1 << 21, 1 << 28, u32::MAX] {
        let mut bytes = vec![0xEE];
        put_varint(&mut bytes, v);
        let end = bytes.len();
        bytes.push(0x55);
        assert_eq!(get_varint(&bytes, 1, 5), Some((v, end)));
    }
}

#[test]
fn varints_that_are_not_the_shortest_are_refused() {
    assert_eq!(get_varint(&vec![0x80, 0x00], 0, 5), None);
    assert_eq!(get_varint(&vec![0xAC, 0x82, 0x00], 0, 5), None);
}

#[test]
fn varints_that_do_not_fit_or_do_not_end_are_refused() {
    assert_eq!(get_varint(&vec![0xFF, 0xFF, 0xFF, 0xFF, 0x1F], 0, 5), None);
    assert_eq!(get_varint(&vec![0x80, 0x80, 0x80, 0x80, 0x80, 0x01], 0, 5), None);
    assert_eq!(get_varint(&vec![0x80], 0, 5), None);
    assert_eq!(get_varint(&Vec::new(), 0, 5), None);
    assert_eq!(get_varint(&vec![0x01], 0, 0), None);
}

#[test]
fn fixed_integers_are_little_endian() {
    let mut out = Vec::new();
    put_le16(&mut out, 0x1234);
    put_le32(&mut out, 0xDEAD_BEEF);
    assert_eq!(out, vec![0x34, 0x12, 0xEF, 0xBE, 0xAD, 0xDE]);
    assert_eq!(get_le16(&out, 0), Some((0x1234, 2)));
    assert_eq!(get_le32(&out, 2), Some((0xDEAD_BEEF, 6)));
    assert_eq!(get_le16(&out, 5), None);
    assert_eq!(get_le32(&out, 3), None);
}

#[test]
fn packet_bytes_are_as_the_format_says() {
    let bytes = encode(&sample_packet()).unwrap();
    let expected: Vec<u8> = vec![
        // header: type, packet id, tick, latest ack, ack bits
        0x00, 0x02, 0x01, 0x04, 0x03, 0x06, 0x05, 0x0A, 0x09, 0x08, 0x07,
        // block of channel 3 with two messages
        0x03, 0x02,
        // flags id + tick, length 2, id 7, tick 9, payload
        0x06, 0x02, 0x07, 0x00, 0x09, 0x00, 0xAA, 0xBB,
        // flags none, length 0
        0x00, 0x00,
        // block of channel 300 with one message
        0xAC, 0x02, 0x01,
        // flags fragment + id, length 3, id, index 1 of 4, payload
        0x03, 0x03, 0x34, 0x12, 0x01, 0x04, 0x01, 0x02, 0x03,
    ];
    assert_eq!(bytes, expected);
}

#[test]
fn decode_of_encode_is_the_packet() {
    let packet = sample_packet();
    assert_eq!(decode(&encode(&packet).unwrap()), Ok(packet));
    let empty = Packet { header: header(PacketType::DataFragment), blocks: Vec::new() };
    assert_eq!(decode(&encode(&empty).unwrap()), Ok(empty));
}

#[test]
fn encode_of_decode_is_the_bytes() {
    let bytes = encode(&sample_packet()).unwrap();
    let packet = decode(&bytes).unwrap();
    assert_eq!(encode(&packet).unwrap(), bytes);
}

#[test]
fn malformed_bytes_are_refused() {
    let good = encode(&sample_packet()).unwrap();
    // every proper prefix of a packet with blocks ends too early, except after a block
    for cut in 0..good.len() {
        let part = good[..cut].to_vec();
        let whole_blocks = cut == 11 || cut == 23;
        assert_eq!(decode(&part).is_ok(), whole_blocks, "cut at {}", cut);
    }
    // an unknown packet type
    let mut bad = good.clone();
    bad[0] = 2;
    assert_eq!(decode(&bad), Err(DecodeError::Malformed));
    // flags that the format does not know
    let mut bad = good.clone();
    bad[13] = 0x08;
    assert_eq!(decode(&bad), Err(DecodeError::Malformed));
    // a fragment without an id
    let mut bad = good.clone();
    bad[26] = 0x01;
    assert_eq!(decode(&bad), Err(DecodeError::Malformed));
    // a channel kind that does not fit 16 bits
    let mut bad = good[..11].to_vec();
    bad.extend_from_slice(&[0x80, 0x80, 0x04, 0x00]);
    assert_eq!(decode(&bad), Err(DecodeError::Malformed));
    // a payload that is longer than what is left
    let mut bad = good[..11].to_vec();
    bad.extend_from_slice(&[0x01, 0x01, 0x00, 0x05, 0x01]);
    assert_eq!(decode(&bad), Err(DecodeError::Malformed));
}
