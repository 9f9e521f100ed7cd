use netsync::channel::{
    ChannelDirection, ChannelKind, ChannelMode, ChannelRegistry, ChannelSettings,
};
use netsync::connection::{Connection, ConnectionError};
use netsync::fragment_receiver::FragmentReceiver;
use netsync::fragment_sender::{split_payload, FRAGMENT_SIZE, MAX_FRAGMENTS};
use netsync::message::MessageContainer;
use netsync::packet::PacketType;
use netsync::sender::{ChannelSender, QueueError, MAX_OUTSTANDING};
use netsync::wrapping_id::{MessageId, Tick};

fn bytes(len: usize) -> Vec<u8> {
    (0..len).map(|i| (i % 251) as u8).collect()
}

#[test]
fn payload_is_cut_into_fragments_of_the_given_size() {
    let payload = bytes(2500);
    let fragments = split_payload(MessageId(7), Some(Tick(3)), &payload, 1024).unwrap();
    assert_eq!(fragments.len(), 3);
    let sizes: Vec<usize> = fragments.iter().map(|f| f.bytes.len()).collect();
    assert_eq!(sizes, vec![1024, 1024, 452]);
    for (index, fragment) in fragments.iter().enumerate() {
        assert_eq!(fragment.message_id, MessageId(7));
        assert_eq!(fragment.tick, Some(Tick(3)));
        assert_eq!(fragment.fragment_id as usize, index);
        assert_eq!(fragment.num_fragments, 3);
    }
    assert_eq!(fragments[1].bytes[0], payload[1024]);
    // a payload that is a multiple of the size has no short last fragment
    assert_eq!(split_payload(MessageId(0), None, &bytes(2048), 1024).unwrap().len(), 2);
    assert_eq!(split_payload(MessageId(0), None, &Vec::new(), 1024).unwrap().len(), 0);
}

#[test]
fn payload_of_too_many_fragments_is_refused() {
    assert_eq!(split_payload(MessageId(0), None, &bytes(255), 1).unwrap().len(), 255);
    assert_eq!(split_payload(MessageId(0), None, &bytes(256), 1), None);
}

#[test]
fn cut_fragments_reassemble_to_the_payload_in_any_order() {
    let payload = bytes(5000);
    let mut fragments = split_payload(MessageId(9), None, &payload, 1024).unwrap();
    fragments.reverse();
    fragments.swap(0, 2);
    let mut reassembler = FragmentReceiver::new();
    let mut handed_out = Vec::new();
    for fragment in fragments {
        if let Some(whole) = reassembler.receive_fragment(fragment).unwrap() {
            handed_out.push(whole);
        }
    }
    assert_eq!(handed_out.len(), 1);
    assert_eq!(handed_out[0].id, Some(MessageId(9)));
    assert_eq!(handed_out[0].bytes, payload);
}

#[test]
fn sender_cuts_a_large_message() {
    let mut sender = ChannelSender::new(true);
    assert_eq!(sender.buffer_send(MessageContainer::new(bytes(FRAGMENT_SIZE))), Ok(MessageId(0)));
    assert_eq!(sender.queued_len(), 1);
    assert_eq!(
        sender.buffer_send(MessageContainer::new(bytes(FRAGMENT_SIZE + 1))),
        Ok(MessageId(1))
    );
    assert_eq!(sender.queued_len(), 3);
    let due = sender.take_due(0, 100);
    assert!(matches!(due[0], MessageContainer::Single(_)));
    assert!(matches!(due[1], MessageContainer::Fragment(_)));
    assert_eq!(due[1].id(), Some(MessageId(1)));
    assert_eq!(due[2].id(), Some(MessageId(1)));
    // each fragment is acknowledged by itself
    sender.retire(MessageId(1), Some(0));
    assert_eq!(sender.queued_len(), 2);
}

#[test]
fn sender_refuses_what_it_cannot_cut_or_hold() {
    let mut sender = ChannelSender::new(true);
    assert_eq!(
        sender.buffer_send(MessageContainer::new(bytes(FRAGMENT_SIZE * MAX_FRAGMENTS + 1))),
        Err(QueueError::MessageTooLarge)
    );
    assert_eq!(sender.queued_len(), 0);
    for _ in 0..MAX_OUTSTANDING - 2 {
        sender.buffer_send(MessageContainer::new(Vec::new())).unwrap();
    }
    // three fragments do not fit where two entries are left
    assert_eq!(
        sender.buffer_send(MessageContainer::new(bytes(3 * FRAGMENT_SIZE))),
        Err(QueueError::TooManyUnacked)
    );
    assert_eq!(sender.buffer_send(MessageContainer::new(bytes(2 * FRAGMENT_SIZE))).is_ok(), true);
    assert_eq!(sender.queued_len(), MAX_OUTSTANDING);
}

#[test]
fn a_large_message_crosses_a_connection() {
    let mut registry = ChannelRegistry::new();
    registry.add_channel(ChannelSettings {
        kind: ChannelKind(1),
        direction: ChannelDirection::Bidirectional,
        mode: ChannelMode::ReliableOrdered,
    });
    let mut alice = Connection::new(&registry);
    let mut bob = Connection::new(&registry);
    let payload = bytes(3000);
    alice.buffer_send(MessageContainer::new(vec![1]), ChannelKind(1)).unwrap();
    alice.buffer_send(MessageContainer::new(payload.clone()), ChannelKind(1)).unwrap();
    assert_eq!(
        alice.buffer_send(MessageContainer::new(bytes(300_000)), ChannelKind(1)),
        Err(ConnectionError::MessageTooLarge)
    );
    let mut packets = alice.send_packets(0, Tick(0), 100, 1183).unwrap();
    // one packet for the small message, one for each fragment
    assert_eq!(packets.len(), 4);
    assert_eq!(packets[0].header.packet_type, PacketType::Data);
    assert_eq!(packets[1].header.packet_type, PacketType::DataFragment);
    packets.reverse();
    for packet in packets {
        bob.recv_packet(packet).unwrap();
    }
    let read = bob.read_messages();
    assert_eq!(read[0].messages.len(), 2);
    assert_eq!(read[0].messages[0].bytes, vec![1]);
    assert_eq!(read[0].messages[1].bytes, payload);
}
