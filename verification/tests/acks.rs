use netsync::ack::{header_acks_packet, AckWindow, NO_PACKET_YET};
use netsync::message::{MessageContainer, SingleData};
use netsync::sender::{ChannelSender, QueueError, MAX_OUTSTANDING};
use netsync::sent_packets::{MessageAck, ProtocolViolation, SentPackets, MAX_UNACKED_PACKETS};
use netsync::sync::PingManager;
use netsync::wrapping_id::{MessageId, PacketId, Tick};

fn ack(message_id: u16) -> MessageAck {
    MessageAck { channel: 1, message_id, fragment: None }
}

#[test]
fn ack_window_marks_what_arrived() {
    let mut window = AckWindow::new();
    assert_eq!(window.header(), (PacketId(NO_PACKET_YET), 0));
    for id in 0..34u16 {
        if id != 32 {
            window.record(PacketId(id));
        }
    }
    // bit k stands for packet 33 - (k + 1): only packet 32 is missing
    assert_eq!(window.header(), (PacketId(33), 0xFFFF_FFFE));
    assert!(window.is_acked(PacketId(33)));
    assert!(!window.is_acked(PacketId(32)));
    assert!(window.is_acked(PacketId(1)));
    // packet 0 lies 33 before the latest: the field does not reach it
    assert!(!window.is_acked(PacketId(0)));
    window.record(PacketId(32));
    assert_eq!(window.header(), (PacketId(33), 0xFFFF_FFFF));
}

#[test]
fn ack_window_takes_packets_out_of_order() {
    let mut window = AckWindow::new();
    window.record(PacketId(10));
    window.record(PacketId(8));
    assert_eq!(window.header(), (PacketId(10), 0b10));
    window.record(PacketId(12));
    // 10 is now two before the latest, 8 four before
    assert_eq!(window.header(), (PacketId(12), 0b1010));
    window.record(PacketId(12));
    assert_eq!(window.header(), (PacketId(12), 0b1010));
    // a jump of exactly 32 leaves only the old latest in the field
    window.record(PacketId(44));
    assert_eq!(window.header(), (PacketId(44), 1 << 31));
    // a longer jump leaves nothing
    window.record(PacketId(100));
    assert_eq!(window.header(), (PacketId(100), 0));
    // a packet too old for the field is not marked
    window.record(PacketId(60));
    assert_eq!(window.header(), (PacketId(100), 0));
}

#[test]
fn ack_window_wraps_around() {
    let mut window = AckWindow::new();
    window.record(PacketId(65534));
    window.record(PacketId(1));
    assert_eq!(window.header(), (PacketId(1), 0b100));
    assert!(window.is_acked(PacketId(65534)));
    assert!(!window.is_acked(PacketId(65535)));
}

#[test]
fn header_acknowledges_latest_and_marked_bits() {
    assert!(header_acks_packet(PacketId(33), 0xFFFF_FFFE, PacketId(33)));
    assert!(!header_acks_packet(PacketId(33), 0xFFFF_FFFE, PacketId(32)));
    assert!(header_acks_packet(PacketId(33), 0xFFFF_FFFE, PacketId(31)));
    assert!(header_acks_packet(PacketId(33), 0xFFFF_FFFE, PacketId(1)));
    assert!(!header_acks_packet(PacketId(33), 0xFFFF_FFFE, PacketId(0)));
    assert!(!header_acks_packet(PacketId(33), 0xFFFF_FFFE, PacketId(34)));
}

#[test]
fn acks_retire_the_messages_of_their_packets() {
    let mut sent = SentPackets::new();
    for id in 0..34u16 {
        assert_eq!(sent.register(vec![ack(id)]), Ok(PacketId(id)));
    }
    assert_eq!(sent.next_packet_id(), PacketId(34));
    // the peer had everything up to packet 31 ...
    let first = sent.process_acks(PacketId(31), 0x7FFF_FFFF).unwrap();
    assert_eq!(first, (0..32u16).map(ack).collect::<Vec<_>>());
    // ... and then packet 33, but not packet 32
    let second = sent.process_acks(PacketId(33), 0xFFFF_FFFE).unwrap();
    assert_eq!(second, vec![ack(33)]);
    assert!(sent.is_tracked(PacketId(32)));
    assert_eq!(sent.unacked_len(), 1);
}

#[test]
fn replayed_acks_are_a_no_op() {
    let mut sent = SentPackets::new();
    for id in 0..5u16 {
        sent.register(vec![ack(id)]).unwrap();
    }
    let first = sent.process_acks(PacketId(3), 0b101).unwrap();
    assert_eq!(first, vec![ack(0), ack(2), ack(3)]);
    let left = sent.unacked_len();
    let again = sent.process_acks(PacketId(3), 0b101).unwrap();
    assert_eq!(again, Vec::new());
    assert_eq!(sent.unacked_len(), left);
    assert!(sent.is_tracked(PacketId(1)));
    assert!(sent.is_tracked(PacketId(4)));
}

#[test]
fn ack_of_a_packet_that_was_never_sent_is_refused() {
    let mut sent = SentPackets::new();
    sent.register(vec![ack(0)]).unwrap();
    assert_eq!(sent.process_acks(PacketId(1), 0), Err(ProtocolViolation::UnknownPacket));
    assert_eq!(sent.process_acks(PacketId(5), 0), Err(ProtocolViolation::UnknownPacket));
    assert_eq!(sent.unacked_len(), 1);
    // the header of a peer that has received nothing is harmless
    assert_eq!(sent.process_acks(PacketId(65535), 0), Ok(Vec::new()));
    assert_eq!(sent.unacked_len(), 1);
}

#[test]
fn packets_that_the_window_left_behind_are_forgotten() {
    let mut sent = SentPackets::new();
    for id in 0..40u16 {
        sent.register(vec![ack(id)]).unwrap();
    }
    let retired = sent.process_acks(PacketId(39), 0).unwrap();
    assert_eq!(retired, vec![ack(39)]);
    // packets 0..=6 lie more than 32 before the latest
    assert!(!sent.is_tracked(PacketId(6)));
    assert!(sent.is_tracked(PacketId(7)));
    assert_eq!(sent.unacked_len(), 32);
}

#[test]
fn too_many_unacked_packets_are_refused() {
    let mut sent = SentPackets::new();
    for _ in 0..MAX_UNACKED_PACKETS {
        sent.register(Vec::new()).unwrap();
    }
    assert_eq!(sent.register(Vec::new()), Err(ProtocolViolation::TooManyUnacked));
    assert_eq!(sent.unacked_len(), MAX_UNACKED_PACKETS);
}

#[test]
fn lost_reliable_message_is_sent_again_after_one_and_a_half_round_trips() {
    let mut ping = PingManager::new();
    ping.process_pong(1_000, 0, Tick(0));
    assert_eq!(ping.rtt, 1_000);
    assert_eq!(ping.resend_after(), 1_500);

    let mut sender = ChannelSender::new(true);
    let mut sent = SentPackets::new();
    for n in 0..34u8 {
        let id = sender.buffer_send(MessageContainer::new(vec![n])).unwrap();
        let due = sender.take_due(0, ping.resend_after());
        assert_eq!(due.len(), 1);
        sent.register(vec![ack(id.0)]).unwrap();
    }
    for header in [(PacketId(31), 0x7FFF_FFFF), (PacketId(33), 0xFFFF_FFFE)] {
        for retired in sent.process_acks(header.0, header.1).unwrap() {
            sender.retire(MessageId(retired.message_id), retired.fragment);
        }
    }
    // only the message of packet 32 still waits
    assert_eq!(sender.queued_len(), 1);
    assert_eq!(sender.take_due(1_499, ping.resend_after()), Vec::new());
    let again = sender.take_due(1_500, ping.resend_after());
    assert_eq!(
        again,
        vec![MessageContainer::Single(SingleData::new(Some(MessageId(32)), vec![32]))]
    );
    // and having been sent, it waits again
    assert_eq!(sender.take_due(1_600, ping.resend_after()), Vec::new());
}

#[test]
fn unreliable_sender_sends_once() {
    let mut sender = ChannelSender::new(false);
    assert_eq!(sender.buffer_send(MessageContainer::new(vec![1])), Ok(MessageId(0)));
    assert_eq!(sender.buffer_send(MessageContainer::new(vec![2])), Ok(MessageId(1)));
    let due = sender.take_due(10, 100);
    assert_eq!(due.len(), 2);
    assert_eq!(due[0].id(), Some(MessageId(0)));
    assert_eq!(due[1].id(), Some(MessageId(1)));
    assert_eq!(sender.queued_len(), 0);
    assert_eq!(sender.take_due(1_000, 100), Vec::new());
}

#[test]
fn reliable_sender_bounds_its_queue() {
    let mut sender = ChannelSender::new(true);
    for _ in 0..MAX_OUTSTANDING {
        sender.buffer_send(MessageContainer::new(Vec::new())).unwrap();
    }
    assert_eq!(
        sender.buffer_send(MessageContainer::new(Vec::new())),
        Err(QueueError::TooManyUnacked)
    );
    assert_eq!(sender.queued_len(), MAX_OUTSTANDING);
}

#[test]
fn retiring_names_whole_messages_and_fragments_apart() {
    let mut sender = ChannelSender::new(true);
    sender.buffer_send(MessageContainer::new(vec![1])).unwrap();
    sender.take_due(0, 100);
    // the acknowledgement of a fragment does not retire the whole message
    sender.retire(MessageId(0), Some(0));
    assert_eq!(sender.queued_len(), 1);
    sender.retire(MessageId(0), None);
    assert_eq!(sender.queued_len(), 0);
}
