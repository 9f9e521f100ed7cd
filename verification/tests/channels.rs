use netsync::error::ChannelError;
use netsync::fragment_receiver::FragmentReceiver;
use netsync::message::{FragmentData, MessageContainer, SingleData};
use netsync::ordered_reliable::OrderedReliableReceiver;
use netsync::sequenced_unreliable::SequencedUnreliableReceiver;
use netsync::wrapping_id::{is_older, MessageId, PacketId, Tick};

fn whole(id: u16, bytes: Vec<u8>) -> MessageContainer {
    MessageContainer::Single(SingleData::new(Some(MessageId(id)), bytes))
}

fn fragment(id: u16, index: u8, count: u8, bytes: Vec<u8>) -> FragmentData {
    FragmentData {
        message_id: MessageId(id),
        tick: None,
        fragment_id: index,
        num_fragments: count,
        bytes,
    }
}

#[test]
fn wrapping_order_follows_the_window() {
    assert!(is_older(0, 1));
    assert!(is_older(0, 32768));
    assert!(!is_older(0, 32769));
    assert!(is_older(60000, 0));
    assert!(!is_older(0, 60000));
    assert!(!is_older(7, 7));
    assert!(is_older(65535, 0));
    assert!(MessageId(65535).is_before(MessageId(3)));
    assert!(MessageId(3).is_after(MessageId(65535)));
    assert!(PacketId(10).is_before(PacketId(11)));
    assert!(Tick(100).is_before(Tick(200)));
}

#[test]
fn wrapping_ids_at_half_the_circle_are_each_older_than_the_other() {
    assert!(is_older(0, 32768));
    assert!(is_older(32768, 0));
}

#[test]
fn next_id_wraps_around() {
    assert_eq!(MessageId(65535).next(), MessageId(0));
    assert_eq!(MessageId(41).next(), MessageId(42));
    assert_eq!(PacketId(65535).next(), PacketId(0));
    assert_eq!(Tick(65535).next(), Tick(0));
}

#[test]
fn ordered_receiver_hands_out_in_id_order() {
    let mut receiver = OrderedReliableReceiver::new();
    receiver.buffer_recv(whole(2, vec![2])).unwrap();
    receiver.buffer_recv(whole(0, vec![0])).unwrap();
    receiver.buffer_recv(whole(1, vec![1])).unwrap();
    let mut ids = Vec::new();
    while let Some(message) = receiver.read_message() {
        ids.push(message.id.unwrap());
    }
    assert_eq!(ids, vec![MessageId(0), MessageId(1), MessageId(2)]);
    assert_eq!(receiver.pending_recv_message_id(), MessageId(3));
}

#[test]
fn ordered_receiver_delivers_each_message_once() {
    let mut receiver = OrderedReliableReceiver::new();
    receiver.buffer_recv(whole(0, vec![10])).unwrap();
    // a second copy while the first one waits keeps the first
    receiver.buffer_recv(whole(0, vec![11])).unwrap();
    assert_eq!(receiver.buffered_len(), 1);
    assert_eq!(receiver.read_message().unwrap().bytes, vec![10]);
    // a copy after the message was read is dropped
    receiver.buffer_recv(whole(0, vec![12])).unwrap();
    assert_eq!(receiver.buffered_len(), 0);
    assert_eq!(receiver.read_message(), None);
}

#[test]
fn ordered_receiver_state_is_unchanged_by_a_stale_message() {
    let mut receiver = OrderedReliableReceiver::new();
    receiver.buffer_recv(whole(1, vec![1])).unwrap();
    receiver.buffer_recv(whole(0, vec![0])).unwrap();
    assert_eq!(receiver.read_message().unwrap().id, Some(MessageId(0)));
    assert_eq!(receiver.read_message().unwrap().id, Some(MessageId(1)));
    assert_eq!(receiver.read_message(), None);
    receiver.buffer_recv(whole(60000, vec![9])).unwrap();
    assert_eq!(receiver.buffered_len(), 0);
    assert_eq!(receiver.pending_recv_message_id(), MessageId(2));
    assert_eq!(receiver.read_message(), None);
}

#[test]
fn ordered_receiver_wraps_its_pending_id() {
    let mut receiver = OrderedReliableReceiver::new();
    for id in 0..=65535u16 {
        receiver.buffer_recv(whole(id, Vec::new())).unwrap();
        assert_eq!(receiver.read_message().unwrap().id, Some(MessageId(id)));
    }
    assert_eq!(receiver.pending_recv_message_id(), MessageId(0));
}

#[test]
fn receivers_refuse_a_message_without_id() {
    let mut ordered = OrderedReliableReceiver::new();
    assert_eq!(
        ordered.buffer_recv(MessageContainer::new(vec![1])),
        Err(ChannelError::MissingMessageId)
    );
    assert_eq!(ordered.buffered_len(), 0);
    let mut sequenced = SequencedUnreliableReceiver::new();
    assert_eq!(
        sequenced.buffer_recv(MessageContainer::new(vec![1])),
        Err(ChannelError::MissingMessageId)
    );
    assert_eq!(sequenced.buffered_len(), 0);
    assert!(!ChannelError::MissingMessageId.fails_connection());
    assert!(ChannelError::FragmentSlotOverflow.fails_connection());
}

#[test]
fn sequenced_receiver_drops_old_and_keeps_arrival_order() {
    let mut receiver = SequencedUnreliableReceiver::new();
    receiver.buffer_recv(whole(60000, vec![0])).unwrap();
    assert_eq!(receiver.buffered_len(), 0);
    receiver.buffer_recv(whole(1, vec![1])).unwrap();
    receiver.buffer_recv(whole(0, vec![2])).unwrap();
    receiver.buffer_recv(whole(2, vec![3])).unwrap();
    assert_eq!(receiver.read_message().unwrap().bytes, vec![1]);
    assert_eq!(receiver.read_message().unwrap().bytes, vec![3]);
    assert_eq!(receiver.read_message(), None);
    assert_eq!(receiver.most_recent_message_id(), MessageId(2));
}

#[test]
fn sequenced_receiver_takes_the_most_recent_id_again() {
    // the same id is not older than itself: both copies are handed out
    let mut receiver = SequencedUnreliableReceiver::new();
    receiver.buffer_recv(whole(5, vec![1])).unwrap();
    receiver.buffer_recv(whole(5, vec![2])).unwrap();
    assert_eq!(receiver.buffered_len(), 2);
    assert_eq!(receiver.read_message().unwrap().bytes, vec![1]);
    assert_eq!(receiver.read_message().unwrap().bytes, vec![2]);
}

#[test]
fn fragments_in_any_order_make_one_message() {
    let mut reassembler = FragmentReceiver::new();
    assert_eq!(reassembler.receive_fragment(fragment(7, 2, 3, vec![5, 6])), Ok(None));
    assert_eq!(reassembler.open_slots(), 1);
    assert_eq!(reassembler.receive_fragment(fragment(7, 0, 3, vec![1, 2])), Ok(None));
    let done = reassembler.receive_fragment(fragment(7, 1, 3, vec![3, 4])).unwrap().unwrap();
    assert_eq!(done.id, Some(MessageId(7)));
    assert_eq!(done.bytes, vec![1, 2, 3, 4, 5, 6]);
    assert_eq!(reassembler.open_slots(), 0);
    // nothing more comes of a late copy of a fragment
    assert_eq!(reassembler.receive_fragment(fragment(7, 1, 3, vec![3, 4])), Ok(None));
}

#[test]
fn a_message_of_one_fragment_is_handed_out_at_once() {
    let mut reassembler = FragmentReceiver::new();
    let done = reassembler.receive_fragment(fragment(1, 0, 1, vec![9])).unwrap().unwrap();
    assert_eq!(done.bytes, vec![9]);
    assert_eq!(reassembler.open_slots(), 0);
}

#[test]
fn fragments_of_two_messages_do_not_mix() {
    let mut reassembler = FragmentReceiver::new();
    assert_eq!(reassembler.receive_fragment(fragment(1, 0, 2, vec![1])), Ok(None));
    assert_eq!(reassembler.receive_fragment(fragment(2, 1, 2, vec![4])), Ok(None));
    assert_eq!(reassembler.open_slots(), 2);
    let second = reassembler.receive_fragment(fragment(2, 0, 2, vec![3])).unwrap().unwrap();
    assert_eq!(second.bytes, vec![3, 4]);
    let first = reassembler.receive_fragment(fragment(1, 1, 2, vec![2])).unwrap().unwrap();
    assert_eq!(first.bytes, vec![1, 2]);
}

#[test]
fn useless_fragments_change_nothing() {
    let mut reassembler = FragmentReceiver::new();
    // index outside the message
    assert_eq!(reassembler.receive_fragment(fragment(1, 3, 3, vec![1])), Ok(None));
    assert_eq!(reassembler.receive_fragment(fragment(1, 0, 0, vec![1])), Ok(None));
    assert_eq!(reassembler.open_slots(), 0);
    assert_eq!(reassembler.receive_fragment(fragment(1, 0, 3, vec![1])), Ok(None));
    // a second copy, and a fragment that disagrees on the count
    assert_eq!(reassembler.receive_fragment(fragment(1, 0, 3, vec![8])), Ok(None));
    assert_eq!(reassembler.receive_fragment(fragment(1, 1, 2, vec![8])), Ok(None));
    assert_eq!(reassembler.receive_fragment(fragment(1, 2, 3, vec![3])), Ok(None));
    let done = reassembler.receive_fragment(fragment(1, 1, 3, vec![2])).unwrap().unwrap();
    assert_eq!(done.bytes, vec![1, 2, 3]);
}

#[test]
fn a_lost_fragment_frees_the_slot_after_the_timeout() {
    let mut reassembler = FragmentReceiver::new();
    reassembler.collect(1000, 300);
    assert_eq!(reassembler.receive_fragment(fragment(4, 2, 3, vec![3])), Ok(None));
    assert_eq!(reassembler.receive_fragment(fragment(4, 0, 3, vec![1])), Ok(None));
    // before the timeout the slot stays
    reassembler.collect(1299, 300);
    assert_eq!(reassembler.open_slots(), 1);
    // at the timeout it goes, and the message is never handed out
    reassembler.collect(1300, 300);
    assert_eq!(reassembler.open_slots(), 0);
    assert_eq!(reassembler.receive_fragment(fragment(4, 1, 3, vec![2])), Ok(None));
    assert_eq!(reassembler.open_slots(), 1);
}

#[test]
fn a_full_reassembler_refuses_a_new_message() {
    let mut reassembler = FragmentReceiver::with_capacity(2);
    assert_eq!(reassembler.receive_fragment(fragment(1, 0, 2, vec![1])), Ok(None));
    assert_eq!(reassembler.receive_fragment(fragment(2, 0, 2, vec![1])), Ok(None));
    assert_eq!(
        reassembler.receive_fragment(fragment(3, 0, 2, vec![1])),
        Err(ChannelError::FragmentSlotOverflow)
    );
    assert_eq!(reassembler.open_slots(), 2);
    // a message that needs no slot still passes, and so do open messages
    assert!(reassembler.receive_fragment(fragment(9, 0, 1, vec![1])).unwrap().is_some());
    assert!(reassembler.receive_fragment(fragment(1, 1, 2, vec![2])).unwrap().is_some());
}

#[test]
fn receivers_reassemble_fragments() {
    let mut ordered = OrderedReliableReceiver::new();
    ordered.buffer_recv(MessageContainer::Fragment(fragment(0, 1, 2, vec![2]))).unwrap();
    assert_eq!(ordered.read_message(), None);
    ordered.buffer_recv(MessageContainer::Fragment(fragment(0, 0, 2, vec![1]))).unwrap();
    assert_eq!(ordered.read_message().unwrap().bytes, vec![1, 2]);

    let mut sequenced = SequencedUnreliableReceiver::new();
    sequenced.buffer_recv(MessageContainer::Fragment(fragment(3, 0, 2, vec![1]))).unwrap();
    assert_eq!(sequenced.most_recent_message_id(), MessageId(3));
    assert_eq!(sequenced.buffered_len(), 0);
    sequenced.buffer_recv(MessageContainer::Fragment(fragment(3, 1, 2, vec![2]))).unwrap();
    assert_eq!(sequenced.read_message().unwrap().bytes, vec![1, 2]);
}

#[test]
fn receivers_give_up_reassemblies_that_wait_too_long() {
    let mut ordered = OrderedReliableReceiver::new();
    ordered.buffer_recv(MessageContainer::Fragment(fragment(0, 1, 2, vec![2]))).unwrap();
    ordered.collect(500, 100);
    ordered.buffer_recv(MessageContainer::Fragment(fragment(0, 0, 2, vec![1]))).unwrap();
    assert_eq!(ordered.read_message(), None);
}

#[test]
fn message_ids_can_be_set_and_read() {
    let mut message = MessageContainer::new(vec![1, 2]);
    assert_eq!(message.id(), None);
    message.set_id(MessageId(9));
    assert_eq!(message.id(), Some(MessageId(9)));
    let mut part = MessageContainer::Fragment(fragment(1, 0, 2, vec![1]));
    part.set_id(MessageId(4));
    assert_eq!(part.id(), Some(MessageId(4)));
}
