use netsync::message::{MessageContainer, SingleData};
use netsync::ordered_reliable::OrderedReliableReceiver;
use netsync::sequenced_unreliable::SequencedUnreliableReceiver;
use netsync::wrapping_id::MessageId;

fn single(message: &MessageContainer) -> SingleData {
    match message {
        MessageContainer::Single(data) => data.clone(),
        MessageContainer::Fragment(_) => panic!("a whole message was expected"),
    }
}

#[test]
fn test_ordered_reliable_receiver_internals() {
    let mut receiver = OrderedReliableReceiver::new();

    let mut message1 = MessageContainer::new(vec![0]);
    let mut message2 = MessageContainer::new(vec![1]);

    // receive an old message: it doesn't get added to the buffer because the next one we expect is 0
    message2.set_id(MessageId(60000));
    receiver.buffer_recv(message2.clone()).unwrap();
    assert_eq!(receiver.buffered_len(), 0);

    // receive message in the wrong order
    message2.set_id(MessageId(1));
    receiver.buffer_recv(message2.clone()).unwrap();

    // the message has been buffered, but we are not processing it yet
    // until we have received message 0
    assert_eq!(receiver.buffered_len(), 1);
    assert!(receiver.is_buffered(MessageId(1)));
    assert_eq!(receiver.read_message(), None);
    assert_eq!(receiver.pending_recv_message_id(), MessageId(0));

    // receive message 0
    message1.set_id(MessageId(0));
    receiver.buffer_recv(message1.clone()).unwrap();
    assert_eq!(receiver.buffered_len(), 2);

    // now we can read the messages in order
    assert_eq!(receiver.read_message(), Some(single(&message1)));
    assert_eq!(receiver.pending_recv_message_id(), MessageId(1));
    assert_eq!(receiver.read_message(), Some(single(&message2)));
}

#[test]
fn test_sequenced_unreliable_receiver_internals() {
    let mut receiver = SequencedUnreliableReceiver::new();

    let mut message1 = MessageContainer::new(vec![1]);
    let mut message2 = MessageContainer::new(vec![2]);
    let mut message3 = MessageContainer::new(vec![3]);

    // receive an old message: it doesn't get added to the buffer
    message2.set_id(MessageId(60000));
    receiver.buffer_recv(message2.clone()).unwrap();
    assert_eq!(receiver.buffered_len(), 0);

    // receive message in the wrong order
    message2.set_id(MessageId(1));
    receiver.buffer_recv(message2.clone()).unwrap();

    // the message has been buffered, and we can read it instantly
    // since it's the most recent
    assert_eq!(receiver.buffered_len(), 1);
    assert_eq!(receiver.most_recent_message_id(), MessageId(1));
    assert_eq!(receiver.read_message(), Some(single(&message2)));
    assert_eq!(receiver.buffered_len(), 0);

    // receive an earlier message 0
    message1.set_id(MessageId(0));
    receiver.buffer_recv(message1.clone()).unwrap();
    // we don't add it to the buffer since we have read a more recent message.
    assert_eq!(receiver.buffered_len(), 0);
    assert_eq!(receiver.read_message(), None);

    // receive a later message
    message3.set_id(MessageId(2));
    receiver.buffer_recv(message3.clone()).unwrap();
    // it's the most recent message so we receive it
    assert_eq!(receiver.buffered_len(), 1);
    assert_eq!(receiver.most_recent_message_id(), MessageId(2));
    assert_eq!(receiver.read_message(), Some(single(&message3)));
    assert_eq!(receiver.buffered_len(), 0);
}
