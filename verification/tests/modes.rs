use netsync::channel::{
    ChannelDirection, ChannelKind, ChannelMode, ChannelReceiver, ChannelRegistry, ChannelSettings,
};
use netsync::connection::{Connection, ConnectionError};
use netsync::error::ChannelError;
use netsync::message::{FragmentData, MessageContainer, SingleData};
use netsync::packet::{ChannelBlock, Packet, PacketHeader, PacketType};
use netsync::tick_buffered::{TickBufferedReceiver, TICK_WINDOW};
use netsync::unordered_reliable::{UnorderedReliableReceiver, RECEIVE_WINDOW};
use netsync::unordered_unreliable::UnorderedUnreliableReceiver;
use netsync::wrapping_id::{MessageId, PacketId, Tick};

fn whole(id: u16, bytes: Vec<u8>) -> MessageContainer {
    MessageContainer::Single(SingleData::new(Some(MessageId(id)), bytes))
}

fn at_tick(tick: u16, bytes: Vec<u8>) -> MessageContainer {
    MessageContainer::Single(SingleData { id: None, tick: Some(Tick(tick)), bytes })
}

fn part(id: u16, index: u8, count: u8, bytes: Vec<u8>) -> MessageContainer {
    MessageContainer::Fragment(FragmentData {
        message_id: MessageId(id),
        tick: None,
        fragment_id: index,
        num_fragments: count,
        bytes,
    })
}

#[test]
fn unordered_unreliable_hands_out_everything_as_it_arrives() {
    let mut receiver = UnorderedUnreliableReceiver::new();
    receiver.buffer_recv(whole(5, vec![1])).unwrap();
    receiver.buffer_recv(MessageContainer::new(vec![2])).unwrap();
    receiver.buffer_recv(whole(5, vec![3])).unwrap();
    receiver.buffer_recv(whole(60000, vec![4])).unwrap();
    receiver.buffer_recv(part(9, 1, 2, vec![6])).unwrap();
    receiver.buffer_recv(part(9, 0, 2, vec![5])).unwrap();
    assert_eq!(receiver.buffered_len(), 5);
    let mut payloads = Vec::new();
    while let Some(message) = receiver.read_message() {
        payloads.push(message.bytes);
    }
    assert_eq!(payloads, vec![vec![1], vec![2], vec![3], vec![4], vec![5, 6]]);
}

#[test]
fn unordered_reliable_hands_out_each_message_once() {
    let mut receiver = UnorderedReliableReceiver::new();
    receiver.buffer_recv(whole(2, vec![2])).unwrap();
    receiver.buffer_recv(whole(0, vec![0])).unwrap();
    receiver.buffer_recv(whole(2, vec![22])).unwrap();
    receiver.buffer_recv(whole(0, vec![10])).unwrap();
    assert_eq!(receiver.oldest_missing_message_id(), MessageId(1));
    receiver.buffer_recv(whole(1, vec![1])).unwrap();
    // the window has moved past everything that has arrived
    assert_eq!(receiver.oldest_missing_message_id(), MessageId(3));
    receiver.buffer_recv(whole(1, vec![11])).unwrap();
    let mut payloads = Vec::new();
    while let Some(message) = receiver.read_message() {
        payloads.push(message.bytes);
    }
    assert_eq!(payloads, vec![vec![2], vec![0], vec![1]]);
}

#[test]
fn unordered_reliable_refuses_ids_beyond_its_window() {
    let mut receiver = UnorderedReliableReceiver::new();
    assert_eq!(receiver.buffer_recv(whole(RECEIVE_WINDOW - 1, vec![1])), Ok(()));
    assert_eq!(
        receiver.buffer_recv(whole(RECEIVE_WINDOW, vec![1])),
        Err(ChannelError::MessageIdOutsideWindow)
    );
    assert!(ChannelError::MessageIdOutsideWindow.fails_connection());
    assert_eq!(
        receiver.buffer_recv(MessageContainer::new(vec![1])),
        Err(ChannelError::MissingMessageId)
    );
    // an id from before the window is an old copy, and is dropped
    assert_eq!(receiver.buffer_recv(whole(65000, vec![1])), Ok(()));
    assert_eq!(receiver.buffered_len(), 1);
    // once the window has moved, the id that was beyond it is taken
    receiver.buffer_recv(whole(0, vec![0])).unwrap();
    assert_eq!(receiver.buffer_recv(whole(RECEIVE_WINDOW, vec![1])), Ok(()));
    assert_eq!(receiver.buffered_len(), 3);
}

#[test]
fn unordered_reliable_reassembles_before_it_remembers() {
    let mut receiver = UnorderedReliableReceiver::new();
    receiver.buffer_recv(part(0, 0, 2, vec![1])).unwrap();
    assert_eq!(receiver.oldest_missing_message_id(), MessageId(0));
    receiver.buffer_recv(part(0, 1, 2, vec![2])).unwrap();
    assert_eq!(receiver.oldest_missing_message_id(), MessageId(1));
    assert_eq!(receiver.read_message().unwrap().bytes, vec![1, 2]);
    receiver.buffer_recv(part(0, 1, 2, vec![2])).unwrap();
    assert_eq!(receiver.read_message(), None);
}

#[test]
fn tick_buffered_releases_one_message_at_its_tick() {
    let mut receiver = TickBufferedReceiver::new();
    receiver.buffer_recv(at_tick(2, vec![2])).unwrap();
    receiver.buffer_recv(at_tick(1, vec![1])).unwrap();
    receiver.buffer_recv(at_tick(2, vec![22])).unwrap();
    assert_eq!(receiver.buffered_len(), 2);
    // nothing was sent for tick 0
    assert_eq!(receiver.read_message(), None);
    receiver.set_tick(Tick(1));
    assert_eq!(receiver.read_message().unwrap().bytes, vec![1]);
    // a second message for the same tick comes too late
    receiver.buffer_recv(at_tick(1, vec![11])).unwrap();
    assert_eq!(receiver.read_message(), None);
    receiver.set_tick(Tick(2));
    assert_eq!(receiver.read_message().unwrap().bytes, vec![2]);
    assert_eq!(receiver.read_message(), None);
    assert_eq!(receiver.local_tick(), Tick(2));
}

#[test]
fn tick_buffered_drops_what_is_stale_or_too_far_ahead() {
    let mut receiver = TickBufferedReceiver::new();
    receiver.set_tick(Tick(100));
    receiver.buffer_recv(at_tick(99, vec![1])).unwrap();
    receiver.buffer_recv(at_tick(100 + TICK_WINDOW, vec![1])).unwrap();
    assert_eq!(receiver.buffered_len(), 0);
    receiver.buffer_recv(at_tick(100 + TICK_WINDOW - 1, vec![1])).unwrap();
    receiver.buffer_recv(at_tick(101, vec![1])).unwrap();
    receiver.buffer_recv(at_tick(103, vec![3])).unwrap();
    assert_eq!(receiver.buffered_len(), 3);
    // the tick moves past 101: its message is dropped unread
    receiver.set_tick(Tick(103));
    assert_eq!(receiver.buffered_len(), 2);
    assert_eq!(receiver.read_message().unwrap().bytes, vec![3]);
    // a jump out of the window drops everything
    receiver.set_tick(Tick(5000));
    assert_eq!(receiver.buffered_len(), 0);
    assert_eq!(
        receiver.buffer_recv(MessageContainer::new(vec![1])),
        Err(ChannelError::MissingTick)
    );
    assert!(!ChannelError::MissingTick.fails_connection());
}

#[test]
fn tick_buffered_wraps_around() {
    let mut receiver = TickBufferedReceiver::new();
    receiver.set_tick(Tick(65530));
    receiver.buffer_recv(at_tick(3, vec![3])).unwrap();
    receiver.set_tick(Tick(3));
    assert_eq!(receiver.read_message().unwrap().bytes, vec![3]);
}

#[test]
fn every_mode_has_its_receiver() {
    for mode in [
        ChannelMode::UnreliableUnordered,
        ChannelMode::UnreliableSequenced,
        ChannelMode::ReliableUnordered,
        ChannelMode::ReliableOrdered,
        ChannelMode::TickBuffered,
    ] {
        let mut receiver = ChannelReceiver::new(mode);
        assert_eq!(receiver.mode(), mode);
        let message = MessageContainer::Single(SingleData {
            id: Some(MessageId(0)),
            tick: Some(Tick(0)),
            bytes: vec![7],
        });
        receiver.buffer_recv(message).unwrap();
        receiver.update(0, Tick(0), 100);
        assert_eq!(receiver.read_message().unwrap().bytes, vec![7]);
        assert_eq!(receiver.read_message(), None);
    }
}

#[test]
fn connection_asks_of_a_message_what_its_channel_goes_by() {
    let mut registry = ChannelRegistry::new();
    let modes = [
        ChannelMode::UnreliableUnordered,
        ChannelMode::ReliableUnordered,
        ChannelMode::TickBuffered,
    ];
    for (kind, mode) in modes.iter().enumerate() {
        registry.add_channel(ChannelSettings {
            kind: ChannelKind(kind as u16),
            direction: ChannelDirection::Bidirectional,
            mode: *mode,
        });
    }
    let mut connection = Connection::new(&registry);
    let packet = |id: u16, kind: u16, message: MessageContainer| Packet {
        header: PacketHeader {
            packet_type: PacketType::Data,
            packet_id: PacketId(id),
            tick: Tick(0),
            latest_ack: PacketId(65535),
            ack_bits: 0,
        },
        blocks: vec![ChannelBlock { kind: ChannelKind(kind), messages: vec![message] }],
    };
    // the unordered channel takes a message without id or tick
    assert_eq!(connection.recv_packet(packet(0, 0, MessageContainer::new(vec![1]))), Ok(Vec::new()));
    assert_eq!(
        connection.recv_packet(packet(1, 1, MessageContainer::new(vec![1]))),
        Err(ConnectionError::Channel(ChannelError::MissingMessageId))
    );
    assert_eq!(
        connection.recv_packet(packet(2, 2, whole(0, vec![1]))),
        Err(ConnectionError::Channel(ChannelError::MissingTick))
    );
    assert_eq!(connection.recv_packet(packet(3, 2, at_tick(1, vec![9]))), Ok(Vec::new()));
    assert_eq!(
        connection.recv_packet(packet(4, 1, whole(5000, vec![1]))),
        Err(ConnectionError::Channel(ChannelError::MessageIdOutsideWindow))
    );
    let read = connection.read_messages();
    assert_eq!(read[0].messages.len(), 1);
    assert_eq!(read[2].messages.len(), 0);
    // at its tick the buffered message is handed out
    connection.update(0, Tick(1), 100);
    assert_eq!(connection.read_messages()[2].messages[0].bytes, vec![9]);
}
