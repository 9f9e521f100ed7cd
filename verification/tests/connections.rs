use netsync::assembler::pack_messages;
use netsync::channel::{
    ChannelDirection, ChannelKind, ChannelMode, ChannelRegistry, ChannelSettings,
};
use netsync::connection::{Connection, ConnectionError};
use netsync::error::ChannelError;
use netsync::message::{FragmentData, MessageContainer, SingleData};
use netsync::networking::{receive, send};
use netsync::packet::{ChannelBlock, Packet, PacketHeader, PacketType};
use netsync::sent_packets::{MessageAck, ProtocolViolation};
use netsync::server::{Arrival, RecvOutcome, Server, ServerContext, ServerError};
use netsync::wire::{decode, encode};
use netsync::wrapping_id::{MessageId, PacketId, Tick};

const ORDERED: ChannelKind = ChannelKind(1);
const SEQUENCED: ChannelKind = ChannelKind(2);

fn registry() -> ChannelRegistry {
    let mut registry = ChannelRegistry::new();
    assert!(registry.add_channel(ChannelSettings {
        kind: ORDERED,
        direction: ChannelDirection::Bidirectional,
        mode: ChannelMode::ReliableOrdered,
    }));
    assert!(registry.add_channel(ChannelSettings {
        kind: SEQUENCED,
        direction: ChannelDirection::Bidirectional,
        mode: ChannelMode::UnreliableSequenced,
    }));
    registry
}

fn payload(bytes: Vec<u8>) -> MessageContainer {
    MessageContainer::new(bytes)
}

fn whole(id: u16, bytes: Vec<u8>) -> MessageContainer {
    MessageContainer::Single(SingleData::new(Some(MessageId(id)), bytes))
}

fn packet(id: u16, latest_ack: u16, ack_bits: u32, blocks: Vec<ChannelBlock>) -> Packet {
    Packet {
        header: PacketHeader {
            packet_type: PacketType::Data,
            packet_id: PacketId(id),
            tick: Tick(0),
            latest_ack: PacketId(latest_ack),
            ack_bits,
        },
        blocks,
    }
}

fn server() -> (Server, crossbeam_channel::Sender<usize>, crossbeam_channel::Sender<usize>) {
    let (connect, connections) = crossbeam_channel::unbounded();
    let (disconnect, disconnections) = crossbeam_channel::unbounded();
    (Server::new(ServerContext { connections, disconnections }, registry()), connect, disconnect)
}

#[test]
fn registry_refuses_a_kind_twice() {
    let mut registry = registry();
    assert!(!registry.add_channel(ChannelSettings {
        kind: ORDERED,
        direction: ChannelDirection::ClientToServer,
        mode: ChannelMode::UnreliableSequenced,
    }));
    assert_eq!(registry.len(), 2);
    assert_eq!(registry.get(ORDERED).unwrap().mode, ChannelMode::ReliableOrdered);
    assert_eq!(registry.get(ChannelKind(9)), None);
}

#[test]
fn assembler_fills_packets_up_to_the_budget() {
    // each message costs its payload and 10 bytes more
    let messages: Vec<MessageContainer> = (0..5).map(|n| whole(n, vec![0; 20])).collect();
    let groups = pack_messages(messages, 70);
    let sizes: Vec<usize> = groups.iter().map(|g| g.len()).collect();
    assert_eq!(sizes, vec![2, 2, 1]);
    assert_eq!(groups[1][0].id(), Some(MessageId(2)));
    // a message that alone exceeds the budget still travels, alone
    let groups = pack_messages(vec![whole(0, vec![0; 100]), whole(1, vec![0; 5])], 70);
    let sizes: Vec<usize> = groups.iter().map(|g| g.len()).collect();
    assert_eq!(sizes, vec![1, 1]);
    assert_eq!(pack_messages(Vec::new(), 70).len(), 0);
}

#[test]
fn assembler_keeps_fragments_alone() {
    let part = |index: u8| {
        MessageContainer::Fragment(FragmentData {
            message_id: MessageId(1),
            tick: None,
            fragment_id: index,
            num_fragments: 2,
            bytes: vec![1],
        })
    };
    let groups = pack_messages(vec![whole(0, vec![1]), part(0), part(1), whole(2, vec![1])], 1000);
    let sizes: Vec<usize> = groups.iter().map(|g| g.len()).collect();
    assert_eq!(sizes, vec![1, 1, 1, 1]);
}

#[test]
fn connection_routes_messages_between_two_peers() {
    let mut alice = Connection::new(&registry());
    let mut bob = Connection::new(&registry());
    alice.buffer_send(payload(vec![1]), ORDERED).unwrap();
    alice.buffer_send(payload(vec![2]), ORDERED).unwrap();
    alice.buffer_send(payload(vec![3]), SEQUENCED).unwrap();
    let packets = alice.send_packets(0, Tick(5), 100, 1000).unwrap();
    assert_eq!(packets.len(), 2);
    assert_eq!(packets[0].header.packet_id, PacketId(0));
    assert_eq!(packets[1].header.packet_id, PacketId(1));
    assert_eq!(packets[0].header.tick, Tick(5));
    assert_eq!(packets[0].blocks[0].kind, ORDERED);
    assert_eq!(packets[0].blocks[0].messages.len(), 2);
    for p in packets {
        assert_eq!(bob.recv_packet(p), Ok(Vec::new()));
    }
    let read = bob.read_messages();
    assert_eq!(read.len(), 2);
    assert_eq!(read[0].kind, ORDERED);
    let ordered: Vec<Vec<u8>> = read[0].messages.iter().map(|m| m.bytes.clone()).collect();
    assert_eq!(ordered, vec![vec![1], vec![2]]);
    assert_eq!(read[1].messages[0].bytes, vec![3]);
    // nothing is read twice
    assert!(bob.read_messages().iter().all(|c| c.messages.is_empty()));
}

#[test]
fn connection_retransmits_until_acknowledged() {
    let mut alice = Connection::new(&registry());
    let mut bob = Connection::new(&registry());
    alice.buffer_send(payload(vec![1]), ORDERED).unwrap();
    let lost = alice.send_packets(0, Tick(0), 100, 1000).unwrap();
    assert_eq!(lost.len(), 1);
    // too early to send again
    assert_eq!(alice.send_packets(99, Tick(0), 100, 1000).unwrap().len(), 0);
    let again = alice.send_packets(100, Tick(0), 100, 1000).unwrap();
    assert_eq!(again.len(), 1);
    assert_eq!(again[0].header.packet_id, PacketId(1));
    for p in again {
        bob.recv_packet(p).unwrap();
    }
    // bob has nothing to say, but acknowledges what has arrived
    let reply = bob.send_packets(0, Tick(0), 100, 1000).unwrap();
    assert_eq!(reply.len(), 1);
    assert_eq!(reply[0].blocks.len(), 0);
    assert_eq!(reply[0].header.latest_ack, PacketId(1));
    assert_eq!(reply[0].header.ack_bits, 0);
    // having acknowledged, bob stays silent until something else arrives
    assert_eq!(bob.send_packets(1, Tick(0), 100, 1000).unwrap().len(), 0);
    let retired = alice.recv_packet(reply.into_iter().next().unwrap()).unwrap();
    assert_eq!(retired, vec![MessageAck { channel: 1, message_id: 0, fragment: None }]);
    // the message is sent no more; only bob's packet is acknowledged
    let last = alice.send_packets(10_000, Tick(0), 100, 1000).unwrap();
    assert_eq!(last.len(), 1);
    assert_eq!(last[0].blocks.len(), 0);
    assert_eq!(last[0].header.latest_ack, PacketId(0));
    assert_eq!(alice.send_packets(20_000, Tick(0), 100, 1000).unwrap().len(), 0);
}

#[test]
fn an_acknowledgement_rides_on_a_packet_with_messages() {
    let mut alice = Connection::new(&registry());
    let mut bob = Connection::new(&registry());
    alice.buffer_send(payload(vec![1]), SEQUENCED).unwrap();
    for p in alice.send_packets(0, Tick(0), 100, 1000).unwrap() {
        bob.recv_packet(p).unwrap();
    }
    bob.buffer_send(payload(vec![9]), SEQUENCED).unwrap();
    let reply = bob.send_packets(0, Tick(0), 100, 1000).unwrap();
    assert_eq!(reply.len(), 1);
    assert_eq!(reply[0].blocks.len(), 1);
    assert_eq!(reply[0].header.latest_ack, PacketId(0));
    // no packet of its own is needed for the acknowledgement
    assert_eq!(bob.send_packets(1, Tick(0), 100, 1000).unwrap().len(), 0);
}

#[test]
fn connection_refuses_an_unknown_channel() {
    let mut connection = Connection::new(&registry());
    assert_eq!(
        connection.buffer_send(payload(vec![1]), ChannelKind(9)),
        Err(ConnectionError::ChannelNotFound)
    );
    assert!(!ConnectionError::ChannelNotFound.fails_connection());
    let bad = packet(0, 65535, 0, vec![ChannelBlock { kind: ChannelKind(9), messages: Vec::new() }]);
    assert_eq!(connection.recv_packet(bad), Err(ConnectionError::ChannelNotFound));
}

#[test]
fn connection_drops_a_faulty_packet_whole() {
    let mut connection = Connection::new(&registry());
    let bad = packet(
        0,
        65535,
        0,
        vec![ChannelBlock { kind: ORDERED, messages: vec![whole(0, vec![1]), payload(vec![2])] }],
    );
    assert_eq!(
        connection.recv_packet(bad),
        Err(ConnectionError::Channel(ChannelError::MissingMessageId))
    );
    // not even the good message of the packet was delivered
    assert!(connection.read_messages().iter().all(|c| c.messages.is_empty()));
}

#[test]
fn connection_fails_on_an_ack_of_a_packet_never_sent() {
    let mut connection = Connection::new(&registry());
    let bad = packet(0, 3, 0, Vec::new());
    let error = connection.recv_packet(bad).unwrap_err();
    assert_eq!(error, ConnectionError::Protocol(ProtocolViolation::UnknownPacket));
    assert!(error.fails_connection());
}

#[test]
fn datagrams_travel_between_connections() {
    let mut alice = Connection::new(&registry());
    let mut bob = Connection::new(&registry());
    alice.buffer_send(payload(vec![1, 2, 3]), ORDERED).unwrap();
    let mut datagrams = send(&mut alice, 0, Tick(1), 100, 1000).unwrap();
    assert_eq!(datagrams.len(), 1);
    assert_eq!(decode(&datagrams[0]).unwrap().blocks[0].messages[0].id(), Some(MessageId(0)));
    // something that is no packet, and a packet with a fault, are dropped
    datagrams.push(vec![0xFF, 0x00]);
    let faulty = packet(1, 65535, 0, vec![ChannelBlock { kind: ChannelKind(9), messages: Vec::new() }]);
    datagrams.push(encode(&faulty).unwrap());
    let report = receive(&mut bob, &datagrams);
    assert_eq!(report.dropped, 2);
    assert_eq!(report.failure, None);
    assert_eq!(bob.read_messages()[0].messages[0].bytes, vec![1, 2, 3]);
}

#[test]
fn a_protocol_violation_stops_the_receive_phase() {
    let mut bob = Connection::new(&registry());
    let violation = encode(&packet(0, 7, 0, Vec::new())).unwrap();
    let good = encode(&packet(
        1,
        65535,
        0,
        vec![ChannelBlock { kind: ORDERED, messages: vec![whole(0, vec![1])] }],
    ))
    .unwrap();
    let report = receive(&mut bob, &vec![violation, good]);
    assert_eq!(report.dropped, 0);
    assert_eq!(
        report.failure,
        Some(ConnectionError::Protocol(ProtocolViolation::UnknownPacket))
    );
    assert!(bob.read_messages().iter().all(|c| c.messages.is_empty()));
}

#[test]
fn server_follows_the_transport_events() {
    let (mut server, connect, disconnect) = server();
    server.update();
    assert_eq!(server.client_count(), 0);
    connect.send(4).unwrap();
    connect.send(7).unwrap();
    server.update();
    assert_eq!(server.client_count(), 2);
    assert!(server.is_connected(4));
    assert!(server.is_connected(7));
    disconnect.send(4).unwrap();
    disconnect.send(9).unwrap();
    server.update();
    assert_eq!(server.client_count(), 1);
    assert!(!server.is_connected(4));
    // a client that connects and goes within one update is gone
    connect.send(5).unwrap();
    disconnect.send(5).unwrap();
    server.update();
    assert!(!server.is_connected(5));
}

#[test]
fn server_gives_a_reconnecting_client_a_fresh_connection() {
    let (mut server, _connect, _disconnect) = server();
    server.connect(1);
    server.buffer_send(1, payload(vec![1]), ORDERED).unwrap();
    server.connect(1);
    assert_eq!(server.client_count(), 1);
    let report = server.send_packets(0, Tick(0), 100, 1000);
    assert_eq!(report.outgoing.len(), 1);
    assert_eq!(report.outgoing[0].packets.len(), 0);
}

#[test]
fn server_refuses_an_unknown_client() {
    let (mut server, _connect, _disconnect) = server();
    assert_eq!(
        server.buffer_send(3, payload(vec![1]), ORDERED),
        Err(ServerError::ClientNotFound)
    );
    assert_eq!(server.read_messages(3).len(), 0);
    assert_eq!(server.recv_packet(3, packet(0, 65535, 0, Vec::new())), RecvOutcome::Dropped);
    server.connect(3);
    assert_eq!(
        server.buffer_send(3, payload(vec![1]), ChannelKind(9)),
        Err(ServerError::Connection(ConnectionError::ChannelNotFound))
    );
    assert!(server.is_connected(3));
}

#[test]
fn server_routes_packets_to_their_clients() {
    let (mut server, _connect, _disconnect) = server();
    server.connect(1);
    server.connect(2);
    let block = |id: u16, byte: u8| ChannelBlock { kind: ORDERED, messages: vec![whole(id, vec![byte])] };
    let report = server.recv_packets(vec![
        Arrival { client: 2, packet: packet(0, 65535, 0, vec![block(0, 20)]) },
        Arrival { client: 1, packet: packet(0, 65535, 0, vec![block(0, 10)]) },
        Arrival { client: 5, packet: packet(0, 65535, 0, vec![block(0, 50)]) },
        Arrival { client: 1, packet: packet(1, 65535, 0, vec![block(1, 11)]) },
    ]);
    assert_eq!(report.dropped, 1);
    assert_eq!(report.failed, Vec::new());
    let first: Vec<Vec<u8>> =
        server.read_messages(1)[0].messages.iter().map(|m| m.bytes.clone()).collect();
    assert_eq!(first, vec![vec![10], vec![11]]);
    assert_eq!(server.read_messages(2)[0].messages[0].bytes, vec![20]);
}

#[test]
fn server_closes_a_connection_that_breaks_the_protocol() {
    let (mut server, _connect, _disconnect) = server();
    server.connect(1);
    server.connect(2);
    let report = server.recv_packets(vec![
        Arrival { client: 1, packet: packet(0, 9, 0, Vec::new()) },
        Arrival { client: 2, packet: packet(0, 65535, 0, Vec::new()) },
    ]);
    assert_eq!(report.dropped, 0);
    assert_eq!(report.failed, vec![1]);
    assert!(!server.is_connected(1));
    assert!(server.is_connected(2));
}

#[test]
fn server_flushes_every_client() {
    let (mut server, _connect, _disconnect) = server();
    server.connect(1);
    server.connect(2);
    server.buffer_send(2, payload(vec![7]), SEQUENCED).unwrap();
    let report = server.send_packets(0, Tick(3), 100, 1000);
    assert_eq!(report.failed, Vec::new());
    assert_eq!(report.outgoing.len(), 2);
    assert_eq!(report.outgoing[0].client, 1);
    assert_eq!(report.outgoing[0].packets.len(), 0);
    assert_eq!(report.outgoing[1].client, 2);
    assert_eq!(report.outgoing[1].packets.len(), 1);
    assert_eq!(report.outgoing[1].packets[0].blocks[0].messages[0].id(), Some(MessageId(0)));
}

#[test]
fn server_disconnects_a_client_with_too_many_packets_in_flight() {
    let (mut server, _connect, _disconnect) = server();
    server.connect(1);
    // every flush sends one packet that is never acknowledged
    for n in 0..1024u64 {
        server.buffer_send(1, payload(vec![0]), SEQUENCED).unwrap();
        let report = server.send_packets(n, Tick(0), 1_000_000, 1000);
        assert_eq!(report.failed, Vec::new());
    }
    server.buffer_send(1, payload(vec![0]), SEQUENCED).unwrap();
    let report = server.send_packets(2000, Tick(0), 1_000_000, 1000);
    assert_eq!(report.failed, vec![1]);
    assert!(!server.is_connected(1));
}

#[test]
fn connection_fails_when_too_many_messages_are_being_reassembled() {
    let mut connection = Connection::new(&registry());
    let first_of_two = |id: u16| {
        MessageContainer::Fragment(FragmentData {
            message_id: MessageId(id),
            tick: None,
            fragment_id: 0,
            num_fragments: 2,
            bytes: vec![1],
        })
    };
    for id in 0..1024u16 {
        let block = ChannelBlock { kind: SEQUENCED, messages: vec![first_of_two(id)] };
        assert_eq!(connection.recv_packet(packet(id, 65535, 0, vec![block])), Ok(Vec::new()));
    }
    let block = ChannelBlock { kind: SEQUENCED, messages: vec![first_of_two(1024)] };
    let error = connection.recv_packet(packet(1024, 65535, 0, vec![block])).unwrap_err();
    assert_eq!(error, ConnectionError::Channel(ChannelError::FragmentSlotOverflow));
    assert!(error.fails_connection());
}
