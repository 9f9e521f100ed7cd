//! The server: one connection per client.
//!
//! The transport tells the server which clients have connected and which have
//! gone, and hands it the packets that arrive. The server keeps the
//! connections, routes packets and messages to them, and closes a connection
//! whose peer or whose own queues break the protocol.

use vstd::prelude::*;
use crate::channel::{ChannelKind, ChannelRegistry, ChannelSettings};
use crate::connection::{
    fresh_connection, read_view, ChannelMessages, ChannelMessagesView, Connection,
    ConnectionError, ConnectionView,
};
use crate::message::{MessageContainer, MessageView};
use crate::packet::{packets_view, Packet, PacketView};
use crate::wrapping_id::Tick;

verus! {

/// The receiving end of a `crossbeam_channel` channel.
#[verifier::external_type_specification]
#[verifier::external_body]
#[verifier::reject_recursive_types(T)]
pub struct ExEventReceiver<T>(crossbeam_channel::Receiver<T>);

/// Takes the client events that wait in the channel, without waiting for more.
///
/// Calls `crossbeam_channel::Receiver::try_iter` and collects what it yields:
/// the events that are ready, in the order in which they were sent. What
/// comes back depends on what the transport has sent, so nothing is claimed
/// of it.
#[verifier::external_body]
fn drain_client_events(receiver: &crossbeam_channel::Receiver<usize>) -> (events: Vec<usize>) {
    receiver.try_iter().collect()
}

/// Where the transport reports the clients that connect and disconnect.
pub struct ServerContext {
    pub connections: crossbeam_channel::Receiver<usize>,
    pub disconnections: crossbeam_channel::Receiver<usize>,
}

/// Why the server refuses what it is asked.
#[derive(Clone, Copy, Debug, PartialEq, Eq, Structural)]
pub enum ServerError {
    /// No client with the index that was named is connected.
    ClientNotFound,
    /// The client's connection refused.
    Connection(ConnectionError),
}

/// What became of a packet that arrived.
#[derive(Clone, Copy, Debug, PartialEq, Eq, Structural)]
pub enum RecvOutcome {
    /// Its messages were delivered to their channels.
    Delivered,
    /// It was dropped: its client is not connected, or it has a fault.
    Dropped,
    /// It broke the protocol, and its client's connection was closed.
    Failed,
}

/// Mathematical value of a client's entry.
pub struct ClientView {
    pub client: usize,
    pub connection: ConnectionView,
}

/// Mathematical value of the server.
pub struct ServerView {
    /// The channels that every connection has.
    pub registry: Seq<ChannelSettings>,
    /// The connected clients, in the order in which they connected.
    pub clients: Seq<ClientView>,
}

/// The server after a message was handed to it for sending.
pub struct ServerSend {
    pub state: ServerView,
    pub result: Result<(), ServerError>,
}

/// The server after one packet arrived.
pub struct ServerRecvOne {
    pub state: ServerView,
    pub outcome: RecvOutcome,
}

/// The server after a batch of packets arrived.
pub struct ServerRecv {
    pub state: ServerView,
    /// How many of the packets were dropped.
    pub dropped: nat,
    /// The clients whose connections were closed, in the order of the packets.
    pub failed: Seq<usize>,
}

/// A packet that arrived, and the client that it came from.
pub struct ArrivalView {
    pub client: usize,
    pub packet: PacketView,
}

/// The packets that leave for one client.
pub struct ClientPacketsView {
    pub client: usize,
    pub packets: Seq<PacketView>,
}

/// The clients after a flush, what leaves, and whose connection was closed.
pub struct ServerFlush {
    pub clients: Seq<ClientView>,
    pub outgoing: Seq<ClientPacketsView>,
    pub failed: Seq<usize>,
}

/// Whether the client `client` is among `clients`.
pub open spec fn has_client(clients: Seq<ClientView>, client: usize) -> bool {
    exists|i: int| 0 <= i < clients.len() && (#[trigger] clients[i]).client == client
}

/// The place of the client `client` among `clients`.
pub open spec fn client_index(clients: Seq<ClientView>, client: usize) -> int {
    choose|i: int| 0 <= i < clients.len() && (#[trigger] clients[i]).client == client
}

/// The clients after the flush of each, in their order. A client whose flush
/// fails leaves the clients and is named among the failed.
pub open spec fn flush_clients(
    clients: Seq<ClientView>,
    now: u64,
    tick: u16,
    resend_after: u64,
    budget: int,
) -> ServerFlush
    decreases clients.len(),
{
    if clients.len() == 0 {
        ServerFlush { clients: Seq::empty(), outgoing: Seq::empty(), failed: Seq::empty() }
    } else {
        let before = flush_clients(clients.drop_last(), now, tick, resend_after, budget);
        let entry = clients.last();
        let step = entry.connection.send_packets(now, tick, resend_after, budget);
        match step.result {
            Ok(packets) => ServerFlush {
                clients: before.clients.push(
                    ClientView { client: entry.client, connection: step.state },
                ),
                outgoing: before.outgoing.push(ClientPacketsView { client: entry.client, packets }),
                failed: before.failed,
            },
            Err(_) => ServerFlush { failed: before.failed.push(entry.client), ..before },
        }
    }
}

impl ServerView {
    /// What holds of the server at any time: no client is entered twice, and
    /// every connection is well formed.
    pub open spec fn wf(self) -> bool {
        &&& forall|i: int, j: int|
            0 <= i < j < self.clients.len() ==> (#[trigger] self.clients[i]).client != (
            #[trigger] self.clients[j]).client
        &&& forall|i: int|
            0 <= i < self.clients.len() ==> (#[trigger] self.clients[i]).connection.wf()
    }

    /// The server once the client `client` has connected: it has a fresh
    /// connection, in the place of its old one if it had one.
    pub open spec fn connect(self, client: usize) -> ServerView {
        let entry = ClientView { client, connection: fresh_connection(self.registry) };
        ServerView {
            clients: if has_client(self.clients, client) {
                self.clients.update(client_index(self.clients, client), entry)
            } else {
                self.clients.push(entry)
            },
            ..self
        }
    }

    /// The server once the client `client` has gone: its connection is dropped.
    pub open spec fn disconnect(self, client: usize) -> ServerView {
        ServerView {
            clients: if has_client(self.clients, client) {
                self.clients.remove(client_index(self.clients, client))
            } else {
                self.clients
            },
            ..self
        }
    }

    /// The server once the clients `clients` have connected, in their order.
    pub open spec fn connect_all(self, clients: Seq<usize>) -> ServerView
        decreases clients.len(),
    {
        if clients.len() == 0 {
            self
        } else {
            self.connect_all(clients.drop_last()).connect(clients.last())
        }
    }

    /// The server once the clients `clients` have gone, in their order.
    pub open spec fn disconnect_all(self, clients: Seq<usize>) -> ServerView
        decreases clients.len(),
    {
        if clients.len() == 0 {
            self
        } else {
            self.disconnect_all(clients.drop_last()).disconnect(clients.last())
        }
    }

    /// The server after the transport's events: first the connections, then
    /// the disconnections.
    pub open spec fn apply_events(self, connected: Seq<usize>, disconnected: Seq<usize>) -> ServerView {
        self.connect_all(connected).disconnect_all(disconnected)
    }

    /// The server after the message `m` was handed to it for the channel
    /// `kind` of the client `client`. Without such a client the message is
    /// refused. A connection that the message breaks is closed.
    pub open spec fn buffer_send(self, client: usize, m: MessageView, kind: u16) -> ServerSend {
        if !has_client(self.clients, client) {
            ServerSend { state: self, result: Err(ServerError::ClientNotFound) }
        } else {
            let i = client_index(self.clients, client);
            let step = self.clients[i].connection.buffer_send(m, kind);
            match step.result {
                Ok(_) => ServerSend {
                    state: ServerView {
                        clients: self.clients.update(
                            i,
                            ClientView { client, connection: step.state },
                        ),
                        ..self
                    },
                    result: Ok(()),
                },
                Err(e) => ServerSend {
                    state: if e.is_fatal() {
                        ServerView { clients: self.clients.remove(i), ..self }
                    } else {
                        self
                    },
                    result: Err(ServerError::Connection(e)),
                },
            }
        }
    }

    /// The server after the packet `p` arrived from the client `client`.
    pub open spec fn recv_packet(self, client: usize, p: PacketView) -> ServerRecvOne {
        if !has_client(self.clients, client) {
            ServerRecvOne { state: self, outcome: RecvOutcome::Dropped }
        } else {
            let i = client_index(self.clients, client);
            let step = self.clients[i].connection.recv_packet(p);
            match step.result {
                Ok(_) => ServerRecvOne {
                    state: ServerView {
                        clients: self.clients.update(
                            i,
                            ClientView { client, connection: step.state },
                        ),
                        ..self
                    },
                    outcome: RecvOutcome::Delivered,
                },
                Err(e) => if e.is_fatal() {
                    ServerRecvOne {
                        state: ServerView { clients: self.clients.remove(i), ..self },
                        outcome: RecvOutcome::Failed,
                    }
                } else {
                    ServerRecvOne { state: self, outcome: RecvOutcome::Dropped }
                },
            }
        }
    }

    /// The server after the packets `arrivals` arrived, in their order.
    pub open spec fn recv_packets(self, arrivals: Seq<ArrivalView>) -> ServerRecv
        decreases arrivals.len(),
    {
        if arrivals.len() == 0 {
            ServerRecv { state: self, dropped: 0, failed: Seq::empty() }
        } else {
            let before = self.recv_packets(arrivals.drop_last());
            let one = before.state.recv_packet(arrivals.last().client, arrivals.last().packet);
            ServerRecv {
                state: one.state,
                dropped: if one.outcome == RecvOutcome::Dropped {
                    before.dropped + 1
                } else {
                    before.dropped
                },
                failed: if one.outcome == RecvOutcome::Failed {
                    before.failed.push(arrivals.last().client)
                } else {
                    before.failed
                },
            }
        }
    }

    /// What reading the client `client` hands out, and the server after it.
    /// Of a client that is not connected, nothing is read.
    pub open spec fn read_messages(self, client: usize) -> (ServerView, Seq<ChannelMessagesView>) {
        if !has_client(self.clients, client) {
            (self, Seq::empty())
        } else {
            let i = client_index(self.clients, client);
            (
                ServerView {
                    clients: self.clients.update(
                        i,
                        ClientView { client, connection: self.clients[i].connection.after_read() },
                    ),
                    ..self
                },
                self.clients[i].connection.read_messages(),
            )
        }
    }
}

/// One client of the server.
pub struct ClientEntry {
    client: usize,
    connection: Connection,
}

impl View for ClientEntry {
    type V = ClientView;

    closed spec fn view(&self) -> ClientView {
        ClientView { client: self.client, connection: self.connection@ }
    }
}

/// A packet that arrived, and the client that it came from.
pub struct Arrival {
    pub client: usize,
    pub packet: Packet,
}

impl View for Arrival {
    type V = ArrivalView;

    open spec fn view(&self) -> ArrivalView {
        ArrivalView { client: self.client, packet: self.packet@ }
    }
}

/// The mathematical values of the arrivals `arrivals`.
pub open spec fn arrivals_view(arrivals: Seq<Arrival>) -> Seq<ArrivalView> {
    Seq::new(arrivals.len(), |i: int| arrivals[i]@)
}

/// The packets that leave for one client.
pub struct ClientPackets {
    pub client: usize,
    pub packets: Vec<Packet>,
}

impl View for ClientPackets {
    type V = ClientPacketsView;

    open spec fn view(&self) -> ClientPacketsView {
        ClientPacketsView { client: self.client, packets: packets_view(self.packets@) }
    }
}

/// The mathematical values of what leaves.
pub open spec fn outgoing_view(outgoing: Seq<ClientPackets>) -> Seq<ClientPacketsView> {
    Seq::new(outgoing.len(), |i: int| outgoing[i]@)
}

/// What a batch of arrivals came to.
pub struct RecvReport {
    /// How many of the packets were dropped.
    pub dropped: usize,
    /// The clients whose connections were closed.
    pub failed: Vec<usize>,
}

/// What a flush came to.
pub struct FlushReport {
    /// The packets that leave, client by client.
    pub outgoing: Vec<ClientPackets>,
    /// The clients whose connections were closed.
    pub failed: Vec<usize>,
}

/// The server.
pub struct Server {
    context: ServerContext,
    user_connections: Vec<ClientEntry>,
    channel_registry: ChannelRegistry,
}

spec fn clients_view(clients: Seq<ClientEntry>) -> Seq<ClientView> {
    Seq::new(clients.len(), |i: int| clients[i]@)
}

impl View for Server {
    type V = ServerView;

    closed spec fn view(&self) -> ServerView {
        ServerView {
            registry: self.channel_registry@,
            clients: clients_view(self.user_connections@),
        }
    }
}

impl Server {
    /// The invariant of the server's representation.
    pub closed spec fn wf(&self) -> bool {
        &&& self@.wf()
        &&& self.channel_registry.wf()
        &&& forall|i: int|
            0 <= i < self.user_connections.len() ==> (#[trigger] self.user_connections[i]).connection.wf()
    }

    /// A well-formed server has a well-formed value.
    pub proof fn lemma_view_wf(&self)
        requires
            self.wf(),
        ensures
            self@.wf(),
    {
    }

    /// A server without clients, whose connections will have the channels
    /// that `channel_registry` declares.
    pub fn new(context: ServerContext, channel_registry: ChannelRegistry) -> (r: Server)
        requires
            channel_registry.wf(),
        ensures
            r.wf(),
            r@ == (ServerView { registry: channel_registry@, clients: Seq::empty() }),
    {
        let r = Server { context, user_connections: Vec::new(), channel_registry };
        assert(r@.clients =~= Seq::empty());
        r
    }

    /// The number of connected clients.
    pub fn client_count(&self) -> (n: usize)
        ensures
            n == self@.clients.len(),
    {
        self.user_connections.len()
    }

    fn find(&self, client: usize) -> (r: Option<usize>)
        requires
            self.wf(),
        ensures
            match r {
                Some(i) => has_client(self@.clients, client) && i == client_index(
                    self@.clients,
                    client,
                ) && i < self.user_connections.len(),
                None => !has_client(self@.clients, client),
            },
    {
        let mut i: usize = 0;
        while i < self.user_connections.len()
            invariant
                self.wf(),
                i <= self.user_connections.len(),
                forall|k: int| 0 <= k < i ==> (#[trigger] self@.clients[k]).client != client,
            decreases self.user_connections.len() - i,
        {
            if self.user_connections[i].client == client {
                proof {
                    assert(self@.clients[i as int].client == client);
                    assert(has_client(self@.clients, client));
                    let j = client_index(self@.clients, client);
                    assert(0 <= j < self@.clients.len() && self@.clients[j].client == client);
                    if j < i {
                        assert(self@.clients[j].client != self@.clients[i as int].client);
                    } else if i < j {
                        assert(self@.clients[i as int].client != self@.clients[j].client);
                    }
                }
                return Some(i);
            }
            i += 1;
        }
        None
    }

    /// Whether the client `client` is connected.
    pub fn is_connected(&self, client: usize) -> (r: bool)
        requires
            self.wf(),
        ensures
            r == has_client(self@.clients, client),
    {
        self.find(client).is_some()
    }

    fn replace_at(&mut self, i: usize, connection: Connection)
        requires
            old(self).wf(),
            i < old(self)@.clients.len(),
            connection.wf(),
        ensures
            final(self).wf(),
            final(self)@ == (ServerView {
                clients: old(self)@.clients.update(
                    i as int,
                    ClientView { client: old(self)@.clients[i as int].client, connection: connection@ },
                ),
                ..old(self)@
            }),
    {
        let ghost before = self.user_connections@;
        let ghost view_before = self@.clients;
        let entry = &mut self.user_connections[i];
        entry.connection = connection;
        proof {
            let after = self.user_connections@;
            connection.lemma_view_wf();
            assert forall|k: int| 0 <= k < after.len() && k != i implies after[k] == before[k] by {}
            assert(view_before[i as int] == before[i as int]@);
            assert(self@.clients =~= view_before.update(
                i as int,
                ClientView { client: view_before[i as int].client, connection: connection@ },
            ));
            assert forall|k: int| 0 <= k < after.len() implies (#[trigger] after[k]).connection.wf() by {
                if k != i {
                    assert(before[k].connection.wf());
                }
            }
            assert forall|k: int| 0 <= k < after.len() implies (
            #[trigger] self@.clients[k]).connection.wf() by {
                if k != i {
                    assert(view_before[k].connection.wf());
                }
            }
            assert forall|a: int, b: int| 0 <= a < b < after.len() implies (
            #[trigger] self@.clients[a]).client != (#[trigger] self@.clients[b]).client by {
                assert(view_before[a].client != view_before[b].client);
            }
        }
    }

    fn remove_at(&mut self, i: usize)
        requires
            old(self).wf(),
            i < old(self)@.clients.len(),
        ensures
            final(self).wf(),
            final(self)@ == (ServerView { clients: old(self)@.clients.remove(i as int), ..old(self)@ }),
    {
        let ghost before = self.user_connections@;
        let ghost view_before = self@.clients;
        self.user_connections.remove(i);
        proof {
            let after = self.user_connections@;
            assert(self@.clients =~= view_before.remove(i as int));
            assert forall|k: int| 0 <= k < after.len() implies (#[trigger] after[k]).connection.wf() by {
                let k2 = if k < i { k } else { k + 1 };
                assert(after[k] == before[k2]);
                assert(before[k2].connection.wf());
            }
            assert forall|k: int| 0 <= k < after.len() implies (
            #[trigger] self@.clients[k]).connection.wf() by {
                let k2 = if k < i { k } else { k + 1 };
                assert(self@.clients[k] == view_before[k2]);
                assert(view_before[k2].connection.wf());
            }
            assert forall|a: int, b: int| 0 <= a < b < after.len() implies (
            #[trigger] self@.clients[a]).client != (#[trigger] self@.clients[b]).client by {
                let a2 = if a < i { a } else { a + 1 };
                let b2 = if b < i { b } else { b + 1 };
                assert(self@.clients[a] == view_before[a2]);
                assert(self@.clients[b] == view_before[b2]);
                assert(view_before[a2].client != view_before[b2].client);
            }
        }
    }

    /// Enters the client `client` with a fresh connection, in the place of
    /// its old one if it had one.
    pub fn connect(&mut self, client: usize)
        requires
            old(self).wf(),
        ensures
            final(self).wf(),
            final(self)@ == old(self)@.connect(client),
    {
        let connection = Connection::new(&self.channel_registry);
        match self.find(client) {
            Some(i) => {
                self.replace_at(i, connection);
            },
            None => {
                let ghost before = self.user_connections@;
                let ghost view_before = self@.clients;
                self.user_connections.push(ClientEntry { client, connection });
                proof {
                    let after = self.user_connections@;
                    connection.lemma_view_wf();
                    assert(self@.clients =~= view_before.push(
                        ClientView { client, connection: connection@ },
                    ));
                    assert forall|k: int| 0 <= k < after.len() implies (
                    #[trigger] after[k]).connection.wf() by {
                        if k < before.len() {
                            assert(before[k].connection.wf());
                        }
                    }
                    assert forall|k: int| 0 <= k < after.len() implies (
                    #[trigger] self@.clients[k]).connection.wf() by {
                        if k < before.len() {
                            assert(view_before[k].connection.wf());
                        }
                    }
                    assert forall|a: int, b: int| 0 <= a < b < after.len() implies (
                    #[trigger] self@.clients[a]).client != (
                    #[trigger] self@.clients[b]).client by {
                        if b < before.len() {
                            assert(view_before[a].client != view_before[b].client);
                        } else {
                            assert(view_before[a].client != client);
                        }
                    }
                }
            },
        }
    }

    /// Drops the connection of the client `client`, if it has one.
    pub fn disconnect(&mut self, client: usize)
        requires
            old(self).wf(),
        ensures
            final(self).wf(),
            final(self)@ == old(self)@.disconnect(client),
    {
        match self.find(client) {
            Some(i) => {
                self.remove_at(i);
            },
            None => {},
        }
    }

    /// Takes the transport's events: the clients that have connected, then
    /// those that have gone.
    pub fn apply_events(&mut self, connected: &Vec<usize>, disconnected: &Vec<usize>)
        requires
            old(self).wf(),
        ensures
            final(self).wf(),
            final(self)@ == old(self)@.apply_events(connected@, disconnected@),
    {
        let ghost start = self@;
        let mut i: usize = 0;
        proof {
            assert(connected@.take(0) =~= Seq::empty());
        }
        while i < connected.len()
            invariant
                self.wf(),
                i <= connected.len(),
                self@ == start.connect_all(connected@.take(i as int)),
            decreases connected.len() - i,
        {
            proof {
                assert(connected@.take(i as int + 1).drop_last() =~= connected@.take(i as int));
                assert(connected@.take(i as int + 1).last() == connected@[i as int]);
            }
            self.connect(connected[i]);
            i += 1;
        }
        proof {
            assert(connected@.take(i as int) =~= connected@);
            assert(disconnected@.take(0) =~= Seq::empty());
        }
        let ghost middle = self@;
        let mut j: usize = 0;
        while j < disconnected.len()
            invariant
                self.wf(),
                j <= disconnected.len(),
                self@ == middle.disconnect_all(disconnected@.take(j as int)),
            decreases disconnected.len() - j,
        {
            proof {
                assert(disconnected@.take(j as int + 1).drop_last() =~= disconnected@.take(
                    j as int,
                ));
                assert(disconnected@.take(j as int + 1).last() == disconnected@[j as int]);
            }
            self.disconnect(disconnected[j]);
            j += 1;
        }
        proof {
            assert(disconnected@.take(j as int) =~= disconnected@);
        }
    }

    /// Brings the server up to date with the transport: takes the events that
    /// wait on the two channels, whatever they are, and applies them.
    pub fn update(&mut self)
        requires
            old(self).wf(),
        ensures
            final(self).wf(),
            exists|connected: Seq<usize>, disconnected: Seq<usize>|
                final(self)@ == #[trigger] old(self)@.apply_events(connected, disconnected),
    {
        let connected = drain_client_events(&self.context.connections);
        let disconnected = drain_client_events(&self.context.disconnections);
        self.apply_events(&connected, &disconnected);
        assert(self@ == old(self)@.apply_events(connected@, disconnected@));
    }

    /// Queues a message to be sent to a client.
    pub fn buffer_send(
        &mut self,
        client_id: usize,
        message: MessageContainer,
        channel_kind: ChannelKind,
    ) -> (r: Result<(), ServerError>)
        requires
            old(self).wf(),
        ensures
            final(self).wf(),
            final(self)@ == old(self)@.buffer_send(client_id, message@, channel_kind.0).state,
            r == old(self)@.buffer_send(client_id, message@, channel_kind.0).result,
    {
        let i = match self.find(client_id) {
            Some(i) => i,
            None => {
                return Err(ServerError::ClientNotFound);
            },
        };
        let ghost before = self.user_connections@;
        let ghost view_before = self@.clients;
        proof {
            assert(view_before[i as int] == before[i as int]@);
            assert(before[i as int].connection.wf());
        }
        let entry = &mut self.user_connections[i];
        let result = entry.connection.buffer_send(message, channel_kind);
        proof {
            let after = self.user_connections@;
            after[i as int].connection.lemma_view_wf();
            assert forall|k: int| 0 <= k < after.len() && k != i implies after[k] == before[k] by {}
            assert(self@.clients =~= view_before.update(
                i as int,
                ClientView { client: client_id, connection: after[i as int].connection@ },
            ));
            assert forall|k: int| 0 <= k < after.len() implies (#[trigger] after[k]).connection.wf() by {
                if k != i {
                    assert(before[k].connection.wf());
                }
            }
            assert forall|k: int| 0 <= k < after.len() implies (
            #[trigger] self@.clients[k]).connection.wf() by {
                if k != i {
                    assert(view_before[k].connection.wf());
                }
            }
            assert forall|a: int, b: int| 0 <= a < b < after.len() implies (
            #[trigger] self@.clients[a]).client != (#[trigger] self@.clients[b]).client by {
                assert(view_before[a].client != view_before[b].client);
            }
        }
        match result {
            Ok(_) => Ok(()),
            Err(e) => {
                if e.fails_connection() {
                    let ghost with_failed = self@.clients;
                    self.remove_at(i);
                    proof {
                        assert(self@.clients =~= view_before.remove(i as int));
                    }
                } else {
                    proof {
                        crate::connection::lemma_refused_send_keeps_state(
                            view_before[i as int].connection,
                            message@,
                            channel_kind.0,
                        );
                        assert(self@.clients =~= view_before);
                    }
                }
                Err(ServerError::Connection(e))
            },
        }
    }

    /// Takes one packet that arrived from the client `client`.
    pub fn recv_packet(&mut self, client: usize, packet: Packet) -> (r: RecvOutcome)
        requires
            old(self).wf(),
        ensures
            final(self).wf(),
            final(self)@ == old(self)@.recv_packet(client, packet@).state,
            r == old(self)@.recv_packet(client, packet@).outcome,
    {
        let i = match self.find(client) {
            Some(i) => i,
            None => {
                return RecvOutcome::Dropped;
            },
        };
        let ghost before = self.user_connections@;
        let ghost view_before = self@.clients;
        proof {
            assert(view_before[i as int] == before[i as int]@);
            assert(before[i as int].connection.wf());
        }
        let entry = &mut self.user_connections[i];
        let result = entry.connection.recv_packet(packet);
        proof {
            let after = self.user_connections@;
            after[i as int].connection.lemma_view_wf();
            assert forall|k: int| 0 <= k < after.len() && k != i implies after[k] == before[k] by {}
            assert(self@.clients =~= view_before.update(
                i as int,
                ClientView { client, connection: after[i as int].connection@ },
            ));
            assert forall|k: int| 0 <= k < after.len() implies (#[trigger] after[k]).connection.wf() by {
                if k != i {
                    assert(before[k].connection.wf());
                }
            }
            assert forall|k: int| 0 <= k < after.len() implies (
            #[trigger] self@.clients[k]).connection.wf() by {
                if k != i {
                    assert(view_before[k].connection.wf());
                }
            }
            assert forall|a: int, b: int| 0 <= a < b < after.len() implies (
            #[trigger] self@.clients[a]).client != (#[trigger] self@.clients[b]).client by {
                assert(view_before[a].client != view_before[b].client);
            }
        }
        let ghost step = view_before[i as int].connection.recv_packet(packet@);
        proof {
            assert(self.user_connections@[i as int].connection@ == step.state);
        }
        match result {
            Ok(_) => {
                proof {
                    assert(step.result is Ok);
                    assert(self@.clients == view_before.update(
                        i as int,
                        ClientView { client, connection: step.state },
                    ));
                }
                RecvOutcome::Delivered
            },
            Err(e) => {
                if e.fails_connection() {
                    self.remove_at(i);
                    proof {
                        assert(self@.clients =~= view_before.remove(i as int));
                    }
                    RecvOutcome::Failed
                } else {
                    proof {
                        crate::connection::lemma_dropped_packet_keeps_state(view_before[i as int].connection, packet@);
                        assert(self@.clients =~= view_before);
                    }
                    RecvOutcome::Dropped
                }
            },
        }
    }

    /// Takes the packets that arrived, in their order.
    pub fn recv_packets(&mut self, arrivals: Vec<Arrival>) -> (r: RecvReport)
        requires
            old(self).wf(),
        ensures
            final(self).wf(),
            final(self)@ == old(self)@.recv_packets(arrivals_view(arrivals@)).state,
            r.dropped == old(self)@.recv_packets(arrivals_view(arrivals@)).dropped,
            r.failed@ == old(self)@.recv_packets(arrivals_view(arrivals@)).failed,
    {
        let ghost start = self@;
        let ghost all = arrivals_view(arrivals@);
        let mut rest = arrivals;
        let mut dropped: usize = 0;
        let mut failed: Vec<usize> = Vec::new();
        let mut i: usize = 0;
        proof {
            assert(all.take(0) =~= Seq::empty());
        }
        while i < rest.len()
            invariant
                self.wf(),
                all == arrivals_view(arrivals@),
                i <= rest.len(),
                rest.len() == all.len(),
                forall|k: int| i <= k < rest.len() ==> (#[trigger] rest[k])@ == all[k],
                dropped <= i,
                start.recv_packets(all.take(i as int)) == (ServerRecv {
                    state: self@,
                    dropped: dropped as nat,
                    failed: failed@,
                }),
            decreases rest.len() - i,
        {
            let mut arrival = Arrival {
                client: 0,
                packet: Packet {
                    header: crate::packet::PacketHeader {
                        packet_type: crate::packet::PacketType::Data,
                        packet_id: crate::wrapping_id::PacketId(0),
                        tick: Tick(0),
                        latest_ack: crate::wrapping_id::PacketId(0),
                        ack_bits: 0,
                    },
                    blocks: Vec::new(),
                },
            };
            rest.set_and_swap(i, &mut arrival);
            proof {
                assert(arrival@ == all[i as int]);
                assert(all.take(i as int + 1).drop_last() =~= all.take(i as int));
                assert(all.take(i as int + 1).last() == all[i as int]);
            }
            let client = arrival.client;
            match self.recv_packet(client, arrival.packet) {
                RecvOutcome::Delivered => {},
                RecvOutcome::Dropped => {
                    dropped += 1;
                },
                RecvOutcome::Failed => {
                    failed.push(client);
                },
            }
            i += 1;
        }
        proof {
            assert(all.take(i as int) =~= all);
        }
        RecvReport { dropped, failed }
    }

    /// Reads every channel of the client `client_id` until it has nothing
    /// more to hand out. Of a client that is not connected, nothing is read.
    pub fn read_messages(&mut self, client_id: usize) -> (r: Vec<ChannelMessages>)
        requires
            old(self).wf(),
        ensures
            final(self).wf(),
            final(self)@ == old(self)@.read_messages(client_id).0,
            read_view(r@) == old(self)@.read_messages(client_id).1,
    {
        let i = match self.find(client_id) {
            Some(i) => i,
            None => {
                let r: Vec<ChannelMessages> = Vec::new();
                assert(read_view(r@) =~= Seq::empty());
                return r;
            },
        };
        let ghost before = self.user_connections@;
        let ghost view_before = self@.clients;
        proof {
            assert(view_before[i as int] == before[i as int]@);
            assert(before[i as int].connection.wf());
        }
        let entry = &mut self.user_connections[i];
        let result = entry.connection.read_messages();
        proof {
            let after = self.user_connections@;
            after[i as int].connection.lemma_view_wf();
            assert forall|k: int| 0 <= k < after.len() && k != i implies after[k] == before[k] by {}
            assert(self@.clients =~= view_before.update(
                i as int,
                ClientView { client: client_id, connection: after[i as int].connection@ },
            ));
            assert forall|k: int| 0 <= k < after.len() implies (#[trigger] after[k]).connection.wf() by {
                if k != i {
                    assert(before[k].connection.wf());
                }
            }
            assert forall|k: int| 0 <= k < after.len() implies (
            #[trigger] self@.clients[k]).connection.wf() by {
                if k != i {
                    assert(view_before[k].connection.wf());
                }
            }
            assert forall|a: int, b: int| 0 <= a < b < after.len() implies (
            #[trigger] self@.clients[a]).client != (#[trigger] self@.clients[b]).client by {
                assert(view_before[a].client != view_before[b].client);
            }
        }
        result
    }

    /// Makes the packets that are to leave at the time `now`, for every
    /// client. A client whose flush fails is disconnected.
    pub fn send_packets(&mut self, now: u64, tick: Tick, resend_after: u64, budget: usize) -> (r:
        FlushReport)
        requires
            old(self).wf(),
        ensures
            final(self).wf(),
            final(self)@ == (ServerView {
                clients: flush_clients(
                    old(self)@.clients,
                    now,
                    tick.0,
                    resend_after,
                    budget as int,
                ).clients,
                ..old(self)@
            }),
            outgoing_view(r.outgoing@) == flush_clients(
                old(self)@.clients,
                now,
                tick.0,
                resend_after,
                budget as int,
            ).outgoing,
            r.failed@ == flush_clients(
                old(self)@.clients,
                now,
                tick.0,
                resend_after,
                budget as int,
            ).failed,
    {
        let ghost before = self@.clients;
        let mut outgoing: Vec<ClientPackets> = Vec::new();
        let mut failed: Vec<usize> = Vec::new();
        let mut i: usize = 0;
        let ghost mut done: int = 0;
        proof {
            assert(before.take(0) =~= Seq::empty());
            assert(self@.clients =~= flush_clients(
                before.take(0),
                now,
                tick.0,
                resend_after,
                budget as int,
            ).clients + before.skip(0));
            assert(outgoing_view(outgoing@) =~= Seq::empty());
        }
        while i < self.user_connections.len()
            invariant
                self.wf(),
                before == old(self)@.clients,
                self@.registry == old(self)@.registry,
                0 <= done <= before.len(),
                i <= self.user_connections.len(),
                self.user_connections.len() - i == before.len() - done,
                ({
                    let flushed = flush_clients(
                        before.take(done),
                        now,
                        tick.0,
                        resend_after,
                        budget as int,
                    );
                    &&& i == flushed.clients.len()
                    &&& self@.clients == flushed.clients + before.skip(done)
                    &&& outgoing_view(outgoing@) == flushed.outgoing
                    &&& failed@ == flushed.failed
                }),
            decreases self.user_connections.len() - i,
        {
            let ghost entries_before = self.user_connections@;
            let ghost view_before = self@.clients;
            let ghost outgoing_before = outgoing_view(outgoing@);
            proof {
                assert(view_before[i as int] == before.skip(done)[0]);
                assert(before.take(done + 1).drop_last() =~= before.take(done));
                assert(before.take(done + 1).last() == before[done]);
                assert(view_before[i as int] == entries_before[i as int]@);
                assert(entries_before[i as int].connection.wf());
            }
            let entry = &mut self.user_connections[i];
            let client = entry.client;
            let result = entry.connection.send_packets(now, tick, resend_after, budget);
            proof {
                let after = self.user_connections@;
                after[i as int].connection.lemma_view_wf();
                assert forall|k: int| 0 <= k < after.len() && k != i implies after[k]
                    == entries_before[k] by {}
                assert(self@.clients =~= view_before.update(
                    i as int,
                    ClientView { client, connection: after[i as int].connection@ },
                ));
                assert forall|k: int| 0 <= k < after.len() implies (
                #[trigger] after[k]).connection.wf() by {
                    if k != i {
                        assert(entries_before[k].connection.wf());
                    }
                }
                assert forall|k: int| 0 <= k < after.len() implies (
                #[trigger] self@.clients[k]).connection.wf() by {
                    if k != i {
                        assert(view_before[k].connection.wf());
                    }
                }
                assert forall|a: int, b: int| 0 <= a < b < after.len() implies (
                #[trigger] self@.clients[a]).client != (#[trigger] self@.clients[b]).client by {
                    assert(view_before[a].client != view_before[b].client);
                }
            }
            match result {
                Ok(packets) => {
                    let leaving = ClientPackets { client, packets };
                    outgoing.push(leaving);
                    proof {
                        assert(outgoing_view(outgoing@) =~= outgoing_before.push(leaving@));
                        assert(self@.clients =~= flush_clients(
                            before.take(done + 1),
                            now,
                            tick.0,
                            resend_after,
                            budget as int,
                        ).clients + before.skip(done + 1));
                    }
                    i += 1;
                },
                Err(_) => {
                    let ghost with_failed = self@.clients;
                    self.remove_at(i);
                    failed.push(client);
                    proof {
                        assert(self@.clients =~= with_failed.remove(i as int));
                        assert(self@.clients =~= flush_clients(
                            before.take(done + 1),
                            now,
                            tick.0,
                            resend_after,
                            budget as int,
                        ).clients + before.skip(done + 1));
                    }
                },
            }
            proof {
                done = done + 1;
            }
        }
        proof {
            assert(before.take(done) =~= before);
            assert(before.skip(done) =~= Seq::empty());
            assert(self@.clients =~= flush_clients(
                before,
                now,
                tick.0,
                resend_after,
                budget as int,
            ).clients);
        }
        FlushReport { outgoing, failed }
    }
}

} // verus!
