//! The client's networking state machine.
//!
//! A client is disconnected, connecting or connected. The functions here take
//! what the transport reports and decide the state that follows and what the
//! driver has to do; the driver performs it.

use vstd::prelude::*;
use crate::channel::{ChannelRegistry, ChannelSettings};
use crate::client::{Client, ClientId};
use crate::connection::{
    fresh_connection, lemma_dropped_packet_keeps_state, Connection, ConnectionError,
    ConnectionView,
};
use crate::packet::{packets_view, PacketView};
use crate::replication::{
    ReplicationReceiver, ReplicationSender, ReplicationSenderView, ReplicationView,
};
use crate::sync::{
    adjustment_for, prediction_target, ClockAdjustment, PingManager, SyncConfig, SyncManager,
    TickEvent, TickManager,
};
use crate::wire::{
    decode, encodable_packet, encode, encode_packet, parse_packet, EncodeError,
};
use crate::wrapping_id::Tick;

verus! {

/// The networking state of the client.
#[derive(Clone, Copy, Debug, PartialEq, Eq, Hash, Structural)]
pub enum NetworkingState {
    /// The client is disconnected from the server: no packet is sent or received.
    Disconnected,
    /// The client is trying to connect to the server.
    Connecting,
    /// The client is connected to the server.
    Connected,
}

impl Default for NetworkingState {
    fn default() -> (r: NetworkingState)
        ensures
            r == NetworkingState::Disconnected,
    {
        NetworkingState::Disconnected
    }
}

/// The state of the transport under a client.
#[derive(Clone, Copy, Debug, PartialEq, Eq, Structural)]
pub enum IoState {
    Connecting,
    Connected,
    Disconnected,
}

/// How the engine is deployed in this process.
#[derive(Clone, Copy, Debug, PartialEq, Eq, Structural)]
pub enum Mode {
    Client,
    Server,
    /// Server and one client in one process; that client needs no networking.
    HostServer,
}

/// The networking state that was asked for and not entered yet, if any.
#[derive(Clone, Copy, Debug, PartialEq, Eq, Structural)]
pub struct NextState(pub Option<NetworkingState>);

impl NextState {
    /// Asks for the state `state`; an earlier request is replaced.
    pub fn set(&mut self, state: NetworkingState)
        ensures
            *final(self) == NextState(Some(state)),
    {
        self.0 = Some(state);
    }
}

/// What the application asks of the client.
pub trait ClientCommands {
    /// The state that is asked for.
    spec fn requested(&self) -> Option<NetworkingState>;

    /// Starts the connection process: asks for the connecting state.
    fn connect_client(&mut self)
        ensures
            final(self).requested() == Some(NetworkingState::Connecting),
    ;

    /// Disconnects the client: asks for the disconnected state.
    fn disconnect_client(&mut self)
        ensures
            final(self).requested() == Some(NetworkingState::Disconnected),
    ;
}

impl ClientCommands for NextState {
    open spec fn requested(&self) -> Option<NetworkingState> {
        self.0
    }

    fn connect_client(&mut self) {
        self.0 = Some(NetworkingState::Connecting);
    }

    fn disconnect_client(&mut self) {
        self.0 = Some(NetworkingState::Disconnected);
    }
}

/// What the transport tells the client about itself.
pub enum ClientIoEvent {
    /// The transport is connected.
    Connected,
    /// The transport is disconnected, for the reason given.
    Disconnected(String),
}

/// What one look at the transport's event channel gave.
pub enum IoPoll {
    /// An event was waiting.
    Event(ClientIoEvent),
    /// No event was waiting.
    Empty,
    /// The channel is closed and nothing is left in it.
    Closed,
}

/// The part of a poll that the state machine goes by.
#[derive(Clone, Copy, Debug, PartialEq, Eq, Structural)]
pub enum IoSignal {
    Connected,
    Disconnected,
    Empty,
    Closed,
}

impl IoPoll {
    /// The signal that the poll carries.
    pub open spec fn signal(self) -> IoSignal {
        match self {
            IoPoll::Event(ClientIoEvent::Connected) => IoSignal::Connected,
            IoPoll::Event(ClientIoEvent::Disconnected(_)) => IoSignal::Disconnected,
            IoPoll::Empty => IoSignal::Empty,
            IoPoll::Closed => IoSignal::Closed,
        }
    }
}

/// The transport's state after a poll, and whether the client has to disconnect.
#[derive(Clone, Copy, Debug, PartialEq, Eq, Structural)]
pub struct IoTransition {
    pub io_state: IoState,
    pub disconnect: bool,
}

/// The transition that a signal causes in the state `state`.
///
/// A connected transport is recorded. A disconnected one is recorded and
/// disconnects the client. A closed event channel disconnects the client and
/// leaves the transport's state as it is. No event changes nothing.
pub open spec fn io_transition_spec(state: IoState, signal: IoSignal) -> IoTransition {
    match signal {
        IoSignal::Connected => IoTransition { io_state: IoState::Connected, disconnect: false },
        IoSignal::Disconnected => IoTransition { io_state: IoState::Disconnected, disconnect: true },
        IoSignal::Empty => IoTransition { io_state: state, disconnect: false },
        IoSignal::Closed => IoTransition { io_state: state, disconnect: true },
    }
}

/// Decides what a poll of the event channel means for a transport in the
/// state `state`.
pub fn io_transition(state: IoState, poll: &IoPoll) -> (r: IoTransition)
    ensures
        r == io_transition_spec(state, poll.signal()),
{
    match poll {
        IoPoll::Event(ClientIoEvent::Connected) => IoTransition {
            io_state: IoState::Connected,
            disconnect: false,
        },
        IoPoll::Event(ClientIoEvent::Disconnected(_)) => IoTransition {
            io_state: IoState::Disconnected,
            disconnect: true,
        },
        IoPoll::Empty => IoTransition { io_state: state, disconnect: false },
        IoPoll::Closed => IoTransition { io_state: state, disconnect: true },
    }
}

/// The receiving end of an `async_channel` channel.
#[verifier::external_type_specification]
#[verifier::external_body]
#[verifier::reject_recursive_types(T)]
pub struct ExReceiver<T>(async_channel::Receiver<T>);

/// Looks once at the transport's event channel, without waiting.
///
/// Calls `async_channel::Receiver::try_recv`, which hands out the event at the
/// head of the channel if there is one, and else tells an empty channel from a
/// closed one. What comes back depends on what the transport has sent, so
/// nothing is claimed of it.
#[verifier::external_body]
fn try_recv_io_event(receiver: &async_channel::Receiver<ClientIoEvent>) -> (poll: IoPoll) {
    match receiver.try_recv() {
        Ok(event) => IoPoll::Event(event),
        Err(async_channel::TryRecvError::Empty) => IoPoll::Empty,
        Err(async_channel::TryRecvError::Closed) => IoPoll::Closed,
    }
}

/// The transport under a client: its state, and the channel on which it
/// reports its events, if it reports any.
pub struct Io {
    pub state: IoState,
    event_receiver: Option<async_channel::Receiver<ClientIoEvent>>,
}

/// Mathematical value of a transport.
pub struct IoView {
    pub state: IoState,
    /// Whether the transport reports its events on a channel.
    pub listens: bool,
}

impl View for Io {
    type V = IoView;

    closed spec fn view(&self) -> IoView {
        IoView { state: self.state, listens: self.event_receiver is Some }
    }
}

impl Io {
    /// A transport that is connecting and reports on `event_receiver`.
    pub fn new(event_receiver: Option<async_channel::Receiver<ClientIoEvent>>) -> (r: Io)
        ensures
            r@ == (IoView { state: IoState::Connecting, listens: event_receiver is Some }),
    {
        Io { state: IoState::Connecting, event_receiver }
    }

    /// The transport's state.
    pub fn state(&self) -> (r: IoState)
        ensures
            r == self@.state,
    {
        self.state
    }
}

/// A client together with the transport that carries it, if any.
pub struct ClientConnection {
    client: Client,
    io: Option<Io>,
}

/// Mathematical value of a client connection.
pub struct ClientConnectionView {
    pub id: u64,
    pub connected: bool,
    pub io: Option<IoView>,
}

impl ClientConnectionView {
    /// The networking state that the client reports.
    pub open spec fn state(self) -> NetworkingState {
        if self.connected {
            NetworkingState::Connected
        } else {
            NetworkingState::Disconnected
        }
    }

    /// Whether client and transport are both connected.
    pub open spec fn is_connected(self) -> bool {
        self.connected && match self.io {
            Some(io) => io.state == IoState::Connected,
            None => false,
        }
    }

    /// Whether the client or its transport is disconnected; a client without
    /// a transport counts as disconnected.
    pub open spec fn is_disconnected(self) -> bool {
        !self.connected || match self.io {
            Some(io) => io.state == IoState::Disconnected,
            None => true,
        }
    }

    /// Whether the client's transport reports its events on a channel.
    pub open spec fn listens(self) -> bool {
        match self.io {
            Some(io) => io.listens,
            None => false,
        }
    }
}

/// A client connection and the state asked for, after one look at the
/// transport's events.
pub struct Listened {
    pub connection: ClientConnectionView,
    pub next_state: NextState,
}

/// What the signal `signal` from the transport makes of a client connection
/// that listens to its transport, and of the state asked for.
///
/// The transport's state follows the signal. If the signal disconnects the
/// client, the client is disconnected and the disconnected state is asked
/// for; else both stay as they are.
pub open spec fn listen_spec(c: ClientConnectionView, next: NextState, signal: IoSignal) -> Listened {
    let t = io_transition_spec(c.io.unwrap().state, signal);
    Listened {
        connection: ClientConnectionView {
            connected: c.connected && !t.disconnect,
            io: Some(IoView { state: t.io_state, ..c.io.unwrap() }),
            ..c
        },
        next_state: if t.disconnect {
            NextState(Some(NetworkingState::Disconnected))
        } else {
            next
        },
    }
}

impl View for ClientConnection {
    type V = ClientConnectionView;

    closed spec fn view(&self) -> ClientConnectionView {
        ClientConnectionView {
            id: self.client.id_spec(),
            connected: self.client.connected(),
            io: match self.io {
                Some(io) => Some(io@),
                None => None,
            },
        }
    }
}

impl ClientConnection {
    /// The connection of `client` over the transport `io`.
    pub fn new(client: Client, io: Option<Io>) -> (r: ClientConnection)
        ensures
            r@ == (ClientConnectionView {
                id: client.id_spec(),
                connected: client.connected(),
                io: match io {
                    Some(io) => Some(io@),
                    None => None,
                },
            }),
    {
        ClientConnection { client, io }
    }

    /// The networking state that the client reports.
    pub fn state(&self) -> (r: NetworkingState)
        ensures
            r == self@.state(),
    {
        self.client.state()
    }

    /// The client's identity.
    pub fn id(&self) -> (r: ClientId)
        ensures
            r == ClientId::Local(self@.id),
    {
        self.client.id()
    }

    /// The state of the transport, if the client has one.
    pub fn io_state(&self) -> (r: Option<IoState>)
        ensures
            r == match self@.io {
                Some(io) => Some(io.state),
                None => None,
            },
    {
        match &self.io {
            Some(io) => Some(io.state),
            None => None,
        }
    }

    /// Connects the client; the transport is left as it is.
    pub fn connect(&mut self)
        ensures
            final(self)@ == (ClientConnectionView { connected: true, ..old(self)@ }),
    {
        self.client.connect();
    }

    /// Disconnects the client; the transport is left as it is.
    pub fn disconnect(&mut self)
        ensures
            final(self)@ == (ClientConnectionView { connected: false, ..old(self)@ }),
    {
        self.client.disconnect();
    }

    /// Applies what one look at the transport's event channel gave.
    pub fn apply_io_poll(&mut self, next_state: &mut NextState, poll: &IoPoll)
        requires
            old(self)@.io is Some,
        ensures
            final(self)@ == listen_spec(old(self)@, *old(next_state), poll.signal()).connection,
            *final(next_state) == listen_spec(
                old(self)@,
                *old(next_state),
                poll.signal(),
            ).next_state,
    {
        let mut disconnect = false;
        match &mut self.io {
            Some(io) => {
                let transition = io_transition(io.state, poll);
                io.state = transition.io_state;
                disconnect = transition.disconnect;
            },
            None => {},
        }
        if disconnect {
            next_state.set(NetworkingState::Disconnected);
            self.client.disconnect();
        }
    }
}

/// Looks at the transport's events and brings the transport's state, the
/// client and the state asked for up to date.
///
/// A client without a transport, or whose transport reports no events, is left
/// alone. Else the event channel is polled once, and whatever the poll gave,
/// the outcome is the one that `listen_spec` gives for its signal.
pub fn listen_io_state(next_state: &mut NextState, netclient: &mut ClientConnection)
    ensures
        !old(netclient)@.listens() ==> final(netclient)@ == old(netclient)@ && *final(next_state)
            == *old(next_state),
        old(netclient)@.listens() ==> exists|signal: IoSignal|
            #![auto]
            final(netclient)@ == listen_spec(old(netclient)@, *old(next_state), signal).connection
                && *final(next_state) == listen_spec(
                old(netclient)@,
                *old(next_state),
                signal,
            ).next_state,
{
    let poll = match &netclient.io {
        Some(io) => match &io.event_receiver {
            Some(receiver) => Some(try_recv_io_event(receiver)),
            None => None,
        },
        None => None,
    };
    match poll {
        Some(poll) => {
            netclient.apply_io_poll(next_state, &poll);
            assert(final(netclient)@ == listen_spec(
                old(netclient)@,
                *old(next_state),
                poll.signal(),
            ).connection);
        },
        None => {},
    }
}

/// Whether the client is connected: there is a client, it reports the
/// connected state, and its transport is connected.
pub fn is_connected(netclient: Option<&ClientConnection>) -> (r: bool)
    ensures
        r == match netclient {
            Some(c) => c@.is_connected(),
            None => false,
        },
{
    match netclient {
        Some(c) => c.state() == NetworkingState::Connected && match c.io_state() {
            Some(state) => state == IoState::Connected,
            None => false,
        },
        None => false,
    }
}

/// Whether the client is disconnected: there is no client, or it reports the
/// disconnected state, or it has no transport, or its transport is
/// disconnected.
pub fn is_disconnected(netclient: Option<&ClientConnection>) -> (r: bool)
    ensures
        r == match netclient {
            Some(c) => c@.is_disconnected(),
            None => true,
        },
{
    match netclient {
        Some(c) => c.state() == NetworkingState::Disconnected || match c.io_state() {
            Some(state) => state == IoState::Disconnected,
            None => true,
        },
        None => true,
    }
}

/// What the receive phase does once the client has been brought up to date.
#[derive(Clone, Copy, Debug, PartialEq, Eq, Structural)]
pub struct ReceivePlan {
    /// The state to ask for, if the client's state has left the current one behind.
    pub next_state: Option<NetworkingState>,
    /// Whether the connection's managers are to be advanced.
    pub update_connection: bool,
}

/// Whether the receive phase advances the client at all: it does unless the
/// client is disconnected.
pub fn client_needs_update(client_state: NetworkingState) -> (r: bool)
    ensures
        r == (client_state != NetworkingState::Disconnected),
{
    client_state != NetworkingState::Disconnected
}

/// The plan of the receive phase for a client that reports `client_state`
/// while the state machine is in `state`.
pub open spec fn receive_plan_spec(
    client_state: NetworkingState,
    state: NetworkingState,
) -> ReceivePlan {
    ReceivePlan {
        next_state: if client_state != NetworkingState::Connecting && client_state != state {
            Some(client_state)
        } else {
            None
        },
        update_connection: client_state == NetworkingState::Connected,
    }
}

/// Decides the receive phase: a client that has just connected or just
/// disconnected moves the state machine to its own state, and the connection
/// is advanced only while the client is connected.
pub fn receive_plan(client_state: NetworkingState, state: NetworkingState) -> (r: ReceivePlan)
    ensures
        r == receive_plan_spec(client_state, state),
{
    let mut next_state: Option<NetworkingState> = None;
    let mut update_connection = false;
    if client_state == NetworkingState::Connected {
        // we just connected, do a state transition
        if state != NetworkingState::Connected {
            next_state = Some(NetworkingState::Connected);
        }
        update_connection = true;
    }
    if client_state == NetworkingState::Disconnected {
        // we just disconnected, do a state transition
        if state != NetworkingState::Disconnected {
            next_state = Some(NetworkingState::Disconnected);
        }
    }
    ReceivePlan { next_state, update_connection }
}

/// Whether the networking phases run: they do unless the process is a host
/// server or the client is disconnected.
pub fn networking_runs(mode: Mode, netclient: Option<&ClientConnection>) -> (r: bool)
    ensures
        r == (mode != Mode::HostServer && match netclient {
            Some(c) => !c@.is_disconnected(),
            None => false,
        }),
{
    !(mode == Mode::HostServer || is_disconnected(netclient))
}

/// How a client is set up.
pub struct ClientConfig {
    /// The number of the client.
    pub client_id: u64,
    pub mode: Mode,
    pub sync: SyncConfig,
    /// The channels of the protocol.
    pub channels: ChannelRegistry,
}

/// What a client keeps for its connection to the server.
pub struct ConnectionManager {
    pub connection: Connection,
    pub sync_manager: SyncManager,
    pub ping_manager: PingManager,
    pub replication: ReplicationReceiver,
    pub replication_sender: ReplicationSender,
}

/// Mathematical value of a connection manager.
pub struct ManagerView {
    pub connection: ConnectionView,
    pub sync_manager: SyncManager,
    pub ping_manager: PingManager,
    pub replication: ReplicationView,
    pub replication_sender: ReplicationSenderView,
}

impl View for ConnectionManager {
    type V = ManagerView;

    open spec fn view(&self) -> ManagerView {
        ManagerView {
            connection: self.connection@,
            sync_manager: self.sync_manager,
            ping_manager: self.ping_manager,
            replication: self.replication@,
            replication_sender: self.replication_sender@,
        }
    }
}

impl ConnectionManager {
    /// The invariant of the manager's representation.
    pub open spec fn wf(&self) -> bool {
        self.connection.wf() && self.replication@.wf()
    }
}

/// The connection manager before anything has happened: no message was sent
/// or received, no pong has arrived, the clock is not aligned, and no entity
/// is known.
pub open spec fn fresh_manager(channels: Seq<ChannelSettings>, sync: SyncConfig) -> ManagerView {
    ManagerView {
        connection: fresh_connection(channels),
        sync_manager: SyncManager { config: sync, synced: false },
        ping_manager: PingManager { rtt: 0, jitter: 0, pongs: 0, last_pong: None },
        replication: ReplicationView::fresh(),
        replication_sender: ReplicationSenderView::fresh(),
    }
}

/// Builds what a client needs for a new connection, from the configuration
/// as it stands: a connection manager on which nothing has happened, and a
/// client that is not connected, over the transport `io`.
pub fn rebuild_client_connection(config: &ClientConfig, io: Option<Io>) -> (r: (
    ConnectionManager,
    ClientConnection,
))
    requires
        config.channels.wf(),
    ensures
        r.0.wf(),
        r.0@ == fresh_manager(config.channels@, config.sync),
        r.1@ == (ClientConnectionView {
            id: config.client_id,
            connected: false,
            io: match io {
                Some(io) => Some(io@),
                None => None,
            },
        }),
{
    // a new connection manager resets sync, priority and message numbers
    let manager = ConnectionManager {
        connection: Connection::new(&config.channels),
        sync_manager: SyncManager::new(config.sync),
        ping_manager: PingManager::new(),
        replication: ReplicationReceiver::new(),
        replication_sender: ReplicationSender::new(),
    };
    let client_connection = ClientConnection::new(Client::new(config.client_id), io);
    (manager, client_connection)
}

/// Starts a connection from scratch: manager and client are built anew from
/// the configuration as it stands, so that clock alignment and message
/// numbers start over; the client is asked to connect; and in host-server
/// mode, where no networking runs that could report it, the state machine
/// moves to the connected state at once.
pub fn connect(
    manager: &mut ConnectionManager,
    netclient: &mut ClientConnection,
    next_state: &mut NextState,
    config: &ClientConfig,
    io: Option<Io>,
)
    requires
        config.channels.wf(),
    ensures
        final(manager).wf(),
        final(manager)@ == fresh_manager(config.channels@, config.sync),
        final(netclient)@ == (ClientConnectionView {
            id: config.client_id,
            connected: true,
            io: match io {
                Some(io) => Some(io@),
                None => None,
            },
        }),
        *final(next_state) == if config.mode == Mode::HostServer {
            NextState(Some(NetworkingState::Connected))
        } else {
            *old(next_state)
        },
{
    let rebuilt = rebuild_client_connection(config, io);
    *manager = rebuilt.0;
    *netclient = rebuilt.1;
    netclient.connect();
    if netclient.state() == NetworkingState::Connected && config.mode == Mode::HostServer {
        // in host server mode there is no connecting phase
        next_state.set(NetworkingState::Connected);
    }
}

/// The client has connected.
#[derive(Clone, Copy, Debug, PartialEq, Eq, Structural)]
pub struct ConnectEvent {
    pub client_id: ClientId,
}

/// The client has disconnected.
#[derive(Clone, Copy, Debug, PartialEq, Eq, Structural)]
pub struct DisconnectEvent;

/// The server's notice that a client has connected, with the entity that
/// stands for the client.
#[derive(Clone, Copy, Debug, PartialEq, Eq, Structural)]
pub struct ServerConnectEvent {
    pub client_id: ClientId,
    pub entity: u64,
}

/// The server's notice that a client has disconnected.
#[derive(Clone, Copy, Debug, PartialEq, Eq, Structural)]
pub struct ServerDisconnectEvent {
    pub client_id: ClientId,
    pub entity: u64,
}

/// What a host server remembers of its own client.
#[derive(Clone, Copy, Debug, PartialEq, Eq)]
pub struct HostServerMetadata {
    /// The entity that stands for the client running as host server.
    pub client_entity: Option<u64>,
}

/// On entering the connected state: the event that tells the application.
pub fn on_connect(netclient: &ClientConnection) -> (event: ConnectEvent)
    ensures
        event == (ConnectEvent { client_id: ClientId::Local(netclient@.id) }),
{
    ConnectEvent { client_id: netclient.id() }
}

/// On entering the connected state in host-server mode: the entity
/// `client_entity`, which the driver has spawned for the client, is
/// remembered, and the server is told of the connection.
pub fn on_connect_host_server(
    netclient: &ClientConnection,
    metadata: &mut HostServerMetadata,
    client_entity: u64,
) -> (event: ServerConnectEvent)
    ensures
        final(metadata).client_entity == Some(client_entity),
        event == (ServerConnectEvent {
            client_id: ClientId::Local(netclient@.id),
            entity: client_entity,
        }),
{
    metadata.client_entity = Some(client_entity);
    ServerConnectEvent { client_id: netclient.id(), entity: client_entity }
}

/// What is to be done on entering the disconnected state.
pub struct DisconnectOutcome {
    /// The entities that came from replication and are to be despawned.
    pub despawn: Vec<u64>,
    /// The event that tells the application.
    pub event: DisconnectEvent,
}

/// On entering the disconnected state: every entity that came from
/// replication is to be despawned, the clock counts as not aligned, and the
/// client is disconnected, once more if it was so already.
pub fn on_disconnect(
    manager: &mut ConnectionManager,
    netclient: &mut ClientConnection,
    received_entities: Vec<u64>,
) -> (r: DisconnectOutcome)
    ensures
        final(manager)@ == (ManagerView {
            sync_manager: SyncManager { synced: false, ..old(manager)@.sync_manager },
            ..old(manager)@
        }),
        final(manager).wf() == old(manager).wf(),
        final(netclient)@ == (ClientConnectionView { connected: false, ..old(netclient)@ }),
        r.despawn@ == received_entities@,
{
    manager.sync_manager.reset();
    netclient.disconnect();
    DisconnectOutcome { despawn: received_entities, event: DisconnectEvent }
}

/// On entering the disconnected state in host-server mode: the client's
/// entity is forgotten, and if there was one, the server is told of the
/// disconnection.
pub fn on_disconnect_host_server(
    netclient: &ClientConnection,
    metadata: &mut HostServerMetadata,
) -> (event: Option<ServerDisconnectEvent>)
    ensures
        final(metadata).client_entity is None,
        event == match old(metadata).client_entity {
            Some(entity) => Some(
                ServerDisconnectEvent { client_id: ClientId::Local(netclient@.id), entity },
            ),
            None => None,
        },
{
    let client_id = netclient.id();
    let taken = metadata.client_entity;
    metadata.client_entity = None;
    match taken {
        Some(entity) => Some(ServerDisconnectEvent { client_id, entity }),
        None => None,
    }
}

/// What the clock is to do after the sync manager was brought up to date.
#[derive(Clone, Copy, Debug, PartialEq, Eq)]
pub struct SyncOutcome {
    /// The jump of the tick that the application is to be told of, if there was one.
    pub tick_event: Option<TickEvent>,
    /// The pace at which the clock is to run, in percent, if it is to change.
    pub relative_speed: Option<u32>,
}

/// The outcome that stands for what the sync manager asked of the clock.
pub open spec fn outcome_of(asked: Option<ClockAdjustment>) -> SyncOutcome {
    match asked {
        Some(ClockAdjustment::Snap(event)) => SyncOutcome {
            tick_event: Some(event),
            relative_speed: Some(100),
        },
        Some(ClockAdjustment::SpeedUp(pace)) => SyncOutcome {
            tick_event: None,
            relative_speed: Some(pace),
        },
        Some(ClockAdjustment::SlowDown(pace)) => SyncOutcome {
            tick_event: None,
            relative_speed: Some(pace),
        },
        Some(ClockAdjustment::Hold) => SyncOutcome { tick_event: None, relative_speed: Some(100) },
        None => SyncOutcome { tick_event: None, relative_speed: None },
    }
}

/// Brings the sync manager up to date at the time `now`: the tick is brought
/// in line with the server, and the outcome says which event the application
/// is to be told of and at which pace the clock is to run. After a jump, and
/// where the tick is on target, the clock runs at its own pace.
pub fn sync_update(manager: &mut ConnectionManager, ticks: &mut TickManager, now: u64) -> (r:
    SyncOutcome)
    requires
        old(manager).sync_manager.config.tick_duration > 0,
    ensures
        final(manager).connection == old(manager).connection,
        final(manager).replication == old(manager).replication,
        final(manager).replication_sender == old(manager).replication_sender,
        final(manager).ping_manager == old(manager).ping_manager,
        final(manager).sync_manager.config == old(manager).sync_manager.config,
        final(manager).sync_manager.synced == (old(manager).sync_manager.synced || (old(
            manager,
        ).ping_manager.last_pong is Some && old(manager).ping_manager.pongs >= old(
            manager,
        ).sync_manager.config.pongs_needed)),
        match old(manager).ping_manager.last_pong {
            Some(pong) if final(manager).sync_manager.synced => {
                let target = prediction_target(
                    old(manager).ping_manager,
                    pong,
                    now,
                    old(manager).sync_manager.config,
                );
                let asked = adjustment_for(
                    old(ticks).current(),
                    target,
                    old(manager).sync_manager.config.snap_threshold,
                );
                &&& r == outcome_of(Some(asked))
                &&& final(ticks).current() == if asked is Snap {
                    target
                } else {
                    old(ticks).current()
                }
            },
            _ => r == outcome_of(None) && final(ticks).current() == old(ticks).current(),
        },
{
    let ping = manager.ping_manager;
    let asked = manager.sync_manager.update(ticks, &ping, now);
    match asked {
        Some(ClockAdjustment::Snap(event)) => SyncOutcome {
            tick_event: Some(event),
            relative_speed: Some(100),
        },
        Some(ClockAdjustment::SpeedUp(pace)) => SyncOutcome {
            tick_event: None,
            relative_speed: Some(pace),
        },
        Some(ClockAdjustment::SlowDown(pace)) => SyncOutcome {
            tick_event: None,
            relative_speed: Some(pace),
        },
        Some(ClockAdjustment::Hold) => SyncOutcome { tick_event: None, relative_speed: Some(100) },
        None => SyncOutcome { tick_event: None, relative_speed: None },
    }
}

/// Why nothing leaves.
#[derive(Clone, Copy, Debug, PartialEq, Eq, Structural)]
pub enum SendError {
    /// The connection failed.
    Connection(ConnectionError),
    /// A packet has no encoding.
    Encode(EncodeError),
}

/// The mathematical values of the datagrams `datagrams`.
pub open spec fn datagrams_view(datagrams: Seq<Vec<u8>>) -> Seq<Seq<u8>> {
    Seq::new(datagrams.len(), |i: int| datagrams[i]@)
}

/// The encodings of the packets `packets`.
pub open spec fn encode_all(packets: Seq<PacketView>) -> Seq<Seq<u8>> {
    Seq::new(packets.len(), |i: int| encode_packet(packets[i]))
}

/// Whether every one of the packets has an encoding.
pub open spec fn all_encodable(packets: Seq<PacketView>) -> bool {
    forall|i: int| 0 <= i < packets.len() ==> encodable_packet(#[trigger] packets[i])
}

/// The send phase: the connection makes the packets that are to leave at the
/// time `now`, and each is encoded for the transport.
pub fn send(connection: &mut Connection, now: u64, tick: Tick, resend_after: u64, budget: usize) -> (r:
    Result<Vec<Vec<u8>>, SendError>)
    requires
        old(connection).wf(),
    ensures
        final(connection).wf(),
        final(connection)@ == old(connection)@.send_packets(
            now,
            tick.0,
            resend_after,
            budget as int,
        ).state,
        match old(connection)@.send_packets(now, tick.0, resend_after, budget as int).result {
            Err(e) => r == Err::<Vec<Vec<u8>>, SendError>(SendError::Connection(e)),
            Ok(packets) => match r {
                Ok(datagrams) => all_encodable(packets) && datagrams_view(datagrams@) == encode_all(
                    packets,
                ),
                Err(e) => !all_encodable(packets) && e == SendError::Encode(EncodeError::TooLarge),
            },
        },
{
    let packets = match connection.send_packets(now, tick, resend_after, budget) {
        Ok(packets) => packets,
        Err(e) => {
            return Err(SendError::Connection(e));
        },
    };
    let ghost all = packets_view(packets@);
    let mut datagrams: Vec<Vec<u8>> = Vec::new();
    let mut i: usize = 0;
    while i < packets.len()
        invariant
            connection.wf(),
            connection@ == old(connection)@.send_packets(
                now,
                tick.0,
                resend_after,
                budget as int,
            ).state,
            old(connection)@.send_packets(now, tick.0, resend_after, budget as int).result == Ok::<
                Seq<PacketView>,
                ConnectionError,
            >(all),
            all == packets_view(packets@),
            i <= packets.len(),
            datagrams.len() == i,
            forall|k: int| 0 <= k < i ==> encodable_packet(#[trigger] all[k]),
            forall|k: int| 0 <= k < i ==> (#[trigger] datagrams[k])@ == encode_packet(all[k]),
        decreases packets.len() - i,
    {
        match encode(&packets[i]) {
            Ok(bytes) => {
                datagrams.push(bytes);
            },
            Err(_) => {
                assert(!encodable_packet(all[i as int]));
                return Err(SendError::Encode(EncodeError::TooLarge));
            },
        }
        i += 1;
    }
    proof {
        assert(datagrams_view(datagrams@) =~= encode_all(all));
    }
    Ok(datagrams)
}

/// A connection after datagrams arrived.
pub struct ReceiveStep {
    pub state: ConnectionView,
    /// How many of the datagrams were dropped.
    pub dropped: nat,
    /// Why the connection failed, if it did.
    pub failure: Option<ConnectionError>,
}

/// The connection after the datagrams `datagrams` arrived, in their order.
///
/// A datagram that is no packet is dropped, and so is a packet with a fault;
/// neither changes anything. A packet that breaks the protocol fails the
/// connection, and what arrived after it is not looked at.
pub open spec fn receive_datagrams(c: ConnectionView, datagrams: Seq<Seq<u8>>) -> ReceiveStep
    decreases datagrams.len(),
{
    if datagrams.len() == 0 {
        ReceiveStep { state: c, dropped: 0, failure: None }
    } else {
        let before = receive_datagrams(c, datagrams.drop_last());
        if before.failure is Some {
            before
        } else {
            match parse_packet(datagrams.last()) {
                None => ReceiveStep { dropped: before.dropped + 1, ..before },
                Some(p) => {
                    let step = before.state.recv_packet(p);
                    match step.result {
                        Ok(_) => ReceiveStep { state: step.state, ..before },
                        Err(e) => if e.is_fatal() {
                            ReceiveStep { state: step.state, failure: Some(e), ..before }
                        } else {
                            ReceiveStep { dropped: before.dropped + 1, ..before }
                        },
                    }
                },
            }
        }
    }
}

/// Once the connection has failed, what arrives later is not looked at.
pub proof fn lemma_receive_stops(c: ConnectionView, datagrams: Seq<Seq<u8>>, n: int)
    requires
        0 <= n <= datagrams.len(),
        receive_datagrams(c, datagrams.take(n)).failure is Some,
    ensures
        receive_datagrams(c, datagrams) == receive_datagrams(c, datagrams.take(n)),
    decreases datagrams.len(),
{
    if n == datagrams.len() {
        assert(datagrams.take(n) =~= datagrams);
    } else {
        assert(datagrams.drop_last().take(n) =~= datagrams.take(n));
        lemma_receive_stops(c, datagrams.drop_last(), n);
    }
}

/// What a batch of datagrams came to.
pub struct ReceiveReport {
    /// How many of the datagrams were dropped.
    pub dropped: usize,
    /// Why the connection failed, if it did.
    pub failure: Option<ConnectionError>,
}

/// The receive phase: every datagram that the transport has handed over is
/// decoded and given to the connection.
pub fn receive(connection: &mut Connection, datagrams: &Vec<Vec<u8>>) -> (r: ReceiveReport)
    requires
        old(connection).wf(),
    ensures
        final(connection).wf(),
        final(connection)@ == receive_datagrams(
            old(connection)@,
            datagrams_view(datagrams@),
        ).state,
        r.dropped == receive_datagrams(old(connection)@, datagrams_view(datagrams@)).dropped,
        r.failure == receive_datagrams(old(connection)@, datagrams_view(datagrams@)).failure,
{
    let ghost start = connection@;
    let ghost all = datagrams_view(datagrams@);
    let mut dropped: usize = 0;
    let mut i: usize = 0;
    proof {
        assert(all.take(0) =~= Seq::empty());
    }
    while i < datagrams.len()
        invariant
            connection.wf(),
            start == old(connection)@,
            all == datagrams_view(datagrams@),
            i <= datagrams.len(),
            dropped <= i,
            receive_datagrams(start, all.take(i as int)) == (ReceiveStep {
                state: connection@,
                dropped: dropped as nat,
                failure: None,
            }),
        decreases datagrams.len() - i,
    {
        let ghost before = connection@;
        proof {
            assert(all.take(i as int + 1).drop_last() =~= all.take(i as int));
            assert(all.take(i as int + 1).last() == all[i as int]);
            assert(all[i as int] == datagrams[i as int]@);
            connection.lemma_view_wf();
        }
        match decode(&datagrams[i]) {
            Err(_) => {
                dropped += 1;
            },
            Ok(packet) => {
                match connection.recv_packet(packet) {
                    Ok(_) => {},
                    Err(e) => {
                        if e.fails_connection() {
                            proof {
                                lemma_receive_stops(start, all, i as int + 1);
                            }
                            return ReceiveReport { dropped, failure: Some(e) };
                        }
                        proof {
                            lemma_dropped_packet_keeps_state(before, packet@);
                        }
                        dropped += 1;
                    },
                }
            },
        }
        i += 1;
    }
    proof {
        assert(all.take(i as int) =~= all);
    }
    ReceiveReport { dropped, failure: None }
}

} // verus!
