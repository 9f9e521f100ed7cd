use netsync::channel::{
    ChannelDirection, ChannelKind, ChannelMode, ChannelRegistry, ChannelSettings,
};
use netsync::client::{Client, ClientId};
use netsync::networking::{
    client_needs_update, connect, io_transition, is_connected, is_disconnected,
    listen_io_state, networking_runs, on_connect, on_connect_host_server, on_disconnect,
    on_disconnect_host_server, rebuild_client_connection, receive_plan, sync_update, ClientCommands,
    ClientConfig, ClientConnection, ClientIoEvent, ConnectEvent, HostServerMetadata, Io, IoPoll,
    IoState, IoTransition, Mode, NetworkingState, NextState, ReceivePlan, ServerConnectEvent,
    ServerDisconnectEvent,
};
use netsync::replication::{
    ActionKind, ChangeKind, EntityAction, EntityUpdate, ReplicationMessage, ReplicationReceiver,
    ReplicationSender, WorldChange, WorldCommand,
};
use netsync::sync::{
    tick_difference, ClockAdjustment, PingManager, PongSample, SyncConfig, SyncManager, TickEvent,
    TickManager,
};
use netsync::wrapping_id::{MessageId, Tick};

fn sync_config() -> SyncConfig {
    SyncConfig {
        tick_duration: 10_000,
        pongs_needed: 3,
        snap_threshold: 10,
        input_delay_ticks: 0,
        safety_margin: 1,
    }
}

fn config(mode: Mode) -> ClientConfig {
    let mut channels = ChannelRegistry::new();
    channels.add_channel(ChannelSettings {
        kind: ChannelKind(1),
        direction: ChannelDirection::Bidirectional,
        mode: ChannelMode::ReliableOrdered,
    });
    ClientConfig { client_id: 12, mode, sync: sync_config(), channels }
}

fn listening() -> (ClientConnection, async_channel::Sender<ClientIoEvent>) {
    let (sender, receiver) = async_channel::unbounded();
    let mut client = Client::new(5);
    client.connect();
    (ClientConnection::new(client, Some(Io::new(Some(receiver)))), sender)
}

#[test]
fn local_client_is_connected_when_asked() {
    let mut client = Client::new(3);
    assert_eq!(client.state(), NetworkingState::Disconnected);
    assert_eq!(client.id(), ClientId::Local(3));
    client.connect();
    assert_eq!(client.state(), NetworkingState::Connected);
    client.disconnect();
    assert_eq!(client.state(), NetworkingState::Disconnected);
    assert_eq!(Client::default().id(), ClientId::Local(0));
    assert_eq!(NetworkingState::default(), NetworkingState::Disconnected);
}

#[test]
fn commands_ask_for_a_state() {
    let mut next = NextState(None);
    next.connect_client();
    assert_eq!(next, NextState(Some(NetworkingState::Connecting)));
    next.disconnect_client();
    assert_eq!(next, NextState(Some(NetworkingState::Disconnected)));
    next.set(NetworkingState::Connected);
    assert_eq!(next.0, Some(NetworkingState::Connected));
}

#[test]
fn io_transition_follows_the_poll() {
    let connected = IoPoll::Event(ClientIoEvent::Connected);
    let gone = IoPoll::Event(ClientIoEvent::Disconnected(String::from("reset")));
    assert_eq!(
        io_transition(IoState::Connecting, &connected),
        IoTransition { io_state: IoState::Connected, disconnect: false }
    );
    assert_eq!(
        io_transition(IoState::Connected, &gone),
        IoTransition { io_state: IoState::Disconnected, disconnect: true }
    );
    assert_eq!(
        io_transition(IoState::Connecting, &IoPoll::Empty),
        IoTransition { io_state: IoState::Connecting, disconnect: false }
    );
    assert_eq!(
        io_transition(IoState::Connected, &IoPoll::Closed),
        IoTransition { io_state: IoState::Connected, disconnect: true }
    );
}

#[test]
fn listening_takes_the_event_from_the_channel() {
    let (mut netclient, sender) = listening();
    let mut next = NextState(None);
    // nothing waits: nothing changes
    listen_io_state(&mut next, &mut netclient);
    assert_eq!(netclient.io_state(), Some(IoState::Connecting));
    assert_eq!(next, NextState(None));
    assert!(!is_connected(Some(&netclient)));
    sender.try_send(ClientIoEvent::Connected).unwrap();
    listen_io_state(&mut next, &mut netclient);
    assert_eq!(netclient.io_state(), Some(IoState::Connected));
    assert_eq!(netclient.state(), NetworkingState::Connected);
    assert!(is_connected(Some(&netclient)));
    assert_eq!(next, NextState(None));
    sender.try_send(ClientIoEvent::Disconnected(String::from("lost"))).unwrap();
    listen_io_state(&mut next, &mut netclient);
    assert_eq!(netclient.io_state(), Some(IoState::Disconnected));
    assert_eq!(netclient.state(), NetworkingState::Disconnected);
    assert_eq!(next, NextState(Some(NetworkingState::Disconnected)));
    assert!(is_disconnected(Some(&netclient)));
}

#[test]
fn listening_to_a_closed_channel_disconnects() {
    let (mut netclient, sender) = listening();
    drop(sender);
    let mut next = NextState(None);
    listen_io_state(&mut next, &mut netclient);
    assert_eq!(netclient.io_state(), Some(IoState::Connecting));
    assert_eq!(netclient.state(), NetworkingState::Disconnected);
    assert_eq!(next, NextState(Some(NetworkingState::Disconnected)));
}

#[test]
fn a_client_that_does_not_listen_is_left_alone() {
    let mut connected = Client::new(1);
    connected.connect();
    let mut next = NextState(Some(NetworkingState::Connecting));
    let mut without_io = ClientConnection::new(connected, None);
    listen_io_state(&mut next, &mut without_io);
    assert_eq!(without_io.state(), NetworkingState::Connected);
    let mut silent = ClientConnection::new(connected, Some(Io::new(None)));
    listen_io_state(&mut next, &mut silent);
    assert_eq!(silent.io_state(), Some(IoState::Connecting));
    assert_eq!(next, NextState(Some(NetworkingState::Connecting)));
}

#[test]
fn connected_and_disconnected_go_by_client_and_transport() {
    assert!(!is_connected(None));
    assert!(is_disconnected(None));
    let mut client = Client::new(1);
    client.connect();
    // without a transport the client counts as disconnected
    let lonely = ClientConnection::new(client, None);
    assert!(!is_connected(Some(&lonely)));
    assert!(is_disconnected(Some(&lonely)));
    // while the transport connects it is neither
    let connecting = ClientConnection::new(client, Some(Io::new(None)));
    assert!(!is_connected(Some(&connecting)));
    assert!(!is_disconnected(Some(&connecting)));
    assert!(networking_runs(Mode::Client, Some(&connecting)));
    assert!(!networking_runs(Mode::HostServer, Some(&connecting)));
    assert!(!networking_runs(Mode::Client, Some(&lonely)));
    assert!(!networking_runs(Mode::Client, None));
}

#[test]
fn receive_phase_follows_the_client() {
    let connected = NetworkingState::Connected;
    let connecting = NetworkingState::Connecting;
    let disconnected = NetworkingState::Disconnected;
    assert!(client_needs_update(connecting));
    assert!(client_needs_update(connected));
    assert!(!client_needs_update(disconnected));
    assert_eq!(
        receive_plan(connected, connecting),
        ReceivePlan { next_state: Some(connected), update_connection: true }
    );
    assert_eq!(
        receive_plan(connected, connected),
        ReceivePlan { next_state: None, update_connection: true }
    );
    assert_eq!(
        receive_plan(disconnected, connected),
        ReceivePlan { next_state: Some(disconnected), update_connection: false }
    );
    assert_eq!(
        receive_plan(disconnected, disconnected),
        ReceivePlan { next_state: None, update_connection: false }
    );
    assert_eq!(
        receive_plan(connecting, disconnected),
        ReceivePlan { next_state: None, update_connection: false }
    );
}

#[test]
fn connecting_moves_a_host_server_to_connected_at_once() {
    let plain = config(Mode::Client);
    let (mut manager, mut netclient) = rebuild_client_connection(&plain, None);
    let mut next = NextState(Some(NetworkingState::Connecting));
    connect(&mut manager, &mut netclient, &mut next, &plain, None);
    assert_eq!(netclient.state(), NetworkingState::Connected);
    assert_eq!(next, NextState(Some(NetworkingState::Connecting)));
    let host = config(Mode::HostServer);
    connect(&mut manager, &mut netclient, &mut next, &host, None);
    assert_eq!(next, NextState(Some(NetworkingState::Connected)));
}

#[test]
fn connecting_rebuilds_the_connection() {
    let config = config(Mode::Client);
    let (mut manager, mut netclient) = rebuild_client_connection(&config, None);
    assert_eq!(netclient.state(), NetworkingState::Disconnected);
    assert_eq!(netclient.id(), ClientId::Local(12));
    manager.ping_manager.process_pong(100, 0, Tick(3));
    manager.sync_manager.synced = true;
    manager
        .connection
        .buffer_send(netsync::message::MessageContainer::new(vec![1]), ChannelKind(1))
        .unwrap();
    let mut next = NextState(None);
    connect(&mut manager, &mut netclient, &mut next, &config, None);
    assert_eq!(netclient.state(), NetworkingState::Connected);
    assert!(!manager.sync_manager.is_synced());
    assert_eq!(manager.ping_manager, PingManager::new());
    // the message that was queued on the old connection is gone
    assert_eq!(manager.connection.send_packets(0, Tick(0), 100, 1000).unwrap().len(), 0);
    assert_eq!(next, NextState(None));
}

#[test]
fn events_of_connecting_and_disconnecting() {
    let config = config(Mode::HostServer);
    let (mut manager, mut netclient) = rebuild_client_connection(&config, None);
    netclient.connect();
    assert_eq!(on_connect(&netclient), ConnectEvent { client_id: ClientId::Local(12) });
    let mut metadata = HostServerMetadata { client_entity: None };
    assert_eq!(
        on_connect_host_server(&netclient, &mut metadata, 77),
        ServerConnectEvent { client_id: ClientId::Local(12), entity: 77 }
    );
    assert_eq!(metadata.client_entity, Some(77));
    manager.sync_manager.synced = true;
    let outcome = on_disconnect(&mut manager, &mut netclient, vec![4, 5, 6]);
    assert_eq!(outcome.despawn, vec![4, 5, 6]);
    assert!(!manager.sync_manager.is_synced());
    assert_eq!(netclient.state(), NetworkingState::Disconnected);
    assert_eq!(
        on_disconnect_host_server(&netclient, &mut metadata),
        Some(ServerDisconnectEvent { client_id: ClientId::Local(12), entity: 77 })
    );
    assert_eq!(metadata.client_entity, None);
    assert_eq!(on_disconnect_host_server(&netclient, &mut metadata), None);
}

#[test]
fn ticks_wrap_and_differ_the_short_way_round() {
    let mut ticks = TickManager::new(Tick(65535));
    ticks.increment_tick();
    assert_eq!(ticks.tick(), Tick(0));
    assert_eq!(
        ticks.set_tick_to(Tick(504)),
        TickEvent::Snap { old_tick: Tick(0), new_tick: Tick(504) }
    );
    assert_eq!(ticks.tick(), Tick(504));
    assert_eq!(tick_difference(Tick(10), Tick(15)), 5);
    assert_eq!(tick_difference(Tick(15), Tick(10)), -5);
    assert_eq!(tick_difference(Tick(65530), Tick(4)), 10);
    assert_eq!(tick_difference(Tick(0), Tick(32767)), 32767);
    assert_eq!(tick_difference(Tick(0), Tick(32768)), -32768);
}

#[test]
fn round_trip_estimate_is_a_moving_average() {
    let mut ping = PingManager::new();
    ping.process_pong(1_000, 200, Tick(1));
    assert_eq!((ping.rtt, ping.jitter, ping.pongs), (800, 0, 1));
    ping.process_pong(3_000, 1_400, Tick(2));
    // rtt: (7 * 800 + 1600) / 8, jitter: (3 * 0 + 800) / 4
    assert_eq!((ping.rtt, ping.jitter, ping.pongs), (900, 200, 2));
    ping.process_pong(5_000, 4_500, Tick(3));
    // rtt: (7 * 900 + 500) / 8, jitter: (3 * 200 + 400) / 4
    assert_eq!((ping.rtt, ping.jitter), (850, 250));
    assert_eq!(ping.last_pong, Some(PongSample { server_tick: Tick(3), received_at: 5_000 }));
    assert_eq!(ping.resend_after(), 850 + 425 + 250);
    // a pong from the future counts as no round trip at all
    ping.process_pong(100, 200, Tick(4));
    assert_eq!(ping.rtt, 743);
}

#[test]
fn sync_snaps_when_far_off_and_adjusts_when_near() {
    let mut sync = SyncManager::new(sync_config());
    let mut ticks = TickManager::new(Tick(0));
    let mut ping = PingManager::new();
    assert_eq!(sync.update(&mut ticks, &ping, 0), None);
    // three pongs with a round trip of four ticks and no jitter
    for n in 0..3u64 {
        ping.process_pong(40_000 + n, n, Tick(500));
        if n < 2 {
            assert_eq!(sync.update(&mut ticks, &ping, 40_000 + n), None);
            assert!(!sync.is_synced());
        }
    }
    // the pong carried tick 500; half a round trip is two ticks, the margin one
    let pong = ping.last_pong.unwrap();
    assert_eq!(sync.target(&ping, pong, 40_002), Tick(503));
    let asked = sync.update(&mut ticks, &ping, 40_002);
    assert!(sync.is_synced());
    assert_eq!(
        asked,
        Some(ClockAdjustment::Snap(TickEvent::Snap { old_tick: Tick(0), new_tick: Tick(503) }))
    );
    assert_eq!(ticks.tick(), Tick(503));
    // on target: the clock holds its pace
    assert_eq!(sync.update(&mut ticks, &ping, 40_002), Some(ClockAdjustment::Hold));
    // three ticks later by the server's clock the client is behind: it speeds up
    assert_eq!(sync.update(&mut ticks, &ping, 70_002), Some(ClockAdjustment::SpeedUp(105)));
    assert_eq!(ticks.tick(), Tick(503));
    // ahead of the target it slows down
    ticks.set_tick_to(Tick(510));
    assert_eq!(sync.update(&mut ticks, &ping, 70_002), Some(ClockAdjustment::SlowDown(95)));
    // ten ticks off is still within the threshold, eleven is not
    ticks.set_tick_to(Tick(516));
    assert_eq!(sync.update(&mut ticks, &ping, 70_002), Some(ClockAdjustment::SlowDown(95)));
    ticks.set_tick_to(Tick(517));
    assert_eq!(
        sync.update(&mut ticks, &ping, 70_002),
        Some(ClockAdjustment::Snap(TickEvent::Snap { old_tick: Tick(517), new_tick: Tick(506) }))
    );
}

#[test]
fn sync_target_counts_jitter_and_input_delay() {
    let config = SyncConfig { input_delay_ticks: 2, safety_margin: 1, ..sync_config() };
    let sync = SyncManager::new(config);
    let ping = PingManager { rtt: 40_000, jitter: 1, pongs: 5, last_pong: None };
    let pong = PongSample { server_tick: Tick(65_530), received_at: 1_000 };
    // elapsed: 2 ticks; lead: ceil(20_001 / 10_000) + 2 + 1 = 6
    assert_eq!(sync.target(&ping, pong, 21_000), Tick(2));
}

#[test]
fn sync_update_reports_event_and_pace() {
    let config = config(Mode::Client);
    let (mut manager, _netclient) = rebuild_client_connection(&config, None);
    let mut ticks = TickManager::new(Tick(0));
    let first = sync_update(&mut manager, &mut ticks, 0);
    assert_eq!((first.tick_event, first.relative_speed), (None, None));
    for n in 0..3u64 {
        manager.ping_manager.process_pong(40_000 + n, n, Tick(500));
    }
    let snapped = sync_update(&mut manager, &mut ticks, 40_002);
    assert_eq!(
        snapped.tick_event,
        Some(TickEvent::Snap { old_tick: Tick(0), new_tick: Tick(503) })
    );
    assert_eq!(snapped.relative_speed, Some(100));
    let behind = sync_update(&mut manager, &mut ticks, 60_002);
    assert_eq!((behind.tick_event, behind.relative_speed), (None, Some(105)));
}

fn spawn(sequence: u16, entity: u64) -> EntityAction {
    EntityAction {
        group: 1,
        sequence: MessageId(sequence),
        entity,
        kind: ActionKind::Spawn,
        component: 0,
        bytes: Vec::new(),
    }
}

fn update(last_action: Option<u16>, entity: u64, value: u8) -> EntityUpdate {
    EntityUpdate {
        group: 1,
        last_action: last_action.map(MessageId),
        tick: Tick(40),
        entity,
        component: 3,
        bytes: vec![value],
    }
}

#[test]
fn an_update_that_overtakes_its_spawn_waits_for_it() {
    let mut receiver = ReplicationReceiver::new();
    assert_eq!(receiver.receive_update(update(Some(0), 100, 10)), Vec::new());
    assert_eq!(receiver.pending_len(), 1);
    assert_eq!(receiver.local_entity(100), None);
    let commands = receiver.receive_action(spawn(0, 100));
    assert_eq!(
        commands,
        vec![
            WorldCommand::Spawn { entity: 0 },
            WorldCommand::UpdateComponent { entity: 0, component: 3, tick: Tick(40), bytes: vec![10] },
        ]
    );
    assert_eq!(receiver.pending_len(), 0);
    assert_eq!(receiver.local_entity(100), Some(0));
    // later updates pass at once
    assert_eq!(
        receiver.receive_update(update(Some(0), 100, 11)),
        vec![WorldCommand::UpdateComponent {
            entity: 0,
            component: 3,
            tick: Tick(40),
            bytes: vec![11]
        }]
    );
}

#[test]
fn actions_change_what_exists() {
    let mut receiver = ReplicationReceiver::new();
    assert_eq!(receiver.receive_action(spawn(0, 100)), vec![WorldCommand::Spawn { entity: 0 }]);
    assert_eq!(receiver.receive_action(spawn(1, 200)), vec![WorldCommand::Spawn { entity: 1 }]);
    // the same action once more is no news
    assert_eq!(receiver.receive_action(spawn(1, 300)), Vec::new());
    assert_eq!(receiver.local_entity(300), None);
    let insert = EntityAction {
        kind: ActionKind::InsertComponent,
        component: 8,
        bytes: vec![1, 2],
        ..spawn(2, 200)
    };
    assert_eq!(
        receiver.receive_action(insert),
        vec![WorldCommand::InsertComponent { entity: 1, component: 8, bytes: vec![1, 2] }]
    );
    let remove = EntityAction { kind: ActionKind::RemoveComponent, component: 8, ..spawn(3, 200) };
    assert_eq!(
        receiver.receive_action(remove),
        vec![WorldCommand::RemoveComponent { entity: 1, component: 8 }]
    );
    let despawn = EntityAction { kind: ActionKind::Despawn, ..spawn(4, 100) };
    assert_eq!(receiver.receive_action(despawn), vec![WorldCommand::Despawn { entity: 0 }]);
    assert_eq!(receiver.local_entity(100), None);
    // nothing is done to an entity that does not exist
    assert_eq!(receiver.receive_update(update(None, 100, 1)), Vec::new());
    let late = EntityAction { kind: ActionKind::InsertComponent, ..spawn(5, 100) };
    assert_eq!(receiver.receive_action(late), Vec::new());
}

#[test]
fn too_many_waiting_updates_are_dropped() {
    let mut receiver = ReplicationReceiver::new();
    for n in 0..70u8 {
        assert_eq!(receiver.receive_update(update(Some(0), 100, n)), Vec::new());
    }
    assert_eq!(receiver.pending_len(), 64);
    let commands = receiver.receive_action(spawn(0, 100));
    assert_eq!(commands.len(), 65);
    assert_eq!(
        commands[64],
        WorldCommand::UpdateComponent { entity: 0, component: 3, tick: Tick(40), bytes: vec![63] }
    );
}

#[test]
fn pings_leave_on_their_interval() {
    let mut schedule = netsync::sync::PingSchedule::new(100);
    assert_eq!(schedule.maybe_ping(5), Some(netsync::sync::Ping { id: 0, sent_at: 5 }));
    assert_eq!(schedule.maybe_ping(104), None);
    assert_eq!(schedule.maybe_ping(105), Some(netsync::sync::Ping { id: 1, sent_at: 105 }));
    // a clock that runs backward sends nothing
    assert_eq!(schedule.maybe_ping(50), None);
    schedule.next_id = 65535;
    assert_eq!(schedule.maybe_ping(300), Some(netsync::sync::Ping { id: 65535, sent_at: 300 }));
    assert_eq!(schedule.next_id, 0);
}

#[test]
fn connection_is_lost_after_the_timeout() {
    assert!(!netsync::sync::connection_lost(1_000, 3_999, 3_000));
    assert!(netsync::sync::connection_lost(1_000, 4_000, 3_000));
    assert!(!netsync::sync::connection_lost(1_000, 500, 3_000));
}

#[test]
fn interpolation_runs_behind_the_server() {
    let ping = PingManager { rtt: 0, jitter: 2_500, pongs: 1, last_pong: None };
    let pong = PongSample { server_tick: Tick(500), received_at: 0 };
    // 30 ticks have passed; the delay is 2 ticks and the 3 that cover 4 jitters
    assert_eq!(netsync::sync::interpolation_tick(&ping, pong, 300_000, 2, 4, 10_000), Tick(527));
    // without jitter only the least delay is left
    let calm = PingManager { jitter: 0, ..ping };
    assert_eq!(netsync::sync::interpolation_tick(&calm, pong, 0, 2, 4, 10_000), Tick(498));
    // behind tick 1 the ticks wrap
    let early = PongSample { server_tick: Tick(1), received_at: 0 };
    assert_eq!(netsync::sync::interpolation_tick(&calm, early, 0, 2, 4, 10_000), Tick(65535));
}

fn change(kind: ChangeKind, entity: u64, value: u8) -> WorldChange {
    WorldChange { kind, group: 1, entity, component: 3, bytes: vec![value] }
}

#[test]
fn sender_numbers_actions_and_tags_updates() {
    let mut sender = ReplicationSender::new();
    // nothing is said of an entity that the peer has not been told to spawn
    assert_eq!(sender.prepare(change(ChangeKind::ComponentChanged, 100, 1), Tick(7)), None);
    assert_eq!(sender.prepare(change(ChangeKind::Despawned, 100, 0), Tick(7)), None);
    let messages = sender.buffer_replication_messages(
        Tick(40),
        vec![
            change(ChangeKind::Spawned, 100, 0),
            change(ChangeKind::Spawned, 100, 0),
            change(ChangeKind::ComponentInserted, 100, 5),
            change(ChangeKind::ComponentChanged, 100, 10),
            change(ChangeKind::ComponentRemoved, 100, 0),
            change(ChangeKind::Despawned, 100, 0),
            change(ChangeKind::ComponentChanged, 100, 11),
        ],
    );
    assert!(!sender.has_spawned(100));
    assert_eq!(messages.len(), 5);
    let kinds: Vec<(u16, ActionKind)> = messages
        .iter()
        .filter_map(|m| match m {
            ReplicationMessage::Action(a) => Some((a.sequence.0, a.kind)),
            ReplicationMessage::Update(_) => None,
        })
        .collect();
    assert_eq!(
        kinds,
        vec![
            (0, ActionKind::Spawn),
            (1, ActionKind::InsertComponent),
            (2, ActionKind::RemoveComponent),
            (3, ActionKind::Despawn),
        ]
    );
    assert_eq!(
        messages[2],
        ReplicationMessage::Update(EntityUpdate {
            group: 1,
            last_action: Some(MessageId(1)),
            tick: Tick(40),
            entity: 100,
            component: 3,
            bytes: vec![10],
        })
    );
}

#[test]
fn what_the_sender_says_the_receiver_carries_out() {
    let mut sender = ReplicationSender::new();
    let mut receiver = ReplicationReceiver::new();
    let messages = sender.buffer_replication_messages(
        Tick(3),
        vec![
            change(ChangeKind::Spawned, 100, 0),
            change(ChangeKind::ComponentChanged, 100, 10),
        ],
    );
    // the update overtakes the spawn on its way
    let mut commands = Vec::new();
    for message in messages.into_iter().rev() {
        match message {
            ReplicationMessage::Action(action) => commands.extend(receiver.receive_action(action)),
            ReplicationMessage::Update(update) => commands.extend(receiver.receive_update(update)),
        }
    }
    assert_eq!(
        commands,
        vec![
            WorldCommand::Spawn { entity: 0 },
            WorldCommand::UpdateComponent { entity: 0, component: 3, tick: Tick(3), bytes: vec![10] },
        ]
    );
}
