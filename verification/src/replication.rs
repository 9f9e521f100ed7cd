//! The receiving side of replication.
//!
//! The sender tells the receiver of its entities in two kinds of messages.
//! Actions change what exists: they spawn and despawn entities and add and
//! remove components; they travel on a reliable ordered channel, numbered per
//! replication group. Updates change component values; they travel on an
//! unreliable channel and name the last action of their group that the sender
//! had sent before them. The receiver applies an update only once that action
//! has been applied, and only to an entity that has been spawned.
//!
//! The receiver does not touch the world. It keeps the table from the
//! sender's entities to its own and hands out, for every message, the
//! commands that the world is to carry out.

use std::collections::{HashMap, HashSet};
use vstd::prelude::*;
use crate::wrapping_id::{wrapping_add_spec, wrapping_lt, MessageId, Tick};

verus! {

/// Largest number of updates that may wait for their action at once.
pub const MAX_PENDING_UPDATES: usize = 64;

/// What an action does.
#[derive(Clone, Copy, Debug, PartialEq, Eq, Structural)]
pub enum ActionKind {
    Spawn,
    Despawn,
    InsertComponent,
    RemoveComponent,
}

/// A change to what exists on the sender.
#[derive(Clone, Debug, PartialEq, Eq)]
pub struct EntityAction {
    /// The replication group of the entity.
    pub group: u64,
    /// The number of the action within its group.
    pub sequence: MessageId,
    /// The entity, as the sender names it.
    pub entity: u64,
    pub kind: ActionKind,
    /// The component that is added or removed; of no account otherwise.
    pub component: u16,
    /// The value of the component that is added; of no account otherwise.
    pub bytes: Vec<u8>,
}

/// A change to the value of a component on the sender.
#[derive(Clone, Debug, PartialEq, Eq)]
pub struct EntityUpdate {
    /// The replication group of the entity.
    pub group: u64,
    /// The last action of the group that was sent before the update, if any.
    pub last_action: Option<MessageId>,
    /// The sender's tick when the value was taken.
    pub tick: Tick,
    /// The entity, as the sender names it.
    pub entity: u64,
    pub component: u16,
    pub bytes: Vec<u8>,
}

/// What the world is to carry out. Entities are named as the receiver names them.
#[derive(Clone, Debug, PartialEq, Eq)]
pub enum WorldCommand {
    Spawn { entity: u64 },
    Despawn { entity: u64 },
    InsertComponent { entity: u64, component: u16, bytes: Vec<u8> },
    RemoveComponent { entity: u64, component: u16 },
    UpdateComponent { entity: u64, component: u16, tick: Tick, bytes: Vec<u8> },
}

/// Mathematical value of an action.
pub struct ActionView {
    pub group: u64,
    pub sequence: u16,
    pub entity: u64,
    pub kind: ActionKind,
    pub component: u16,
    pub bytes: Seq<u8>,
}

/// Mathematical value of an update.
pub struct UpdateView {
    pub group: u64,
    pub last_action: Option<u16>,
    pub tick: u16,
    pub entity: u64,
    pub component: u16,
    pub bytes: Seq<u8>,
}

/// Mathematical value of a command.
pub enum CommandView {
    Spawn { entity: u64 },
    Despawn { entity: u64 },
    InsertComponent { entity: u64, component: u16, bytes: Seq<u8> },
    RemoveComponent { entity: u64, component: u16 },
    UpdateComponent { entity: u64, component: u16, tick: u16, bytes: Seq<u8> },
}

impl View for EntityAction {
    type V = ActionView;

    open spec fn view(&self) -> ActionView {
        ActionView {
            group: self.group,
            sequence: self.sequence.0,
            entity: self.entity,
            kind: self.kind,
            component: self.component,
            bytes: self.bytes@,
        }
    }
}

impl View for EntityUpdate {
    type V = UpdateView;

    open spec fn view(&self) -> UpdateView {
        UpdateView {
            group: self.group,
            last_action: match self.last_action {
                Some(id) => Some(id.0),
                None => None,
            },
            tick: self.tick.0,
            entity: self.entity,
            component: self.component,
            bytes: self.bytes@,
        }
    }
}

impl View for WorldCommand {
    type V = CommandView;

    open spec fn view(&self) -> CommandView {
        match self {
            WorldCommand::Spawn { entity } => CommandView::Spawn { entity: *entity },
            WorldCommand::Despawn { entity } => CommandView::Despawn { entity: *entity },
            WorldCommand::InsertComponent { entity, component, bytes } => CommandView::InsertComponent {
                entity: *entity,
                component: *component,
                bytes: bytes@,
            },
            WorldCommand::RemoveComponent { entity, component } => CommandView::RemoveComponent {
                entity: *entity,
                component: *component,
            },
            WorldCommand::UpdateComponent { entity, component, tick, bytes } => CommandView::UpdateComponent {
                entity: *entity,
                component: *component,
                tick: tick.0,
                bytes: bytes@,
            },
        }
    }
}

/// The mathematical values of the commands `commands`.
pub open spec fn commands_view(commands: Seq<WorldCommand>) -> Seq<CommandView> {
    Seq::new(commands.len(), |i: int| commands[i]@)
}

/// Mathematical value of a replication receiver.
pub struct ReplicationView {
    /// The receiver's entity for each of the sender's entities that exist.
    pub entities: Map<u64, u64>,
    /// For each group, the number of the last action that was applied.
    pub applied: Map<u64, u16>,
    /// The updates that wait for their action, oldest first.
    pub pending: Seq<UpdateView>,
    /// The name that the next spawned entity gets.
    pub next_local: u64,
}

/// A receiver after a message, and the commands that the message causes.
pub struct ReplicationStep {
    pub state: ReplicationView,
    pub commands: Seq<CommandView>,
}

/// The waiting updates after a release, and the commands of those that left.
pub struct Release {
    pub kept: Seq<UpdateView>,
    pub commands: Seq<CommandView>,
}

impl ReplicationView {
    /// A receiver that knows no entity and no group.
    pub open spec fn fresh() -> ReplicationView {
        ReplicationView {
            entities: Map::empty(),
            applied: Map::empty(),
            pending: Seq::empty(),
            next_local: 0,
        }
    }

    /// What holds of a receiver at any time: no more updates wait than may.
    pub open spec fn wf(self) -> bool {
        &&& self.pending.len() <= MAX_PENDING_UPDATES
        &&& self.entities.dom().finite()
        &&& self.applied.dom().finite()
    }

    /// Whether the action that the update `u` names has been applied.
    pub open spec fn is_ready(self, u: UpdateView) -> bool {
        match u.last_action {
            None => true,
            Some(named) => self.applied.contains_key(u.group) && !wrapping_lt(
                self.applied[u.group],
                named,
            ),
        }
    }

    /// The commands of the update `u`: one where its entity exists, none
    /// where it does not.
    pub open spec fn update_commands(self, u: UpdateView) -> Seq<CommandView> {
        if self.entities.contains_key(u.entity) {
            seq![
                CommandView::UpdateComponent {
                    entity: self.entities[u.entity],
                    component: u.component,
                    tick: u.tick,
                    bytes: u.bytes,
                },
            ]
        } else {
            Seq::empty()
        }
    }

    /// The receiver after the update `u` arrives. An update whose action has
    /// been applied is applied at once, if its entity exists. Any other waits,
    /// or is dropped where too many wait already.
    pub open spec fn receive_update(self, u: UpdateView) -> ReplicationStep {
        if self.is_ready(u) {
            ReplicationStep { state: self, commands: self.update_commands(u) }
        } else if self.pending.len() < MAX_PENDING_UPDATES {
            ReplicationStep {
                state: ReplicationView { pending: self.pending.push(u), ..self },
                commands: Seq::empty(),
            }
        } else {
            ReplicationStep { state: self, commands: Seq::empty() }
        }
    }

    /// Of the waiting updates `pending`, those that still wait, and the
    /// commands of those whose action has been applied, oldest first.
    pub open spec fn release(self, pending: Seq<UpdateView>) -> Release
        decreases pending.len(),
    {
        if pending.len() == 0 {
            Release { kept: Seq::empty(), commands: Seq::empty() }
        } else {
            let before = self.release(pending.drop_last());
            if self.is_ready(pending.last()) {
                Release {
                    kept: before.kept,
                    commands: before.commands + self.update_commands(pending.last()),
                }
            } else {
                Release { kept: before.kept.push(pending.last()), commands: before.commands }
            }
        }
    }

    /// Whether the action `a` is news to its group: its number is newer than
    /// that of the last action applied there.
    pub open spec fn is_new(self, a: ActionView) -> bool {
        !self.applied.contains_key(a.group) || wrapping_lt(self.applied[a.group], a.sequence)
    }

    /// The receiver after the action `a` itself, before the waiting updates
    /// are looked at: a spawn gives the entity a name of the receiver's own,
    /// a despawn takes it away, and a component is added or removed only
    /// where the entity exists.
    pub open spec fn apply(self, a: ActionView) -> ReplicationStep {
        let marked = self.applied.insert(a.group, a.sequence);
        match a.kind {
            ActionKind::Spawn => if self.entities.contains_key(a.entity) || self.next_local
                == u64::MAX {
                ReplicationStep {
                    state: ReplicationView { applied: marked, ..self },
                    commands: Seq::empty(),
                }
            } else {
                ReplicationStep {
                    state: ReplicationView {
                        entities: self.entities.insert(a.entity, self.next_local),
                        applied: marked,
                        next_local: (self.next_local + 1) as u64,
                        ..self
                    },
                    commands: seq![CommandView::Spawn { entity: self.next_local }],
                }
            },
            ActionKind::Despawn => if self.entities.contains_key(a.entity) {
                ReplicationStep {
                    state: ReplicationView {
                        entities: self.entities.remove(a.entity),
                        applied: marked,
                        ..self
                    },
                    commands: seq![CommandView::Despawn { entity: self.entities[a.entity] }],
                }
            } else {
                ReplicationStep {
                    state: ReplicationView { applied: marked, ..self },
                    commands: Seq::empty(),
                }
            },
            ActionKind::InsertComponent => ReplicationStep {
                state: ReplicationView { applied: marked, ..self },
                commands: if self.entities.contains_key(a.entity) {
                    seq![
                        CommandView::InsertComponent {
                            entity: self.entities[a.entity],
                            component: a.component,
                            bytes: a.bytes,
                        },
                    ]
                } else {
                    Seq::empty()
                },
            },
            ActionKind::RemoveComponent => ReplicationStep {
                state: ReplicationView { applied: marked, ..self },
                commands: if self.entities.contains_key(a.entity) {
                    seq![
                        CommandView::RemoveComponent {
                            entity: self.entities[a.entity],
                            component: a.component,
                        },
                    ]
                } else {
                    Seq::empty()
                },
            },
        }
    }

    /// The receiver after the action `a` arrives. An action that is no news
    /// to its group changes nothing. Any other is applied, and then the
    /// waiting updates whose action has been applied by now are applied too.
    pub open spec fn receive_action(self, a: ActionView) -> ReplicationStep {
        if !self.is_new(a) {
            ReplicationStep { state: self, commands: Seq::empty() }
        } else {
            let applied = self.apply(a);
            let released = applied.state.release(self.pending);
            ReplicationStep {
                state: ReplicationView { pending: released.kept, ..applied.state },
                commands: applied.commands + released.commands,
            }
        }
    }
}

/// One thing that arrives at a receiver: an action or an update.
pub enum ReplicationEvent {
    Action(ActionView),
    Update(UpdateView),
}

/// A receiver after a run of messages, and all the commands that it handed out.
pub struct ReplicationTrace {
    pub state: ReplicationView,
    pub commands: Seq<CommandView>,
}

impl ReplicationView {
    /// The receiver after the message `event`, and the commands of the message.
    pub open spec fn step(self, event: ReplicationEvent) -> ReplicationStep {
        match event {
            ReplicationEvent::Action(a) => self.receive_action(a),
            ReplicationEvent::Update(u) => self.receive_update(u),
        }
    }

    /// The receiver after the messages `events`, in their order, and the
    /// commands that it handed out on the way.
    pub open spec fn run(self, events: Seq<ReplicationEvent>) -> ReplicationTrace
        decreases events.len(),
    {
        if events.len() == 0 {
            ReplicationTrace { state: self, commands: Seq::empty() }
        } else {
            let before = self.run(events.drop_last());
            let step = before.state.step(events.last());
            ReplicationTrace { state: step.state, commands: before.commands + step.commands }
        }
    }
}

/// The entity that a command speaks of.
pub open spec fn entity_of(c: CommandView) -> u64 {
    match c {
        CommandView::Spawn { entity } => entity,
        CommandView::Despawn { entity } => entity,
        CommandView::InsertComponent { entity, .. } => entity,
        CommandView::RemoveComponent { entity, .. } => entity,
        CommandView::UpdateComponent { entity, .. } => entity,
    }
}

/// Whether the commands `commands` spawn the entity `entity`.
pub open spec fn spawns(commands: Seq<CommandView>, entity: u64) -> bool {
    exists|i: int| 0 <= i < commands.len() && #[trigger] commands[i] == (CommandView::Spawn { entity })
}

/// Whether every command that is no spawn speaks of an entity that an
/// earlier command has spawned.
pub open spec fn spawn_comes_first(commands: Seq<CommandView>) -> bool {
    forall|j: int|
        0 <= j < commands.len() ==> (#[trigger] commands[j]) is Spawn || spawns(
            commands.take(j),
            entity_of(commands[j]),
        )
}

/// Whether every entity that the receiver knows has been spawned by `commands`.
pub open spec fn known_are_spawned(s: ReplicationView, commands: Seq<CommandView>) -> bool {
    forall|e: u64| #[trigger] s.entities.contains_key(e) ==> spawns(commands, s.entities[e])
}

/// Whether each of the commands `extra` speaks of an entity that the receiver knows.
pub open spec fn speak_of_known(s: ReplicationView, extra: Seq<CommandView>) -> bool {
    forall|k: int|
        0 <= k < extra.len() ==> !((#[trigger] extra[k]) is Spawn) && exists|e: u64|
            #[trigger] s.entities.contains_key(e) && s.entities[e] == entity_of(extra[k])
}

proof fn lemma_spawns_grows(commands: Seq<CommandView>, extra: Seq<CommandView>, entity: u64)
    requires
        spawns(commands, entity),
    ensures
        spawns(commands + extra, entity),
{
    let i = choose|i: int|
        0 <= i < commands.len() && #[trigger] commands[i] == (CommandView::Spawn { entity });
    assert((commands + extra)[i] == commands[i]);
}

proof fn lemma_append_known(s: ReplicationView, commands: Seq<CommandView>, extra: Seq<CommandView>)
    requires
        spawn_comes_first(commands),
        known_are_spawned(s, commands),
        speak_of_known(s, extra),
    ensures
        spawn_comes_first(commands + extra),
        known_are_spawned(s, commands + extra),
{
    let all = commands + extra;
    assert forall|j: int| 0 <= j < all.len() implies (#[trigger] all[j]) is Spawn || spawns(
        all.take(j),
        entity_of(all[j]),
    ) by {
        if j < commands.len() {
            assert(all[j] == commands[j]);
            assert(all.take(j) =~= commands.take(j));
        } else {
            let k = j - commands.len();
            assert(all[j] == extra[k]);
            let e = choose|e: u64|
                #[trigger] s.entities.contains_key(e) && s.entities[e] == entity_of(extra[k]);
            assert(spawns(commands, s.entities[e]));
            assert(all.take(j) =~= commands + extra.take(k));
            lemma_spawns_grows(commands, extra.take(k), s.entities[e]);
        }
    }
    assert forall|e: u64| #[trigger] s.entities.contains_key(e) implies spawns(
        all,
        s.entities[e],
    ) by {
        lemma_spawns_grows(commands, extra, s.entities[e]);
    }
}

proof fn lemma_release_speaks_of_known(s: ReplicationView, pending: Seq<UpdateView>)
    ensures
        speak_of_known(s, s.release(pending).commands),
        s.release(pending).kept.len() <= pending.len(),
    decreases pending.len(),
{
    if pending.len() > 0 {
        lemma_release_speaks_of_known(s, pending.drop_last());
        let before = s.release(pending.drop_last());
        let u = pending.last();
        let all = s.release(pending).commands;
        assert forall|k: int| 0 <= k < all.len() implies !((#[trigger] all[k]) is Spawn)
            && exists|e: u64|
            #[trigger] s.entities.contains_key(e) && s.entities[e] == entity_of(all[k]) by {
            if k < before.commands.len() {
                assert(all[k] == before.commands[k]);
            } else {
                assert(s.entities.contains_key(u.entity));
            }
        }
    }
}

/// One message more keeps the order: what was spawned first stays so.
pub proof fn lemma_step_keeps_order(
    s: ReplicationView,
    commands: Seq<CommandView>,
    event: ReplicationEvent,
)
    requires
        spawn_comes_first(commands),
        known_are_spawned(s, commands),
    ensures
        spawn_comes_first(commands + s.step(event).commands),
        known_are_spawned(s.step(event).state, commands + s.step(event).commands),
{
    match event {
        ReplicationEvent::Update(u) => {
            let extra = s.receive_update(u).commands;
            assert(speak_of_known(s, extra)) by {
                if extra.len() > 0 {
                    assert(s.entities.contains_key(u.entity));
                }
            }
            lemma_append_known(s, commands, extra);
        },
        ReplicationEvent::Action(a) => {
            if s.is_new(a) {
                let applied = s.apply(a);
                let t = applied.state;
                let first = commands + applied.commands;
                assert(spawn_comes_first(first) && known_are_spawned(t, first)) by {
                    if applied.commands.len() == 0 {
                        assert(first =~= commands);
                    } else if a.kind == ActionKind::Spawn {
                        let local = s.next_local;
                        assert(first =~= commands.push(CommandView::Spawn { entity: local }));
                        assert forall|j: int| 0 <= j < first.len() implies (
                        #[trigger] first[j]) is Spawn || spawns(
                            first.take(j),
                            entity_of(first[j]),
                        ) by {
                            if j < commands.len() {
                                assert(first[j] == commands[j]);
                                assert(first.take(j) =~= commands.take(j));
                            }
                        }
                        assert forall|e: u64| #[trigger] t.entities.contains_key(e) implies spawns(
                            first,
                            t.entities[e],
                        ) by {
                            if e == a.entity {
                                assert(first[commands.len() as int] == (CommandView::Spawn {
                                    entity: local,
                                }));
                            } else {
                                assert(s.entities.contains_key(e));
                                lemma_spawns_grows(commands, applied.commands, s.entities[e]);
                            }
                        }
                    } else {
                        assert(speak_of_known(s, applied.commands)) by {
                            assert(s.entities.contains_key(a.entity));
                        }
                        lemma_append_known(s, commands, applied.commands);
                        assert forall|e: u64| #[trigger] t.entities.contains_key(e) implies spawns(
                            first,
                            t.entities[e],
                        ) by {
                            assert(s.entities.contains_key(e));
                        }
                    }
                }
                let released = t.release(s.pending);
                lemma_release_speaks_of_known(t, s.pending);
                lemma_append_known(t, first, released.commands);
                assert(commands + (applied.commands + released.commands) =~= first
                    + released.commands);
            } else {
                assert(commands + Seq::<CommandView>::empty() =~= commands);
            }
        },
    }
}

proof fn lemma_run_keeps_order(events: Seq<ReplicationEvent>)
    ensures
        spawn_comes_first(ReplicationView::fresh().run(events).commands),
        known_are_spawned(
            ReplicationView::fresh().run(events).state,
            ReplicationView::fresh().run(events).commands,
        ),
    decreases events.len(),
{
    if events.len() > 0 {
        lemma_run_keeps_order(events.drop_last());
        let before = ReplicationView::fresh().run(events.drop_last());
        lemma_step_keeps_order(before.state, before.commands, events.last());
    }
}

/// Spawn comes first. Whatever messages arrive at a fresh receiver, in
/// whatever order, no command that adds, removes or updates a component of an
/// entity, or despawns it, is handed out before the command that spawns the
/// entity.
pub proof fn lemma_spawn_comes_first(events: Seq<ReplicationEvent>, j: int)
    requires
        0 <= j < ReplicationView::fresh().run(events).commands.len(),
        !(ReplicationView::fresh().run(events).commands[j] is Spawn),
    ensures
        spawns(
            ReplicationView::fresh().run(events).commands.take(j),
            entity_of(ReplicationView::fresh().run(events).commands[j]),
        ),
{
    lemma_run_keeps_order(events);
}

/// Actions before updates. An update that names an action waits until that
/// action has been applied: while the action of its group is outstanding,
/// the update causes no command.
pub proof fn lemma_update_waits_for_action(s: ReplicationView, u: UpdateView)
    requires
        !s.is_ready(u),
    ensures
        s.receive_update(u).commands.len() == 0,
        s.receive_update(u).state.entities == s.entities,
        s.receive_update(u).state.applied == s.applied,
{
}

/// The mathematical values of the updates `updates`.
pub open spec fn updates_view(updates: Seq<EntityUpdate>) -> Seq<UpdateView> {
    Seq::new(updates.len(), |i: int| updates[i]@)
}

/// The receiving side of replication for one peer.
pub struct ReplicationReceiver {
    entities: HashMap<u64, u64>,
    applied: HashMap<u64, u16>,
    pending: Vec<EntityUpdate>,
    next_local: u64,
}

impl View for ReplicationReceiver {
    type V = ReplicationView;

    closed spec fn view(&self) -> ReplicationView {
        ReplicationView {
            entities: self.entities@,
            applied: self.applied@,
            pending: updates_view(self.pending@),
            next_local: self.next_local,
        }
    }
}

impl ReplicationReceiver {
    /// A receiver that knows no entity and no group.
    pub fn new() -> (r: ReplicationReceiver)
        ensures
            r@ == ReplicationView::fresh(),
            r@.wf(),
    {
        let r = ReplicationReceiver {
            entities: HashMap::new(),
            applied: HashMap::new(),
            pending: Vec::new(),
            next_local: 0,
        };
        assert(r@.pending =~= Seq::empty());
        r
    }

    /// The receiver's entity for the sender's entity `remote`, if it exists.
    pub fn local_entity(&self, remote: u64) -> (r: Option<u64>)
        ensures
            r == if self@.entities.contains_key(remote) {
                Some(self@.entities[remote])
            } else {
                None
            },
    {
        match self.entities.get(&remote) {
            Some(local) => Some(*local),
            None => None,
        }
    }

    /// The number of updates that wait for their action.
    pub fn pending_len(&self) -> (n: usize)
        ensures
            n == self@.pending.len(),
    {
        self.pending.len()
    }

    fn is_ready(&self, update: &EntityUpdate) -> (r: bool)
        ensures
            r == self@.is_ready(update@),
    {
        match update.last_action {
            None => true,
            Some(named) => match self.applied.get(&update.group) {
                Some(applied) => !crate::wrapping_id::is_older(*applied, named.0),
                None => false,
            },
        }
    }

    fn push_update_command(&self, update: EntityUpdate, commands: &mut Vec<WorldCommand>)
        ensures
            commands_view(final(commands)@) == commands_view(old(commands)@)
                + self@.update_commands(update@),
    {
        match self.entities.get(&update.entity) {
            Some(local) => {
                let command = WorldCommand::UpdateComponent {
                    entity: *local,
                    component: update.component,
                    tick: update.tick,
                    bytes: update.bytes,
                };
                commands.push(command);
                assert(commands_view(commands@) =~= commands_view(old(commands)@)
                    + self@.update_commands(update@));
            },
            None => {
                assert(commands_view(commands@) =~= commands_view(old(commands)@)
                    + self@.update_commands(update@));
            },
        }
    }

    /// Takes an update, and hands out the commands that it causes.
    pub fn receive_update(&mut self, update: EntityUpdate) -> (r: Vec<WorldCommand>)
        requires
            old(self)@.wf(),
        ensures
            final(self)@.wf(),
            final(self)@ == old(self)@.receive_update(update@).state,
            commands_view(r@) == old(self)@.receive_update(update@).commands,
    {
        let mut commands: Vec<WorldCommand> = Vec::new();
        assert(commands_view(commands@) =~= Seq::empty());
        if self.is_ready(&update) {
            self.push_update_command(update, &mut commands);
            assert(Seq::<CommandView>::empty() + self@.update_commands(update@)
                =~= self@.update_commands(update@));
        } else if self.pending.len() < MAX_PENDING_UPDATES {
            self.pending.push(update);
            assert(self@.pending =~= old(self)@.pending.push(update@));
        }
        commands
    }

    /// Takes an action, and hands out the commands that it causes.
    pub fn receive_action(&mut self, action: EntityAction) -> (r: Vec<WorldCommand>)
        requires
            old(self)@.wf(),
        ensures
            final(self)@.wf(),
            final(self)@ == old(self)@.receive_action(action@).state,
            commands_view(r@) == old(self)@.receive_action(action@).commands,
    {
        let ghost start = self@;
        let mut commands: Vec<WorldCommand> = Vec::new();
        assert(commands_view(commands@) =~= Seq::empty());
        let is_new = match self.applied.get(&action.group) {
            Some(applied) => crate::wrapping_id::is_older(*applied, action.sequence.0),
            None => true,
        };
        if !is_new {
            return commands;
        }
        let mapped = self.local_entity(action.entity);
        match action.kind {
            ActionKind::Spawn => {
                if mapped.is_none() && self.next_local < u64::MAX {
                    let local = self.next_local;
                    self.entities.insert(action.entity, local);
                    self.next_local = local + 1;
                    commands.push(WorldCommand::Spawn { entity: local });
                }
            },
            ActionKind::Despawn => {
                if let Some(local) = mapped {
                    self.entities.remove(&action.entity);
                    commands.push(WorldCommand::Despawn { entity: local });
                }
            },
            ActionKind::InsertComponent => {
                if let Some(local) = mapped {
                    commands.push(
                        WorldCommand::InsertComponent {
                            entity: local,
                            component: action.component,
                            bytes: action.bytes,
                        },
                    );
                }
            },
            ActionKind::RemoveComponent => {
                if let Some(local) = mapped {
                    commands.push(
                        WorldCommand::RemoveComponent { entity: local, component: action.component },
                    );
                }
            },
        }
        self.applied.insert(action.group, action.sequence.0);
        let ghost applied = start.apply(action@);
        proof {
            assert(self@.entities =~= applied.state.entities);
            assert(self@.applied =~= applied.state.applied);
            assert(commands_view(commands@) =~= applied.commands);
        }
        let mut waiting: Vec<EntityUpdate> = Vec::new();
        core::mem::swap(&mut self.pending, &mut waiting);
        let ghost all = updates_view(waiting@);
        let ghost t = applied.state;
        let mut i: usize = 0;
        proof {
            assert(all == start.pending);
            assert(all.take(0) =~= Seq::empty());
            assert(self@.pending =~= Seq::empty());
            assert(applied.commands + Seq::<CommandView>::empty() =~= applied.commands);
        }
        while i < waiting.len()
            invariant
                i <= waiting.len(),
                waiting.len() == all.len(),
                all.len() <= MAX_PENDING_UPDATES,
                forall|k: int| i <= k < waiting.len() ==> (#[trigger] waiting[k])@ == all[k],
                self@.entities == t.entities,
                self@.applied == t.applied,
                self@.next_local == t.next_local,
                self@.entities.dom().finite(),
                self@.applied.dom().finite(),
                self@.pending == t.release(all.take(i as int)).kept,
                commands_view(commands@) == applied.commands + t.release(
                    all.take(i as int),
                ).commands,
            decreases waiting.len() - i,
        {
            let mut update = EntityUpdate {
                group: 0,
                last_action: None,
                tick: Tick(0),
                entity: 0,
                component: 0,
                bytes: Vec::new(),
            };
            waiting.set_and_swap(i, &mut update);
            let ghost kept_before = self@.pending;
            let ghost released_before = t.release(all.take(i as int));
            proof {
                assert(update@ == all[i as int]);
                assert(all.take(i as int + 1).drop_last() =~= all.take(i as int));
                assert(all.take(i as int + 1).last() == all[i as int]);
                assert(self@.is_ready(update@) == t.is_ready(update@));
                assert(self@.update_commands(update@) == t.update_commands(update@));
            }
            if self.is_ready(&update) {
                self.push_update_command(update, &mut commands);
                proof {
                    assert(commands_view(commands@) =~= applied.commands + (
                    released_before.commands + t.update_commands(all[i as int])));
                }
            } else {
                self.pending.push(update);
                proof {
                    assert(self@.pending =~= kept_before.push(all[i as int]));
                }
            }
            i += 1;
        }
        proof {
            assert(all.take(i as int) =~= all);
            lemma_release_speaks_of_known(t, all);
        }
        commands
    }
}

/// What has changed in the sender's world.
#[derive(Clone, Copy, Debug, PartialEq, Eq, Structural)]
pub enum ChangeKind {
    /// The entity has come to exist, or has become visible to the peer.
    Spawned,
    /// The entity has ceased to exist, or has become invisible to the peer.
    Despawned,
    /// A component was added to the entity.
    ComponentInserted,
    /// A component was removed from the entity.
    ComponentRemoved,
    /// The value of a component of the entity has changed.
    ComponentChanged,
}

/// One change in the sender's world, as it concerns one peer.
#[derive(Clone, Debug, PartialEq, Eq)]
pub struct WorldChange {
    pub kind: ChangeKind,
    /// The replication group of the entity.
    pub group: u64,
    pub entity: u64,
    /// The component that the change is about; of no account for entities.
    pub component: u16,
    /// The new value of the component; of no account where there is none.
    pub bytes: Vec<u8>,
}

/// What the sender tells the peer of a change.
#[derive(Clone, Debug, PartialEq, Eq)]
pub enum ReplicationMessage {
    /// For the reliable ordered channel.
    Action(EntityAction),
    /// For an unreliable channel.
    Update(EntityUpdate),
}

/// Mathematical value of a change.
pub struct ChangeView {
    pub kind: ChangeKind,
    pub group: u64,
    pub entity: u64,
    pub component: u16,
    pub bytes: Seq<u8>,
}

/// Mathematical value of a replication message.
pub enum ReplicationMessageView {
    Action(ActionView),
    Update(UpdateView),
}

impl View for WorldChange {
    type V = ChangeView;

    open spec fn view(&self) -> ChangeView {
        ChangeView {
            kind: self.kind,
            group: self.group,
            entity: self.entity,
            component: self.component,
            bytes: self.bytes@,
        }
    }
}

impl View for ReplicationMessage {
    type V = ReplicationMessageView;

    open spec fn view(&self) -> ReplicationMessageView {
        match self {
            ReplicationMessage::Action(a) => ReplicationMessageView::Action(a@),
            ReplicationMessage::Update(u) => ReplicationMessageView::Update(u@),
        }
    }
}

/// The mathematical value of an optional replication message.
pub open spec fn told(m: Option<ReplicationMessage>) -> Option<ReplicationMessageView> {
    match m {
        Some(message) => Some(message@),
        None => None,
    }
}

/// Mathematical value of the sending side of replication for one peer.
pub struct ReplicationSenderView {
    /// The entities that the peer has been told to spawn.
    pub spawned: Set<u64>,
    /// For each group, the number of the last action that was sent.
    pub last_action: Map<u64, u16>,
}

/// A sender after a change, and what it tells the peer.
pub struct ReplicationSend {
    pub state: ReplicationSenderView,
    pub message: Option<ReplicationMessageView>,
}

/// A sender after a run of changes, and all that it tells the peer.
pub struct ReplicationBatch {
    pub state: ReplicationSenderView,
    pub messages: Seq<ReplicationMessageView>,
}

/// The mathematical values of the changes `changes`.
pub open spec fn changes_view(changes: Seq<WorldChange>) -> Seq<ChangeView> {
    Seq::new(changes.len(), |i: int| changes[i]@)
}

/// The mathematical values of the messages `messages`.
pub open spec fn replication_view(messages: Seq<ReplicationMessage>) -> Seq<ReplicationMessageView> {
    Seq::new(messages.len(), |i: int| messages[i]@)
}

impl ReplicationSenderView {
    /// A sender that has told the peer nothing.
    pub open spec fn fresh() -> ReplicationSenderView {
        ReplicationSenderView { spawned: Set::empty(), last_action: Map::empty() }
    }

    /// The number that the next action of the group `group` gets: 0 for the
    /// first, else the number after the last one.
    pub open spec fn next_sequence(self, group: u64) -> u16 {
        if self.last_action.contains_key(group) {
            wrapping_add_spec(self.last_action[group], 1)
        } else {
            0
        }
    }

    /// The sender after the changes `changes` at the tick `tick`, in their
    /// order, and what it tells the peer of them.
    pub open spec fn prepare_all(self, changes: Seq<ChangeView>, tick: u16) -> ReplicationBatch
        decreases changes.len(),
    {
        if changes.len() == 0 {
            ReplicationBatch { state: self, messages: Seq::empty() }
        } else {
            let before = self.prepare_all(changes.drop_last(), tick);
            let step = before.state.prepare(changes.last(), tick);
            ReplicationBatch {
                state: step.state,
                messages: match step.message {
                    Some(message) => before.messages.push(message),
                    None => before.messages,
                },
            }
        }
    }

    /// Whether the change `c` is told to the peer: a spawn where the peer
    /// has not been told of the entity, anything else where it has.
    pub open spec fn tells(self, c: ChangeView) -> bool {
        (c.kind == ChangeKind::Spawned) != self.spawned.contains(c.entity)
    }

    /// The sender after the change `c` at the tick `tick`, and what it tells
    /// the peer. A change of a value becomes an update that names the last
    /// action of the group. Every other change becomes an action with the
    /// next number of the group. A change that is not told changes nothing.
    pub open spec fn prepare(self, c: ChangeView, tick: u16) -> ReplicationSend {
        if !self.tells(c) {
            ReplicationSend { state: self, message: None }
        } else if c.kind == ChangeKind::ComponentChanged {
            ReplicationSend {
                state: self,
                message: Some(
                    ReplicationMessageView::Update(
                        UpdateView {
                            group: c.group,
                            last_action: if self.last_action.contains_key(c.group) {
                                Some(self.last_action[c.group])
                            } else {
                                None
                            },
                            tick,
                            entity: c.entity,
                            component: c.component,
                            bytes: c.bytes,
                        },
                    ),
                ),
            }
        } else {
            let sequence = self.next_sequence(c.group);
            ReplicationSend {
                state: ReplicationSenderView {
                    spawned: match c.kind {
                        ChangeKind::Spawned => self.spawned.insert(c.entity),
                        ChangeKind::Despawned => self.spawned.remove(c.entity),
                        _ => self.spawned,
                    },
                    last_action: self.last_action.insert(c.group, sequence),
                },
                message: Some(
                    ReplicationMessageView::Action(
                        ActionView {
                            group: c.group,
                            sequence,
                            entity: c.entity,
                            kind: match c.kind {
                                ChangeKind::Spawned => ActionKind::Spawn,
                                ChangeKind::Despawned => ActionKind::Despawn,
                                ChangeKind::ComponentInserted => ActionKind::InsertComponent,
                                _ => ActionKind::RemoveComponent,
                            },
                            component: c.component,
                            bytes: c.bytes,
                        },
                    ),
                ),
            }
        }
    }
}

/// Sender and receiver agree. An action that a sender prepares for a group
/// is news to a receiver that has applied the group's actions up to the last
/// one sent; and an update that the sender prepares is ready at such a
/// receiver at once.
pub proof fn lemma_prepared_is_applied(
    sender: ReplicationSenderView,
    receiver: ReplicationView,
    c: ChangeView,
    tick: u16,
)
    requires
        receiver.applied == sender.last_action,
    ensures
        match sender.prepare(c, tick).message {
            Some(ReplicationMessageView::Action(a)) => receiver.is_new(a) && receiver.receive_action(
                a,
            ).state.applied == sender.prepare(c, tick).state.last_action,
            Some(ReplicationMessageView::Update(u)) => receiver.is_ready(u),
            None => true,
        },
{
}

/// The sending side of replication for one peer.
pub struct ReplicationSender {
    spawned: HashSet<u64>,
    last_action: HashMap<u64, u16>,
}

impl View for ReplicationSender {
    type V = ReplicationSenderView;

    closed spec fn view(&self) -> ReplicationSenderView {
        ReplicationSenderView { spawned: self.spawned@, last_action: self.last_action@ }
    }
}

impl ReplicationSender {
    /// A sender that has told the peer nothing.
    pub fn new() -> (r: ReplicationSender)
        ensures
            r@ == ReplicationSenderView::fresh(),
    {
        ReplicationSender { spawned: HashSet::new(), last_action: HashMap::new() }
    }

    /// Whether the peer has been told to spawn the entity `entity`.
    pub fn has_spawned(&self, entity: u64) -> (r: bool)
        ensures
            r == self@.spawned.contains(entity),
    {
        self.spawned.contains(&entity)
    }

    /// Turns the changes in the world at the tick `tick` into what the peer
    /// is told of them.
    pub fn buffer_replication_messages(&mut self, tick: Tick, changes: Vec<WorldChange>) -> (r: Vec<
        ReplicationMessage,
    >)
        ensures
            final(self)@ == old(self)@.prepare_all(changes_view(changes@), tick.0).state,
            replication_view(r@) == old(self)@.prepare_all(changes_view(changes@), tick.0).messages,
    {
        let ghost start = self@;
        let ghost all = changes_view(changes@);
        let mut rest = changes;
        let mut messages: Vec<ReplicationMessage> = Vec::new();
        let mut i: usize = 0;
        proof {
            assert(all.take(0) =~= Seq::empty());
            assert(replication_view(messages@) =~= Seq::empty());
        }
        while i < rest.len()
            invariant
                all == changes_view(changes@),
                i <= rest.len(),
                rest.len() == all.len(),
                forall|k: int| i <= k < rest.len() ==> (#[trigger] rest[k])@ == all[k],
                start.prepare_all(all.take(i as int), tick.0) == (ReplicationBatch {
                    state: self@,
                    messages: replication_view(messages@),
                }),
            decreases rest.len() - i,
        {
            let mut change = WorldChange {
                kind: ChangeKind::Spawned,
                group: 0,
                entity: 0,
                component: 0,
                bytes: Vec::new(),
            };
            rest.set_and_swap(i, &mut change);
            let ghost so_far = replication_view(messages@);
            proof {
                assert(change@ == all[i as int]);
                assert(all.take(i as int + 1).drop_last() =~= all.take(i as int));
                assert(all.take(i as int + 1).last() == all[i as int]);
            }
            match self.prepare(change, tick) {
                Some(message) => {
                    messages.push(message);
                    proof {
                        assert(replication_view(messages@) =~= so_far.push(message@));
                    }
                },
                None => {},
            }
            i += 1;
        }
        proof {
            assert(all.take(i as int) =~= all);
        }
        messages
    }

    /// Turns a change in the world at the tick `tick` into what the peer is
    /// told of it, if anything.
    pub fn prepare(&mut self, change: WorldChange, tick: Tick) -> (r: Option<ReplicationMessage>)
        ensures
            final(self)@ == old(self)@.prepare(change@, tick.0).state,
            told(r) == old(self)@.prepare(change@, tick.0).message,
    {
        let known = self.spawned.contains(&change.entity);
        let is_spawn = match change.kind {
            ChangeKind::Spawned => true,
            _ => false,
        };
        if is_spawn == known {
            return None;
        }
        let last = match self.last_action.get(&change.group) {
            Some(sequence) => Some(*sequence),
            None => None,
        };
        if let ChangeKind::ComponentChanged = change.kind {
            return Some(
                ReplicationMessage::Update(
                    EntityUpdate {
                        group: change.group,
                        last_action: match last {
                            Some(sequence) => Some(MessageId(sequence)),
                            None => None,
                        },
                        tick,
                        entity: change.entity,
                        component: change.component,
                        bytes: change.bytes,
                    },
                ),
            );
        }
        let sequence: u16 = match last {
            Some(sequence) => sequence.wrapping_add(1),
            None => 0,
        };
        let kind = match change.kind {
            ChangeKind::Spawned => {
                self.spawned.insert(change.entity);
                ActionKind::Spawn
            },
            ChangeKind::Despawned => {
                self.spawned.remove(&change.entity);
                ActionKind::Despawn
            },
            ChangeKind::ComponentInserted => ActionKind::InsertComponent,
            _ => ActionKind::RemoveComponent,
        };
        self.last_action.insert(change.group, sequence);
        Some(
            ReplicationMessage::Action(
                EntityAction {
                    group: change.group,
                    sequence: MessageId(sequence),
                    entity: change.entity,
                    kind,
                    component: change.component,
                    bytes: change.bytes,
                },
            ),
        )
    }
}

} // verus!
