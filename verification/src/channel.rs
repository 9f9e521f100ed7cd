//! Channels: how they are declared, and the receiver that each mode calls for.

use vstd::prelude::*;
use crate::error::ChannelError;
use crate::message::{message_view, MessageContainer, MessageView, SingleData, SingleView};
use crate::ordered_reliable::{lemma_arrival_keeps_pending, OrderedReliableReceiver, OrderedView};
use crate::sequenced_unreliable::{
    lemma_arrival_moves_forward, SequencedUnreliableReceiver, SequencedView,
};
use crate::tick_buffered::{tick_of, TickBufferedReceiver, TickBufferedView};
use crate::unordered_reliable::{UnorderedReliableReceiver, UnorderedReliableView};
use crate::unordered_unreliable::{UnorderedUnreliableReceiver, UnorderedView};
use crate::wrapping_id::Tick;

verus! {

/// Identifier of a declared channel.
#[derive(Clone, Copy, Debug, PartialEq, Eq, Hash, Structural)]
pub struct ChannelKind(pub u16);

/// Who may send on a channel.
#[derive(Clone, Copy, Debug, PartialEq, Eq, Structural)]
pub enum ChannelDirection {
    ClientToServer,
    ServerToClient,
    Bidirectional,
}

/// How a channel treats loss and order.
#[derive(Clone, Copy, Debug, PartialEq, Eq, Structural)]
pub enum ChannelMode {
    /// Messages may be lost, and are delivered as they arrive.
    UnreliableUnordered,
    /// Messages may be lost; one that is older than the newest seen is dropped.
    UnreliableSequenced,
    /// Every message is delivered, once, as the messages arrive.
    ReliableUnordered,
    /// Every message is delivered, once, in the order of the ids.
    ReliableOrdered,
    /// Messages may be lost; each is delivered at the tick that it was sent for.
    TickBuffered,
}

/// A channel as it is declared at startup.
#[derive(Clone, Copy, Debug, PartialEq, Eq, Structural)]
pub struct ChannelSettings {
    pub kind: ChannelKind,
    pub direction: ChannelDirection,
    pub mode: ChannelMode,
}

/// Whether no two of the declared channels have the same kind.
pub open spec fn kinds_distinct(channels: Seq<ChannelSettings>) -> bool {
    forall|i: int, j: int|
        0 <= i < j < channels.len() ==> (#[trigger] channels[i]).kind != (
        #[trigger] channels[j]).kind
}

/// Whether a channel of the kind `kind` is among the declared ones.
pub open spec fn declares(channels: Seq<ChannelSettings>, kind: ChannelKind) -> bool {
    exists|i: int| 0 <= i < channels.len() && (#[trigger] channels[i]).kind == kind
}

/// The channels that a protocol declares, in the order of their priority.
pub struct ChannelRegistry {
    channels: Vec<ChannelSettings>,
}

impl View for ChannelRegistry {
    type V = Seq<ChannelSettings>;

    closed spec fn view(&self) -> Seq<ChannelSettings> {
        self.channels@
    }
}

impl ChannelRegistry {
    /// The invariant of a registry: no kind is declared twice.
    pub open spec fn wf(&self) -> bool {
        kinds_distinct(self@)
    }

    /// A registry that declares no channel.
    pub fn new() -> (r: ChannelRegistry)
        ensures
            r.wf(),
            r@ == Seq::<ChannelSettings>::empty(),
    {
        ChannelRegistry { channels: Vec::new() }
    }

    /// The number of declared channels.
    pub fn len(&self) -> (n: usize)
        ensures
            n == self@.len(),
    {
        self.channels.len()
    }

    /// The settings of the channel of the kind `kind`, if it is declared.
    pub fn get(&self, kind: ChannelKind) -> (r: Option<ChannelSettings>)
        ensures
            match r {
                Some(settings) => settings.kind == kind && self@.contains(settings),
                None => !declares(self@, kind),
            },
    {
        let mut i: usize = 0;
        while i < self.channels.len()
            invariant
                i <= self.channels.len(),
                forall|k: int| 0 <= k < i ==> (#[trigger] self@[k]).kind != kind,
            decreases self.channels.len() - i,
        {
            if self.channels[i].kind.0 == kind.0 {
                return Some(self.channels[i]);
            }
            i += 1;
        }
        None
    }

    /// Declares a channel, after those declared before. A kind that is
    /// declared already is refused and nothing changes.
    pub fn add_channel(&mut self, settings: ChannelSettings) -> (added: bool)
        requires
            old(self).wf(),
        ensures
            final(self).wf(),
            added == !declares(old(self)@, settings.kind),
            final(self)@ == if added {
                old(self)@.push(settings)
            } else {
                old(self)@
            },
    {
        if self.get(settings.kind).is_some() {
            return false;
        }
        self.channels.push(settings);
        proof {
            assert forall|i: int, j: int| 0 <= i < j < self@.len() implies (
            #[trigger] self@[i]).kind != (#[trigger] self@[j]).kind by {
                if j < old(self)@.len() {
                    assert(old(self)@[i].kind != old(self)@[j].kind);
                } else {
                    assert(old(self)@[i].kind != settings.kind);
                }
            }
        }
        true
    }

    /// The settings of the `i`-th declared channel.
    pub fn settings_at(&self, i: usize) -> (r: ChannelSettings)
        requires
            i < self@.len(),
        ensures
            r == self@[i as int],
    {
        self.channels[i]
    }
}

/// Mathematical value of a channel's receiver.
pub enum ReceiverView {
    UnorderedUnreliable(UnorderedView),
    SequencedUnreliable(SequencedView),
    UnorderedReliable(UnorderedReliableView),
    OrderedReliable(OrderedView),
    TickBuffered(TickBufferedView),
}

/// A receiver after one arrival, and whether it took the message.
pub struct ReceiverStep {
    pub state: ReceiverView,
    pub result: Result<(), ChannelError>,
}

/// A receiver after one read, and the message it handed out.
pub struct ReceiverRead {
    pub state: ReceiverView,
    pub message: Option<SingleView>,
}

impl ReceiverView {
    /// What holds of the receiver at any time.
    pub open spec fn wf(self) -> bool {
        match self {
            ReceiverView::UnorderedUnreliable(r) => r.wf(),
            ReceiverView::SequencedUnreliable(r) => r.wf(),
            ReceiverView::UnorderedReliable(r) => r.wf(),
            ReceiverView::OrderedReliable(r) => r.wf(),
            ReceiverView::TickBuffered(r) => r.wf(),
        }
    }

    /// The mode of the channel that the receiver serves.
    pub open spec fn mode(self) -> ChannelMode {
        match self {
            ReceiverView::UnorderedUnreliable(_) => ChannelMode::UnreliableUnordered,
            ReceiverView::SequencedUnreliable(_) => ChannelMode::UnreliableSequenced,
            ReceiverView::UnorderedReliable(_) => ChannelMode::ReliableUnordered,
            ReceiverView::OrderedReliable(_) => ChannelMode::ReliableOrdered,
            ReceiverView::TickBuffered(_) => ChannelMode::TickBuffered,
        }
    }

    /// The receiver that the mode `mode` calls for, before any message.
    pub open spec fn fresh(mode: ChannelMode) -> ReceiverView {
        match mode {
            ChannelMode::UnreliableUnordered => ReceiverView::UnorderedUnreliable(
                UnorderedView::fresh(),
            ),
            ChannelMode::UnreliableSequenced => ReceiverView::SequencedUnreliable(
                SequencedView::fresh(),
            ),
            ChannelMode::ReliableUnordered => ReceiverView::UnorderedReliable(
                UnorderedReliableView::fresh(),
            ),
            ChannelMode::ReliableOrdered => ReceiverView::OrderedReliable(OrderedView::fresh()),
            ChannelMode::TickBuffered => ReceiverView::TickBuffered(TickBufferedView::fresh()),
        }
    }

    /// What the message `m` lacks for a channel of the mode `mode`, if
    /// anything: the id, where the mode goes by ids, or the tick, where it
    /// goes by ticks.
    pub open spec fn lacks(mode: ChannelMode, m: MessageView) -> Option<ChannelError> {
        match mode {
            ChannelMode::UnreliableUnordered => None,
            ChannelMode::TickBuffered => if tick_of(m) is None {
                Some(ChannelError::MissingTick)
            } else {
                None
            },
            _ => if m.id() is None {
                Some(ChannelError::MissingMessageId)
            } else {
                None
            },
        }
    }

    /// The receiver after the message `m` arrives, by the rules of its mode.
    #[verifier::opaque]
    pub open spec fn buffer_recv(self, m: MessageView) -> ReceiverStep {
        match self {
            ReceiverView::UnorderedUnreliable(r) => ReceiverStep {
                state: ReceiverView::UnorderedUnreliable(r.buffer_recv(m).state),
                result: r.buffer_recv(m).result,
            },
            ReceiverView::SequencedUnreliable(r) => ReceiverStep {
                state: ReceiverView::SequencedUnreliable(r.buffer_recv(m).state),
                result: r.buffer_recv(m).result,
            },
            ReceiverView::UnorderedReliable(r) => ReceiverStep {
                state: ReceiverView::UnorderedReliable(r.buffer_recv(m).state),
                result: r.buffer_recv(m).result,
            },
            ReceiverView::OrderedReliable(r) => ReceiverStep {
                state: ReceiverView::OrderedReliable(r.buffer_recv(m).state),
                result: r.buffer_recv(m).result,
            },
            ReceiverView::TickBuffered(r) => ReceiverStep {
                state: ReceiverView::TickBuffered(r.buffer_recv(m).state),
                result: r.buffer_recv(m).result,
            },
        }
    }

    /// The receiver after one read, by the rules of its mode.
    pub open spec fn read_message(self) -> ReceiverRead {
        match self {
            ReceiverView::UnorderedUnreliable(r) => ReceiverRead {
                state: ReceiverView::UnorderedUnreliable(r.read_message().state),
                message: r.read_message().message,
            },
            ReceiverView::SequencedUnreliable(r) => ReceiverRead {
                state: ReceiverView::SequencedUnreliable(r.read_message().state),
                message: r.read_message().message,
            },
            ReceiverView::UnorderedReliable(r) => ReceiverRead {
                state: ReceiverView::UnorderedReliable(r.read_message().state),
                message: r.read_message().message,
            },
            ReceiverView::OrderedReliable(r) => ReceiverRead {
                state: ReceiverView::OrderedReliable(r.read_message().state),
                message: r.read_message().message,
            },
            ReceiverView::TickBuffered(r) => ReceiverRead {
                state: ReceiverView::TickBuffered(r.read_message().state),
                message: r.read_message().message,
            },
        }
    }

    /// The receiver after time has moved on: its reassembler's clock is set
    /// to `now` and the reassemblies that have waited for `timeout`
    /// microseconds or more are given up; a receiver that goes by ticks
    /// stands at the tick `tick`.
    pub open spec fn update(self, now: u64, tick: u16, timeout: u64) -> ReceiverView {
        match self {
            ReceiverView::UnorderedUnreliable(r) => ReceiverView::UnorderedUnreliable(
                UnorderedView { fragments: r.fragments.collect(now, timeout), ..r },
            ),
            ReceiverView::SequencedUnreliable(r) => ReceiverView::SequencedUnreliable(
                SequencedView { fragments: r.fragments.collect(now, timeout), ..r },
            ),
            ReceiverView::UnorderedReliable(r) => ReceiverView::UnorderedReliable(
                UnorderedReliableView { fragments: r.fragments.collect(now, timeout), ..r },
            ),
            ReceiverView::OrderedReliable(r) => ReceiverView::OrderedReliable(
                OrderedView { fragments: r.fragments.collect(now, timeout), ..r },
            ),
            ReceiverView::TickBuffered(r) => ReceiverView::TickBuffered(
                (TickBufferedView { fragments: r.fragments.collect(now, timeout), ..r }).set_tick(
                    tick,
                ),
            ),
        }
    }

    /// The number of messages that wait in the receiver, readable or not.
    pub open spec fn waiting(self) -> nat {
        match self {
            ReceiverView::UnorderedUnreliable(r) => r.queue.len(),
            ReceiverView::SequencedUnreliable(r) => r.queue.len(),
            ReceiverView::UnorderedReliable(r) => r.queue.len(),
            ReceiverView::OrderedReliable(r) => r.buffer.dom().len(),
            ReceiverView::TickBuffered(r) => r.buffer.dom().len(),
        }
    }

    /// The messages that successive reads hand out until one hands out
    /// nothing, and the receiver after them.
    pub open spec fn drain(self) -> (ReceiverView, Seq<SingleView>)
        decreases self.waiting(),
        when self.wf()
        via Self::drain_decreases
    {
        let read = self.read_message();
        match read.message {
            None => (self, Seq::empty()),
            Some(m) => {
                let rest = read.state.drain();
                (rest.0, seq![m] + rest.1)
            },
        }
    }

    #[via_fn]
    proof fn drain_decreases(self) {
        lemma_read_shrinks(self);
    }
}

/// A read that hands out a message leaves one message fewer waiting, and
/// keeps the receiver well formed.
pub proof fn lemma_read_shrinks(r: ReceiverView)
    requires
        r.wf(),
    ensures
        r.read_message().state.wf(),
        r.read_message().message is Some ==> r.read_message().state.waiting() + 1 == r.waiting(),
        r.read_message().message is None ==> r.read_message().state == r,
{
    match r {
        ReceiverView::UnorderedUnreliable(u) => {},
        ReceiverView::SequencedUnreliable(s) => {
            crate::sequenced_unreliable::lemma_read_keeps_most_recent(s);
        },
        ReceiverView::UnorderedReliable(u) => {},
        ReceiverView::OrderedReliable(o) => {
            crate::ordered_reliable::lemma_read_hands_out_pending(o);
        },
        ReceiverView::TickBuffered(t) => {},
    }
}

/// An arrival keeps a receiver well formed and of its mode, and a refused
/// message changes nothing.
pub proof fn lemma_arrival_keeps_wf(r: ReceiverView, m: MessageView)
    requires
        r.wf(),
    ensures
        r.buffer_recv(m).state.wf(),
        r.buffer_recv(m).state.mode() == r.mode(),
        r.buffer_recv(m).result is Err ==> r.buffer_recv(m).state == r,
{
    reveal(ReceiverView::buffer_recv);
    match r {
        ReceiverView::UnorderedUnreliable(u) => {
            crate::unordered_unreliable::lemma_arrival_keeps_queue(u, m);
        },
        ReceiverView::SequencedUnreliable(s) => {
            lemma_arrival_moves_forward(s, m);
        },
        ReceiverView::UnorderedReliable(u) => {
            crate::unordered_reliable::lemma_arrival_keeps_wf(u, m);
        },
        ReceiverView::OrderedReliable(o) => {
            lemma_arrival_keeps_pending(o, m);
        },
        ReceiverView::TickBuffered(t) => {
            crate::tick_buffered::lemma_arrival_keeps_tick(t, m);
        },
    }
}

/// A message that lacks nothing for the channel is refused only where that
/// breaks the protocol: for want of a reassembly slot, or because its id
/// lies beyond the window.
pub proof fn lemma_refusal_is_fatal(r: ReceiverView, m: MessageView)
    requires
        r.wf(),
        ReceiverView::lacks(r.mode(), m) is None,
    ensures
        match r.buffer_recv(m).result {
            Ok(_) => true,
            Err(e) => e.is_protocol_violation(),
        },
{
    reveal(ReceiverView::buffer_recv);
    match r {
        ReceiverView::UnorderedUnreliable(u) => {
            crate::unordered_unreliable::lemma_arrival_keeps_queue(u, m);
        },
        _ => {},
    }
}

/// The receiver of one channel, by the channel's mode.
pub enum ChannelReceiver {
    UnorderedUnreliable(UnorderedUnreliableReceiver),
    SequencedUnreliable(SequencedUnreliableReceiver),
    UnorderedReliable(UnorderedReliableReceiver),
    OrderedReliable(OrderedReliableReceiver),
    TickBuffered(TickBufferedReceiver),
}

impl View for ChannelReceiver {
    type V = ReceiverView;

    open spec fn view(&self) -> ReceiverView {
        match self {
            ChannelReceiver::UnorderedUnreliable(r) => ReceiverView::UnorderedUnreliable(r@),
            ChannelReceiver::SequencedUnreliable(r) => ReceiverView::SequencedUnreliable(r@),
            ChannelReceiver::UnorderedReliable(r) => ReceiverView::UnorderedReliable(r@),
            ChannelReceiver::OrderedReliable(r) => ReceiverView::OrderedReliable(r@),
            ChannelReceiver::TickBuffered(r) => ReceiverView::TickBuffered(r@),
        }
    }
}

impl ChannelReceiver {
    /// The invariant of the receiver's representation.
    pub open spec fn wf(&self) -> bool {
        match self {
            ChannelReceiver::UnorderedUnreliable(r) => r.wf(),
            ChannelReceiver::SequencedUnreliable(r) => r.wf(),
            ChannelReceiver::UnorderedReliable(r) => r.wf(),
            ChannelReceiver::OrderedReliable(r) => r.wf(),
            ChannelReceiver::TickBuffered(r) => r.wf(),
        }
    }

    /// A well-formed receiver has a well-formed value.
    pub proof fn lemma_view_wf(&self)
        requires
            self.wf(),
        ensures
            self@.wf(),
    {
        match self {
            ChannelReceiver::UnorderedUnreliable(r) => r.lemma_view_wf(),
            ChannelReceiver::SequencedUnreliable(r) => r.lemma_view_wf(),
            ChannelReceiver::UnorderedReliable(r) => r.lemma_view_wf(),
            ChannelReceiver::OrderedReliable(r) => r.lemma_view_wf(),
            ChannelReceiver::TickBuffered(r) => r.lemma_view_wf(),
        }
    }

    /// The receiver that the mode `mode` calls for, before any message.
    pub fn new(mode: ChannelMode) -> (r: ChannelReceiver)
        ensures
            r.wf(),
            r@ == ReceiverView::fresh(mode),
    {
        match mode {
            ChannelMode::UnreliableUnordered => ChannelReceiver::UnorderedUnreliable(
                UnorderedUnreliableReceiver::new(),
            ),
            ChannelMode::UnreliableSequenced => ChannelReceiver::SequencedUnreliable(
                SequencedUnreliableReceiver::new(),
            ),
            ChannelMode::ReliableUnordered => ChannelReceiver::UnorderedReliable(
                UnorderedReliableReceiver::new(),
            ),
            ChannelMode::ReliableOrdered => ChannelReceiver::OrderedReliable(
                OrderedReliableReceiver::new(),
            ),
            ChannelMode::TickBuffered => ChannelReceiver::TickBuffered(TickBufferedReceiver::new()),
        }
    }

    /// The mode of the channel that the receiver serves.
    pub fn mode(&self) -> (r: ChannelMode)
        ensures
            r == self@.mode(),
    {
        match self {
            ChannelReceiver::UnorderedUnreliable(_) => ChannelMode::UnreliableUnordered,
            ChannelReceiver::SequencedUnreliable(_) => ChannelMode::UnreliableSequenced,
            ChannelReceiver::UnorderedReliable(_) => ChannelMode::ReliableUnordered,
            ChannelReceiver::OrderedReliable(_) => ChannelMode::ReliableOrdered,
            ChannelReceiver::TickBuffered(_) => ChannelMode::TickBuffered,
        }
    }

    /// Takes a message that arrived on the channel.
    pub fn buffer_recv(&mut self, message: MessageContainer) -> (r: Result<(), ChannelError>)
        requires
            old(self).wf(),
        ensures
            final(self).wf(),
            final(self)@ == old(self)@.buffer_recv(message@).state,
            r == old(self)@.buffer_recv(message@).result,
    {
        reveal(ReceiverView::buffer_recv);
        match self {
            ChannelReceiver::UnorderedUnreliable(receiver) => receiver.buffer_recv(message),
            ChannelReceiver::SequencedUnreliable(receiver) => receiver.buffer_recv(message),
            ChannelReceiver::UnorderedReliable(receiver) => receiver.buffer_recv(message),
            ChannelReceiver::OrderedReliable(receiver) => receiver.buffer_recv(message),
            ChannelReceiver::TickBuffered(receiver) => receiver.buffer_recv(message),
        }
    }

    /// Lets time move on: sets the reassembler's clock to `now`, gives up
    /// the reassemblies that have waited for `timeout` microseconds or more,
    /// and, where the receiver goes by ticks, sets its tick to `tick`.
    pub fn update(&mut self, now: u64, tick: Tick, timeout: u64)
        requires
            old(self).wf(),
        ensures
            final(self).wf(),
            final(self)@ == old(self)@.update(now, tick.0, timeout),
    {
        match self {
            ChannelReceiver::UnorderedUnreliable(receiver) => receiver.collect(now, timeout),
            ChannelReceiver::SequencedUnreliable(receiver) => receiver.collect(now, timeout),
            ChannelReceiver::UnorderedReliable(receiver) => receiver.collect(now, timeout),
            ChannelReceiver::OrderedReliable(receiver) => receiver.collect(now, timeout),
            ChannelReceiver::TickBuffered(receiver) => {
                receiver.collect(now, timeout);
                receiver.set_tick(tick);
            },
        }
    }

    /// Hands out the next message that the mode allows, if there is one.
    pub fn read_message(&mut self) -> (r: Option<SingleData>)
        requires
            old(self).wf(),
        ensures
            final(self).wf(),
            final(self)@ == old(self)@.read_message().state,
            message_view(r) == old(self)@.read_message().message,
    {
        match self {
            ChannelReceiver::UnorderedUnreliable(receiver) => receiver.read_message(),
            ChannelReceiver::SequencedUnreliable(receiver) => receiver.read_message(),
            ChannelReceiver::UnorderedReliable(receiver) => receiver.read_message(),
            ChannelReceiver::OrderedReliable(receiver) => receiver.read_message(),
            ChannelReceiver::TickBuffered(receiver) => receiver.read_message(),
        }
    }
}

/// What the message `message` lacks for a channel of the mode `mode`, if anything.
pub fn lacks(mode: ChannelMode, message: &MessageContainer) -> (r: Option<ChannelError>)
    ensures
        r == ReceiverView::lacks(mode, message@),
{
    match mode {
        ChannelMode::UnreliableUnordered => None,
        ChannelMode::TickBuffered => {
            let tick = match message {
                MessageContainer::Single(data) => data.tick,
                MessageContainer::Fragment(data) => data.tick,
            };
            if tick.is_none() {
                Some(ChannelError::MissingTick)
            } else {
                None
            }
        },
        _ => if message.id().is_none() {
            Some(ChannelError::MissingMessageId)
        } else {
            None
        },
    }
}

} // verus!
