//! Receiver of a reliable, ordered channel.
//!
//! Messages may arrive in any order and more than once. The receiver keeps
//! those that are still awaited in a gap buffer keyed by message id and hands
//! them out one by one in the order of their ids, starting from id 0.

use std::collections::BTreeMap;
use vstd::prelude::*;
use crate::error::ChannelError;
use crate::fragment_receiver::{
    lemma_receive_keeps_wf, FragmentReceiver, FragmentsView, DEFAULT_SLOT_CAPACITY,
};
use crate::message::{message_view, MessageContainer, MessageView, SingleData, SingleView};
use crate::wrapping_id::{
    forward_distance, lemma_wrapping_add_add, lemma_wrapping_add_is_newer, wrapping_add_spec,
    wrapping_lt, MessageId,
};

verus! {

/// Mathematical value of an ordered reliable receiver.
pub struct OrderedView {
    /// The id of the next message to hand out.
    pub pending: u16,
    /// The messages that have arrived and wait for their turn, by id.
    pub buffer: Map<u16, SingleView>,
    /// The reassembler for the channel's fragmented messages.
    pub fragments: FragmentsView,
}

/// An ordered receiver after one arrival, and whether it took the message.
pub struct OrderedStep {
    pub state: OrderedView,
    pub result: Result<(), ChannelError>,
}

/// An ordered receiver after one read, and the message it handed out.
pub struct OrderedRead {
    pub state: OrderedView,
    pub message: Option<SingleView>,
}

impl OrderedView {
    /// A receiver that awaits message 0 and holds nothing.
    pub open spec fn fresh() -> OrderedView {
        OrderedView {
            pending: 0,
            buffer: Map::empty(),
            fragments: FragmentsView::fresh(DEFAULT_SLOT_CAPACITY as nat),
        }
    }

    /// What holds of a receiver at any time: every buffered message carries
    /// the id that it is filed under, and the reassembler is well formed.
    pub open spec fn wf(self) -> bool {
        &&& self.fragments.wf()
        &&& self.buffer.dom().finite()
        &&& forall|id: u16| #[trigger]
            self.buffer.contains_key(id) ==> self.buffer[id].id == Some(id)
    }

    /// Whether the receiver drops a message with this id: it is older than the
    /// next one awaited, or a message with this id waits in the buffer.
    pub open spec fn drops(self, id: u16) -> bool {
        wrapping_lt(id, self.pending) || self.buffer.contains_key(id)
    }

    /// The receiver after the message `m` arrives.
    ///
    /// A message without an id is refused. One that the receiver drops changes
    /// nothing. A whole message goes into the buffer under its id. A fragment
    /// goes to the reassembler, and the message it completes, if any, goes into
    /// the buffer; if the reassembler refuses it, nothing changes.
    pub open spec fn buffer_recv(self, m: MessageView) -> OrderedStep {
        match m {
            MessageView::Single(data) => match data.id {
                None => OrderedStep { state: self, result: Err(ChannelError::MissingMessageId) },
                Some(id) => if self.drops(id) {
                    OrderedStep { state: self, result: Ok(()) }
                } else {
                    OrderedStep {
                        state: OrderedView { buffer: self.buffer.insert(id, data), ..self },
                        result: Ok(()),
                    }
                },
            },
            MessageView::Fragment(f) => if self.drops(f.message_id) {
                OrderedStep { state: self, result: Ok(()) }
            } else {
                let step = self.fragments.receive(f);
                match step.result {
                    Err(e) => OrderedStep { state: self, result: Err(e) },
                    Ok(None) => OrderedStep {
                        state: OrderedView { fragments: step.state, ..self },
                        result: Ok(()),
                    },
                    Ok(Some(whole)) => OrderedStep {
                        state: OrderedView {
                            buffer: self.buffer.insert(f.message_id, whole),
                            fragments: step.state,
                            ..self
                        },
                        result: Ok(()),
                    },
                }
            },
        }
    }

    /// The receiver after one read: the awaited message leaves the buffer, if
    /// it is there, and the receiver then awaits the id that follows.
    pub open spec fn read_message(self) -> OrderedRead {
        if self.buffer.contains_key(self.pending) {
            OrderedRead {
                state: OrderedView {
                    pending: wrapping_add_spec(self.pending, 1),
                    buffer: self.buffer.remove(self.pending),
                    ..self
                },
                message: Some(self.buffer[self.pending]),
            }
        } else {
            OrderedRead { state: self, message: None }
        }
    }
}

/// One thing that happens to a receiver: a message arrives, or the application reads.
pub enum OrderedEvent {
    Arrival(MessageView),
    Read,
}

/// A receiver after a run of events, and the messages it handed out, first one first.
pub struct OrderedTrace {
    pub state: OrderedView,
    pub delivered: Seq<SingleView>,
}

impl OrderedView {
    /// The receiver after the events `events`, in their order, and what the
    /// reads among them handed out.
    pub open spec fn run(self, events: Seq<OrderedEvent>) -> OrderedTrace
        decreases events.len(),
    {
        if events.len() == 0 {
            OrderedTrace { state: self, delivered: Seq::empty() }
        } else {
            let before = self.run(events.drop_last());
            match events.last() {
                OrderedEvent::Arrival(m) => OrderedTrace {
                    state: before.state.buffer_recv(m).state,
                    delivered: before.delivered,
                },
                OrderedEvent::Read => {
                    let read = before.state.read_message();
                    OrderedTrace {
                        state: read.state,
                        delivered: match read.message {
                            Some(m) => before.delivered.push(m),
                            None => before.delivered,
                        },
                    }
                },
            }
        }
    }
}

/// An arrival keeps the receiver well formed and does not change which id it
/// awaits; a refused message changes nothing at all.
pub proof fn lemma_arrival_keeps_pending(s: OrderedView, m: MessageView)
    requires
        s.wf(),
    ensures
        s.buffer_recv(m).state.wf(),
        s.buffer_recv(m).state.pending == s.pending,
        s.buffer_recv(m).result is Err ==> s.buffer_recv(m).state == s,
{
    match m {
        MessageView::Single(data) => {},
        MessageView::Fragment(f) => {
            lemma_receive_keeps_wf(s.fragments, f);
        },
    }
}

/// A read hands out the awaited message or nothing: the message carries the
/// awaited id, and the receiver then awaits the next id; when the awaited
/// message has not arrived, the read changes nothing.
pub proof fn lemma_read_hands_out_pending(s: OrderedView)
    requires
        s.wf(),
    ensures
        s.read_message().state.wf(),
        match s.read_message().message {
            Some(m) => m.id == Some(s.pending) && s.read_message().state.pending
                == wrapping_add_spec(s.pending, 1),
            None => s.read_message().state == s,
        },
{
}

/// Over any run of arrivals and reads, the messages handed out carry
/// consecutive ids, starting with the id that the receiver awaited at first.
pub proof fn lemma_deliveries_are_consecutive(s: OrderedView, events: Seq<OrderedEvent>)
    requires
        s.wf(),
    ensures
        s.run(events).state.wf(),
        s.run(events).state.pending == wrapping_add_spec(
            s.pending,
            s.run(events).delivered.len() as int,
        ),
        forall|i: int|
            0 <= i < s.run(events).delivered.len() ==> (#[trigger] s.run(events).delivered[i]).id
                == Some(wrapping_add_spec(s.pending, i)),
    decreases events.len(),
{
    if events.len() == 0 {
        lemma_wrapping_add_add(s.pending, 0, 0);
    } else {
        lemma_deliveries_are_consecutive(s, events.drop_last());
        let before = s.run(events.drop_last());
        match events.last() {
            OrderedEvent::Arrival(m) => {
                lemma_arrival_keeps_pending(before.state, m);
            },
            OrderedEvent::Read => {
                lemma_read_hands_out_pending(before.state);
                lemma_wrapping_add_add(s.pending, before.delivered.len() as int, 1);
            },
        }
    }
}

/// Order of delivery: of two messages handed out at most 32768 deliveries
/// apart, the one handed out first has the older id.
pub proof fn lemma_deliveries_in_id_order(
    s: OrderedView,
    events: Seq<OrderedEvent>,
    i: int,
    j: int,
)
    requires
        s.wf(),
        0 <= i < j < s.run(events).delivered.len(),
        j - i <= 32768,
    ensures
        wrapping_lt(
            s.run(events).delivered[i].id.unwrap(),
            s.run(events).delivered[j].id.unwrap(),
        ),
{
    lemma_deliveries_are_consecutive(s, events);
    lemma_wrapping_add_add(s.pending, i, j - i);
    lemma_wrapping_add_is_newer(wrapping_add_spec(s.pending, i), j - i);
}

/// Delivery at most once: no two of any 65536 consecutive deliveries carry the
/// same id.
pub proof fn lemma_deliveries_are_distinct(
    s: OrderedView,
    events: Seq<OrderedEvent>,
    i: int,
    j: int,
)
    requires
        s.wf(),
        0 <= i < j < s.run(events).delivered.len(),
        j - i < 65536,
    ensures
        s.run(events).delivered[i].id != s.run(events).delivered[j].id,
{
    lemma_deliveries_are_consecutive(s, events);
    lemma_wrapping_add_add(s.pending, i, j - i);
    let a = wrapping_add_spec(s.pending, i);
    assert(forward_distance(a, wrapping_add_spec(a, j - i)) == j - i);
}

/// Delivery at most once: after any run, a message that was handed out among
/// the last 32768 deliveries is dropped when it arrives again.
pub proof fn lemma_delivered_message_is_dropped(
    s: OrderedView,
    events: Seq<OrderedEvent>,
    i: int,
)
    requires
        s.wf(),
        0 <= i < s.run(events).delivered.len(),
        s.run(events).delivered.len() - i <= 32768,
    ensures
        s.run(events).state.buffer_recv(MessageView::Single(s.run(events).delivered[i])).state
            == s.run(events).state,
        s.run(events).state.buffer_recv(MessageView::Single(s.run(events).delivered[i])).result
            is Ok,
{
    lemma_deliveries_are_consecutive(s, events);
    let n = s.run(events).delivered.len() as int;
    lemma_wrapping_add_add(s.pending, i, n - i);
    lemma_wrapping_add_is_newer(wrapping_add_spec(s.pending, i), n - i);
}

/// Ordered reliable receiver: every message is handed out, once, in the order
/// of the message ids.
pub struct OrderedReliableReceiver {
    /// Next message id that the receiver waits for.
    pending_recv_message_id: MessageId,
    /// The messages that have arrived and were not read yet.
    recv_message_buffer: BTreeMap<u16, SingleData>,
    fragment_receiver: FragmentReceiver,
}

spec fn buffer_view(buffer: Map<u16, SingleData>) -> Map<u16, SingleView> {
    Map::new(|id: u16| buffer.contains_key(id), |id: u16| buffer[id]@)
}

impl View for OrderedReliableReceiver {
    type V = OrderedView;

    closed spec fn view(&self) -> OrderedView {
        OrderedView {
            pending: self.pending_recv_message_id.0,
            buffer: buffer_view(self.recv_message_buffer@),
            fragments: self.fragment_receiver@,
        }
    }
}

impl OrderedReliableReceiver {
    /// The invariant of the receiver's representation.
    pub closed spec fn wf(&self) -> bool {
        &&& self.fragment_receiver.wf()
        &&& forall|id: u16| #[trigger]
            self.recv_message_buffer@.contains_key(id) ==> self.recv_message_buffer@[id]@.id
                == Some(id)
    }

    /// A well-formed receiver has a well-formed value.
    pub proof fn lemma_view_wf(&self)
        requires
            self.wf(),
        ensures
            self@.wf(),
    {
        self.fragment_receiver.lemma_view_wf();
        assert(self@.buffer.dom() =~= self.recv_message_buffer@.dom());
    }

    /// A receiver that awaits message 0 and holds nothing.
    pub fn new() -> (r: OrderedReliableReceiver)
        ensures
            r.wf(),
            r@ == OrderedView::fresh(),
    {
        let r = OrderedReliableReceiver {
            pending_recv_message_id: MessageId(0),
            recv_message_buffer: BTreeMap::new(),
            fragment_receiver: FragmentReceiver::new(),
        };
        assert(r@.buffer =~= Map::<u16, SingleView>::empty());
        r
    }

    /// Takes a message that arrived on the channel.
    pub fn buffer_recv(&mut self, message: MessageContainer) -> (r: Result<(), ChannelError>)
        requires
            old(self).wf(),
        ensures
            final(self).wf(),
            final(self)@ == old(self)@.buffer_recv(message@).state,
            r == old(self)@.buffer_recv(message@).result,
    {
        let message_id = match message.id() {
            Some(id) => id,
            None => {
                return Err(ChannelError::MissingMessageId);
            },
        };
        // a message that was read before, or that waits in the buffer, is dropped
        if message_id.is_before(self.pending_recv_message_id) {
            return Ok(());
        }
        if self.recv_message_buffer.contains_key(&message_id.0) {
            return Ok(());
        }
        let ghost before = self.recv_message_buffer@;
        match message {
            MessageContainer::Single(data) => {
                self.recv_message_buffer.insert(message_id.0, data);
                assert(buffer_view(self.recv_message_buffer@) =~= buffer_view(before).insert(
                    message_id.0,
                    data@,
                ));
                Ok(())
            },
            MessageContainer::Fragment(data) => {
                match self.fragment_receiver.receive_fragment(data) {
                    Err(e) => Err(e),
                    Ok(None) => Ok(()),
                    Ok(Some(whole)) => {
                        self.recv_message_buffer.insert(message_id.0, whole);
                        assert(buffer_view(self.recv_message_buffer@) =~= buffer_view(
                            before,
                        ).insert(message_id.0, whole@));
                        Ok(())
                    },
                }
            },
        }
    }

    /// Hands out the awaited message if it has arrived.
    pub fn read_message(&mut self) -> (r: Option<SingleData>)
        requires
            old(self).wf(),
        ensures
            final(self).wf(),
            final(self)@ == old(self)@.read_message().state,
            message_view(r) == old(self)@.read_message().message,
    {
        let ghost before = self.recv_message_buffer@;
        let pending: u16 = self.pending_recv_message_id.0;
        match self.recv_message_buffer.remove(&pending) {
            None => {
                assert(self.recv_message_buffer@ =~= before);
                None
            },
            Some(message) => {
                // the awaited message is here: hand it out and wait for the next one
                self.pending_recv_message_id = self.pending_recv_message_id.next();
                assert(buffer_view(self.recv_message_buffer@) =~= buffer_view(before).remove(
                    pending,
                ));
                Some(message)
            },
        }
    }

    /// Sets the reassembler's clock to `now` and gives up the reassemblies
    /// that have waited for `timeout` microseconds or more.
    pub fn collect(&mut self, now: u64, timeout: u64)
        requires
            old(self).wf(),
        ensures
            final(self).wf(),
            final(self)@ == (OrderedView {
                fragments: old(self)@.fragments.collect(now, timeout),
                ..old(self)@
            }),
    {
        self.fragment_receiver.collect(now, timeout);
    }

    /// The id of the next message to hand out.
    pub fn pending_recv_message_id(&self) -> (id: MessageId)
        ensures
            id.0 == self@.pending,
    {
        self.pending_recv_message_id
    }

    /// The number of messages that wait in the buffer.
    pub fn buffered_len(&self) -> (n: usize)
        ensures
            n == self@.buffer.dom().len(),
    {
        assert(self@.buffer.dom() =~= self.recv_message_buffer@.dom());
        self.recv_message_buffer.len()
    }

    /// Whether a message with the id `id` waits in the buffer.
    pub fn is_buffered(&self, id: MessageId) -> (r: bool)
        ensures
            r == self@.buffer.contains_key(id.0),
    {
        self.recv_message_buffer.contains_key(&id.0)
    }
}

} // verus!
