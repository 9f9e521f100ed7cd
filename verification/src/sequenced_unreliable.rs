//! Receiver of an unreliable, sequenced channel.
//!
//! Messages are handed out in the order in which they arrive, but a message
//! that is older than the most recent one seen is dropped.

use std::collections::VecDeque;
use vstd::prelude::*;
use crate::error::ChannelError;
use crate::fragment_receiver::{
    lemma_receive_keeps_wf, FragmentReceiver, FragmentsView, DEFAULT_SLOT_CAPACITY,
};
use crate::message::{message_view, MessageContainer, MessageView, SingleData, SingleView};
use crate::wrapping_id::{lemma_wrapping_trichotomy, wrapping_lt, MessageId};

verus! {

/// Mathematical value of a sequenced unreliable receiver.
pub struct SequencedView {
    /// The most recent message id seen so far.
    pub most_recent: u16,
    /// The messages that have arrived and were not read yet, oldest arrival first.
    pub queue: Seq<SingleView>,
    /// The reassembler for the channel's fragmented messages.
    pub fragments: FragmentsView,
}

/// A sequenced receiver after one arrival, and whether it took the message.
pub struct SequencedStep {
    pub state: SequencedView,
    pub result: Result<(), ChannelError>,
}

/// A sequenced receiver after one read, and the message it handed out.
pub struct SequencedRead {
    pub state: SequencedView,
    pub message: Option<SingleView>,
}

impl SequencedView {
    /// A receiver that has seen no id but 0 and holds nothing.
    pub open spec fn fresh() -> SequencedView {
        SequencedView {
            most_recent: 0,
            queue: Seq::empty(),
            fragments: FragmentsView::fresh(DEFAULT_SLOT_CAPACITY as nat),
        }
    }

    /// What holds of a receiver at any time: every queued message carries an
    /// id, and the reassembler is well formed.
    pub open spec fn wf(self) -> bool {
        &&& self.fragments.wf()
        &&& forall|i: int| 0 <= i < self.queue.len() ==> (#[trigger] self.queue[i]).id is Some
    }

    /// The most recent id once a message with the id `id` was taken.
    pub open spec fn advanced(self, id: u16) -> u16 {
        if wrapping_lt(self.most_recent, id) {
            id
        } else {
            self.most_recent
        }
    }

    /// The receiver after the message `m` arrives.
    ///
    /// A message without an id is refused. One that is older than the most
    /// recent id seen is dropped. Any other moves the most recent id forward
    /// to its own; a whole message joins the queue, a fragment goes to the
    /// reassembler, and the message it completes, if any, joins the queue. If
    /// the reassembler refuses the fragment, nothing changes.
    pub open spec fn buffer_recv(self, m: MessageView) -> SequencedStep {
        match m {
            MessageView::Single(data) => match data.id {
                None => SequencedStep { state: self, result: Err(ChannelError::MissingMessageId) },
                Some(id) => if wrapping_lt(id, self.most_recent) {
                    SequencedStep { state: self, result: Ok(()) }
                } else {
                    SequencedStep {
                        state: SequencedView {
                            most_recent: self.advanced(id),
                            queue: self.queue.push(data),
                            ..self
                        },
                        result: Ok(()),
                    }
                },
            },
            MessageView::Fragment(f) => if wrapping_lt(f.message_id, self.most_recent) {
                SequencedStep { state: self, result: Ok(()) }
            } else {
                let step = self.fragments.receive(f);
                match step.result {
                    Err(e) => SequencedStep { state: self, result: Err(e) },
                    Ok(None) => SequencedStep {
                        state: SequencedView {
                            most_recent: self.advanced(f.message_id),
                            fragments: step.state,
                            ..self
                        },
                        result: Ok(()),
                    },
                    Ok(Some(whole)) => SequencedStep {
                        state: SequencedView {
                            most_recent: self.advanced(f.message_id),
                            queue: self.queue.push(whole),
                            fragments: step.state,
                        },
                        result: Ok(()),
                    },
                }
            },
        }
    }

    /// The receiver after one read: the message that arrived first leaves the
    /// queue, if there is one.
    pub open spec fn read_message(self) -> SequencedRead {
        if self.queue.len() > 0 {
            SequencedRead {
                state: SequencedView { queue: self.queue.drop_first(), ..self },
                message: Some(self.queue[0]),
            }
        } else {
            SequencedRead { state: self, message: None }
        }
    }
}

/// Whether no message of `messages` is older than the one before it.
pub open spec fn never_older(messages: Seq<SingleView>) -> bool {
    forall|i: int|
        0 <= i < messages.len() - 1 ==> (#[trigger] messages[i]).id is Some && messages[i + 1].id
            is Some && !wrapping_lt(messages[i + 1].id.unwrap(), messages[i].id.unwrap())
}

/// One thing that happens to a receiver: a message arrives, or the application reads.
pub enum SequencedEvent {
    Arrival(MessageView),
    Read,
}

/// A receiver after a run of events, and the messages it handed out, first one first.
pub struct SequencedTrace {
    pub state: SequencedView,
    pub delivered: Seq<SingleView>,
}

/// Whether every arrival among the events is a whole message.
pub open spec fn whole_messages_only(events: Seq<SequencedEvent>) -> bool {
    forall|k: int|
        0 <= k < events.len() ==> match #[trigger] events[k] {
            SequencedEvent::Arrival(MessageView::Fragment(_)) => false,
            _ => true,
        }
}

impl SequencedView {
    /// Whether the queue holds its messages in sequence: none is older than
    /// the one before it, and the last one carries the most recent id.
    pub open spec fn in_sequence(self) -> bool {
        &&& never_older(self.queue)
        &&& self.queue.len() > 0 ==> self.queue.last().id == Some(self.most_recent)
    }

    /// The receiver after the events `events`, in their order, and what the
    /// reads among them handed out.
    pub open spec fn run(self, events: Seq<SequencedEvent>) -> SequencedTrace
        decreases events.len(),
    {
        if events.len() == 0 {
            SequencedTrace { state: self, delivered: Seq::empty() }
        } else {
            let before = self.run(events.drop_last());
            match events.last() {
                SequencedEvent::Arrival(m) => SequencedTrace {
                    state: before.state.buffer_recv(m).state,
                    delivered: before.delivered,
                },
                SequencedEvent::Read => {
                    let read = before.state.read_message();
                    SequencedTrace {
                        state: read.state,
                        delivered: match read.message {
                            Some(m) => before.delivered.push(m),
                            None => before.delivered,
                        },
                    }
                },
            }
        }
    }
}

/// An arrival never moves the most recent id backward, and a message that
/// joins the queue is not older than the most recent id seen before it and
/// carries the most recent id seen after it. A refused message changes nothing.
pub proof fn lemma_arrival_moves_forward(s: SequencedView, m: MessageView)
    requires
        s.wf(),
    ensures
        s.buffer_recv(m).state.wf(),
        s.buffer_recv(m).state.most_recent == s.most_recent || wrapping_lt(
            s.most_recent,
            s.buffer_recv(m).state.most_recent,
        ),
        s.buffer_recv(m).result is Err ==> s.buffer_recv(m).state == s,
        s.buffer_recv(m).state.queue == s.queue || ({
            let t = s.buffer_recv(m).state;
            &&& t.queue.len() == s.queue.len() + 1
            &&& t.queue.drop_last() == s.queue
            &&& t.queue.last().id == Some(t.most_recent)
            &&& !wrapping_lt(t.most_recent, s.most_recent)
        }),
{
    let t = s.buffer_recv(m).state;
    match m {
        MessageView::Single(data) => {
            if data.id is Some && !wrapping_lt(data.id.unwrap(), s.most_recent) {
                lemma_wrapping_trichotomy(data.id.unwrap(), s.most_recent);
                assert(t.queue.drop_last() =~= s.queue);
            }
        },
        MessageView::Fragment(f) => {
            lemma_receive_keeps_wf(s.fragments, f);
            if !wrapping_lt(f.message_id, s.most_recent) {
                lemma_wrapping_trichotomy(f.message_id, s.most_recent);
                match s.fragments.receive(f).result {
                    Ok(Some(whole)) => {
                        assert(t.queue.drop_last() =~= s.queue);
                    },
                    _ => {},
                }
            }
        },
    }
}

/// A read keeps the receiver well formed and its most recent id.
pub proof fn lemma_read_keeps_most_recent(s: SequencedView)
    requires
        s.wf(),
    ensures
        s.read_message().state.wf(),
        s.read_message().state.most_recent == s.most_recent,
        s.read_message().message is Some ==> s.read_message().message.unwrap().id is Some,
{
    if s.queue.len() > 0 {
        let t = s.read_message().state;
        assert forall|i: int| 0 <= i < t.queue.len() implies (#[trigger] t.queue[i]).id is Some by {
            assert(s.queue[i + 1].id is Some);
        }
    }
}

/// Sequenced delivery: on a channel that carries whole messages only, no
/// message handed out is older than the one handed out before it; its id is
/// the same or newer.
pub proof fn lemma_deliveries_never_older(s: SequencedView, events: Seq<SequencedEvent>)
    requires
        s.wf(),
        s.in_sequence(),
        whole_messages_only(events),
    ensures
        s.run(events).state.wf(),
        never_older(s.run(events).delivered + s.run(events).state.queue),
        never_older(s.run(events).delivered),
        s.run(events).state.queue.len() > 0 ==> s.run(events).state.queue.last().id == Some(
            s.run(events).state.most_recent,
        ),
        s.run(events).state.queue.len() == 0 && s.run(events).delivered.len() > 0
            ==> s.run(events).delivered.last().id == Some(s.run(events).state.most_recent),
    decreases events.len(),
{
    let after = s.run(events);
    if events.len() == 0 {
        assert(after.delivered + after.state.queue =~= s.queue);
    } else {
        let front = events.drop_last();
        assert(whole_messages_only(front)) by {
            assert forall|k: int| 0 <= k < front.len() implies match #[trigger] front[k] {
                SequencedEvent::Arrival(MessageView::Fragment(_)) => false,
                _ => true,
            } by {
                assert(front[k] == events[k]);
            }
        }
        lemma_deliveries_never_older(s, front);
        let before = s.run(front);
        let all_before = before.delivered + before.state.queue;
        let all_after = after.delivered + after.state.queue;
        assert(events[events.len() - 1] == events.last());
        match events.last() {
            SequencedEvent::Arrival(m) => {
                lemma_arrival_moves_forward(before.state, m);
                match m {
                    MessageView::Single(data) => {
                        if data.id is Some && !wrapping_lt(data.id.unwrap(), before.state.most_recent) {
                            assert(all_after =~= all_before.push(data));
                            lemma_wrapping_trichotomy(data.id.unwrap(), before.state.most_recent);
                            assert forall|i: int| 0 <= i < all_after.len() - 1 implies (
                            #[trigger] all_after[i]).id is Some && all_after[i + 1].id is Some
                                && !wrapping_lt(
                                all_after[i + 1].id.unwrap(),
                                all_after[i].id.unwrap(),
                            ) by {
                                if i < all_before.len() - 1 {
                                    assert(all_before[i].id is Some);
                                    assert(all_after[i] == all_before[i]);
                                    assert(all_after[i + 1] == all_before[i + 1]);
                                } else {
                                    assert(all_after[i] == all_before.last());
                                    if before.state.queue.len() > 0 {
                                        assert(all_before.last() == before.state.queue.last());
                                    } else {
                                        assert(all_before =~= before.delivered);
                                    }
                                }
                            }
                        }
                    },
                    MessageView::Fragment(f) => {},
                }
            },
            SequencedEvent::Read => {
                lemma_read_keeps_most_recent(before.state);
                if before.state.queue.len() > 0 {
                    assert(all_after =~= all_before);
                    assert(after.state.queue.len() > 0 ==> after.state.queue.last()
                        == before.state.queue.last());
                    if after.state.queue.len() == 0 {
                        assert(after.delivered.last() == before.state.queue.last());
                    }
                }
            },
        }
    }
    let d = after.delivered;
    let all = d + after.state.queue;
    assert forall|i: int| 0 <= i < d.len() - 1 implies (#[trigger] d[i]).id is Some && d[i + 1].id
        is Some && !wrapping_lt(d[i + 1].id.unwrap(), d[i].id.unwrap()) by {
        assert(all[i].id is Some);
        assert(all[i] == d[i] && all[i + 1] == d[i + 1]);
    }
}

/// Two messages that a channel of whole messages hands out one after the
/// other carry the same id, or the second carries the newer one.
pub proof fn lemma_successive_deliveries(s: SequencedView, events: Seq<SequencedEvent>, i: int)
    requires
        s.wf(),
        s.in_sequence(),
        whole_messages_only(events),
        0 <= i < s.run(events).delivered.len() - 1,
    ensures
        ({
            let first = s.run(events).delivered[i].id.unwrap();
            let second = s.run(events).delivered[i + 1].id.unwrap();
            first == second || wrapping_lt(first, second)
        }),
{
    lemma_deliveries_never_older(s, events);
    let d = s.run(events).delivered;
    assert(d[i].id is Some);
    lemma_wrapping_trichotomy(d[i].id.unwrap(), d[i + 1].id.unwrap());
}

/// Sequenced unreliable receiver: messages are not put back in order, but
/// those older than the most recent one received are ignored.
pub struct SequencedUnreliableReceiver {
    /// The messages that have arrived and were not read yet.
    recv_message_buffer: VecDeque<SingleData>,
    /// Highest message id received so far.
    most_recent_message_id: MessageId,
    fragment_receiver: FragmentReceiver,
}

spec fn queue_view(queue: Seq<SingleData>) -> Seq<SingleView> {
    Seq::new(queue.len(), |i: int| queue[i]@)
}

impl View for SequencedUnreliableReceiver {
    type V = SequencedView;

    closed spec fn view(&self) -> SequencedView {
        SequencedView {
            most_recent: self.most_recent_message_id.0,
            queue: queue_view(self.recv_message_buffer@),
            fragments: self.fragment_receiver@,
        }
    }
}

impl SequencedUnreliableReceiver {
    /// The invariant of the receiver's representation.
    pub closed spec fn wf(&self) -> bool {
        &&& self.fragment_receiver.wf()
        &&& forall|i: int|
            0 <= i < self.recv_message_buffer@.len() ==> (
            #[trigger] self.recv_message_buffer@[i])@.id is Some
    }

    /// A well-formed receiver has a well-formed value.
    pub proof fn lemma_view_wf(&self)
        requires
            self.wf(),
        ensures
            self@.wf(),
    {
        self.fragment_receiver.lemma_view_wf();
        assert forall|i: int| 0 <= i < self@.queue.len() implies (#[trigger] self@.queue[i]).id is Some by {
            assert(self.recv_message_buffer@[i]@.id is Some);
        }
    }

    /// A receiver that has seen no id but 0 and holds nothing.
    pub fn new() -> (r: SequencedUnreliableReceiver)
        ensures
            r.wf(),
            r@ == SequencedView::fresh(),
    {
        let r = SequencedUnreliableReceiver {
            recv_message_buffer: VecDeque::new(),
            most_recent_message_id: MessageId(0),
            fragment_receiver: FragmentReceiver::new(),
        };
        assert(r@.queue =~= Seq::<SingleView>::empty());
        r
    }

    /// Takes a message that arrived on the channel.
    pub fn buffer_recv(&mut self, message: MessageContainer) -> (r: Result<(), ChannelError>)
        requires
            old(self).wf(),
        ensures
            final(self).wf(),
            final(self)@ == old(self)@.buffer_recv(message@).state,
            r == old(self)@.buffer_recv(message@).result,
    {
        let message_id = match message.id() {
            Some(id) => id,
            None => {
                return Err(ChannelError::MissingMessageId);
            },
        };
        // a message that is too old is ignored
        if message_id.is_before(self.most_recent_message_id) {
            return Ok(());
        }
        let newer = message_id.is_after(self.most_recent_message_id);
        let ghost before = self.recv_message_buffer@;
        match message {
            MessageContainer::Single(data) => {
                if newer {
                    self.most_recent_message_id = message_id;
                }
                self.recv_message_buffer.push_back(data);
                assert(queue_view(self.recv_message_buffer@) =~= queue_view(before).push(data@));
                Ok(())
            },
            MessageContainer::Fragment(data) => {
                match self.fragment_receiver.receive_fragment(data) {
                    Err(e) => Err(e),
                    Ok(arrived) => {
                        if newer {
                            self.most_recent_message_id = message_id;
                        }
                        if let Some(whole) = arrived {
                            self.recv_message_buffer.push_back(whole);
                            assert(queue_view(self.recv_message_buffer@) =~= queue_view(
                                before,
                            ).push(whole@));
                        }
                        Ok(())
                    },
                }
            },
        }
    }

    /// Hands out the message that arrived first, if any waits.
    pub fn read_message(&mut self) -> (r: Option<SingleData>)
        requires
            old(self).wf(),
        ensures
            final(self).wf(),
            final(self)@ == old(self)@.read_message().state,
            message_view(r) == old(self)@.read_message().message,
    {
        let ghost before = self.recv_message_buffer@;
        let r = self.recv_message_buffer.pop_front();
        proof {
            if before.len() > 0 {
                assert(queue_view(self.recv_message_buffer@) =~= queue_view(before).drop_first());
            }
        }
        r
    }

    /// Sets the reassembler's clock to `now` and gives up the reassemblies
    /// that have waited for `timeout` microseconds or more.
    pub fn collect(&mut self, now: u64, timeout: u64)
        requires
            old(self).wf(),
        ensures
            final(self).wf(),
            final(self)@ == (SequencedView {
                fragments: old(self)@.fragments.collect(now, timeout),
                ..old(self)@
            }),
    {
        self.fragment_receiver.collect(now, timeout);
    }

    /// The most recent message id seen so far.
    pub fn most_recent_message_id(&self) -> (id: MessageId)
        ensures
            id.0 == self@.most_recent,
    {
        self.most_recent_message_id
    }

    /// The number of messages that wait to be read.
    pub fn buffered_len(&self) -> (n: usize)
        ensures
            n == self@.queue.len(),
    {
        self.recv_message_buffer.len()
    }
}

} // verus!
