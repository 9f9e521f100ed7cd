//! Receiver of a reliable, unordered channel.
//!
//! Every message is handed out once, in the order in which the messages
//! arrive. The receiver remembers which ids it has seen within a window of
//! ids that starts at the oldest id it has not seen.

use std::collections::{HashSet, VecDeque};
use vstd::prelude::*;
use crate::error::ChannelError;
use crate::fragment_receiver::{
    lemma_receive_keeps_wf, FragmentReceiver, FragmentsView, DEFAULT_SLOT_CAPACITY,
};
use crate::message::{message_view, MessageContainer, MessageView, SingleData, SingleView};
use crate::wrapping_id::{forward_distance, wrapping_add_spec, wrapping_lt, MessageId};

verus! {

/// The number of ids, from the oldest one not seen, that the receiver takes in.
pub const RECEIVE_WINDOW: u16 = 1024;

/// Mathematical value of an unordered reliable receiver.
pub struct UnorderedReliableView {
    /// The oldest id that has not arrived.
    pub oldest: u16,
    /// The ids after the oldest that have arrived.
    pub received: Set<u16>,
    /// The messages that have arrived and were not read yet, oldest arrival first.
    pub queue: Seq<SingleView>,
    /// The reassembler for the channel's fragmented messages.
    pub fragments: FragmentsView,
}

/// An unordered reliable receiver after one arrival, and whether it took the message.
pub struct UnorderedReliableStep {
    pub state: UnorderedReliableView,
    pub result: Result<(), ChannelError>,
}

/// An unordered reliable receiver after one read, and the message it handed out.
pub struct UnorderedReliableRead {
    pub state: UnorderedReliableView,
    pub message: Option<SingleView>,
}

/// The oldest id not seen and the ids seen after it, once the window has
/// moved past every id at its start that has been seen.
pub open spec fn advance(oldest: u16, received: Set<u16>) -> (u16, Set<u16>)
    decreases received.len(),
    when received.finite()
{
    if received.contains(oldest) {
        advance(wrapping_add_spec(oldest, 1), received.remove(oldest))
    } else {
        (oldest, received)
    }
}

/// Whether every id of `received` lies in the window that starts at `oldest`.
pub open spec fn within_window(oldest: u16, received: Set<u16>) -> bool {
    forall|id: u16| #[trigger] received.contains(id) ==> forward_distance(oldest, id) < RECEIVE_WINDOW
}

proof fn lemma_advance(oldest: u16, received: Set<u16>)
    requires
        received.finite(),
        within_window(oldest, received),
    ensures
        advance(oldest, received).1.finite(),
        within_window(advance(oldest, received).0, advance(oldest, received).1),
        !advance(oldest, received).1.contains(advance(oldest, received).0),
        advance(oldest, received).1.subset_of(received),
        forall|id: u16|
            received.contains(id) ==> #[trigger] advance(oldest, received).1.contains(id)
                || wrapping_lt(id, advance(oldest, received).0),
        forall|id: u16|
            wrapping_lt(id, oldest) && forward_distance(id, oldest) <= 32768 - RECEIVE_WINDOW
                ==> #[trigger] wrapping_lt(id, advance(oldest, received).0),
    decreases received.len(),
{
    if received.contains(oldest) {
        let next = wrapping_add_spec(oldest, 1);
        let rest = received.remove(oldest);
        assert(within_window(next, rest)) by {
            assert forall|id: u16| #[trigger] rest.contains(id) implies forward_distance(next, id)
                < RECEIVE_WINDOW by {
                assert(received.contains(id));
            }
        }
        lemma_advance(next, rest);
        let end = advance(next, rest).0;
        lemma_advance_distance(oldest, received);
        lemma_advance_distance(next, rest);
        assert(forward_distance(oldest, end) == forward_distance(next, end) + 1);
        assert(1 <= forward_distance(oldest, end) <= RECEIVE_WINDOW);
        assert forall|id: u16| received.contains(id) implies #[trigger] advance(
            oldest,
            received,
        ).1.contains(id) || wrapping_lt(id, end) by {
            if id == oldest {
                lemma_advance_distance(next, rest);
            } else {
                assert(rest.contains(id));
            }
        }
    }
}

proof fn lemma_advance_distance(oldest: u16, received: Set<u16>)
    requires
        received.finite(),
        within_window(oldest, received),
    ensures
        forward_distance(oldest, advance(oldest, received).0) <= received.len(),
        received.len() <= RECEIVE_WINDOW,
    decreases received.len(),
{
    lemma_window_size(oldest, received);
    if received.contains(oldest) {
        let next = wrapping_add_spec(oldest, 1);
        let rest = received.remove(oldest);
        assert(within_window(next, rest)) by {
            assert forall|id: u16| #[trigger] rest.contains(id) implies forward_distance(next, id)
                < RECEIVE_WINDOW by {
                assert(received.contains(id));
            }
        }
        lemma_advance_distance(next, rest);
    }
}

proof fn lemma_window_size(oldest: u16, received: Set<u16>)
    requires
        received.finite(),
        within_window(oldest, received),
    ensures
        received.len() <= RECEIVE_WINDOW,
{
    let window = Set::new(|id: u16| forward_distance(oldest, id) < RECEIVE_WINDOW);
    let offsets = Set::new(|d: int| 0 <= d < RECEIVE_WINDOW);
    assert(offsets =~= vstd::set_lib::set_int_range(0, RECEIVE_WINDOW as int));
    vstd::set_lib::lemma_int_range(0, RECEIVE_WINDOW as int);
    let f = |d: int| wrapping_add_spec(oldest, d);
    assert(window =~= offsets.map(f)) by {
        assert forall|id: u16| window.contains(id) implies offsets.map(f).contains(id) by {
            let d = forward_distance(oldest, id);
            assert(offsets.contains(d) && f(d) == id);
        }
        assert forall|id: u16| offsets.map(f).contains(id) implies window.contains(id) by {
            let d = choose|d: int| offsets.contains(d) && f(d) == id;
            assert(forward_distance(oldest, id) == d);
        }
    }
    vstd::set_lib::lemma_map_size_bound(offsets, window, f);
    assert(received.subset_of(window));
    assert(window.finite()) by {
        offsets.lemma_map_finite(f);
    }
    vstd::set_lib::lemma_len_subset(received, window);
}

impl UnorderedReliableView {
    /// A receiver that has seen nothing and awaits the id 0 as the oldest.
    pub open spec fn fresh() -> UnorderedReliableView {
        UnorderedReliableView {
            oldest: 0,
            received: Set::empty(),
            queue: Seq::empty(),
            fragments: FragmentsView::fresh(DEFAULT_SLOT_CAPACITY as nat),
        }
    }

    /// What holds of a receiver at any time: the ids that it remembers lie
    /// within the window after the oldest id not seen.
    pub open spec fn wf(self) -> bool {
        &&& self.fragments.wf()
        &&& self.received.finite()
        &&& within_window(self.oldest, self.received)
        &&& !self.received.contains(self.oldest)
    }

    /// Whether a message with the id `id` has arrived before: the id is older
    /// than the oldest not seen, or remembered.
    pub open spec fn has_seen(self, id: u16) -> bool {
        wrapping_lt(id, self.oldest) || self.received.contains(id)
    }

    /// The receiver once the whole message `data` with the id `id` is taken:
    /// it joins the queue, its id is remembered, and the window moves on.
    pub open spec fn take(self, id: u16, data: SingleView) -> UnorderedReliableView {
        let moved = advance(self.oldest, self.received.insert(id));
        UnorderedReliableView {
            oldest: moved.0,
            received: moved.1,
            queue: self.queue.push(data),
            ..self
        }
    }

    /// The receiver after the message `m` arrives.
    ///
    /// A message without an id is refused. One that has arrived before is
    /// dropped. One whose id lies beyond the window breaks the protocol and is
    /// refused. Any other whole message is taken; a fragment goes to the
    /// reassembler, and the message it completes, if any, is taken. If the
    /// reassembler refuses the fragment, nothing changes.
    pub open spec fn buffer_recv(self, m: MessageView) -> UnorderedReliableStep {
        match m.id() {
            None => UnorderedReliableStep {
                state: self,
                result: Err(ChannelError::MissingMessageId),
            },
            Some(id) => if self.has_seen(id) {
                UnorderedReliableStep { state: self, result: Ok(()) }
            } else if forward_distance(self.oldest, id) >= RECEIVE_WINDOW {
                UnorderedReliableStep {
                    state: self,
                    result: Err(ChannelError::MessageIdOutsideWindow),
                }
            } else {
                match m {
                    MessageView::Single(data) => UnorderedReliableStep {
                        state: self.take(id, data),
                        result: Ok(()),
                    },
                    MessageView::Fragment(f) => {
                        let step = self.fragments.receive(f);
                        match step.result {
                            Err(e) => UnorderedReliableStep { state: self, result: Err(e) },
                            Ok(None) => UnorderedReliableStep {
                                state: UnorderedReliableView { fragments: step.state, ..self },
                                result: Ok(()),
                            },
                            Ok(Some(whole)) => UnorderedReliableStep {
                                state: (UnorderedReliableView {
                                    fragments: step.state,
                                    ..self
                                }).take(id, whole),
                                result: Ok(()),
                            },
                        }
                    },
                }
            },
        }
    }

    /// The receiver after one read: the message that arrived first leaves the
    /// queue, if there is one.
    pub open spec fn read_message(self) -> UnorderedReliableRead {
        if self.queue.len() > 0 {
            UnorderedReliableRead {
                state: UnorderedReliableView { queue: self.queue.drop_first(), ..self },
                message: Some(self.queue[0]),
            }
        } else {
            UnorderedReliableRead { state: self, message: None }
        }
    }
}

/// An arrival keeps the receiver well formed and loses nothing of what
/// waits; a refused message changes nothing.
pub proof fn lemma_arrival_keeps_wf(s: UnorderedReliableView, m: MessageView)
    requires
        s.wf(),
    ensures
        s.buffer_recv(m).state.wf(),
        s.buffer_recv(m).result is Err ==> s.buffer_recv(m).state == s,
        s.buffer_recv(m).state.queue.len() >= s.queue.len(),
{
    match m.id() {
        None => {},
        Some(id) => {
            if !s.has_seen(id) && forward_distance(s.oldest, id) < RECEIVE_WINDOW {
                let marked = s.received.insert(id);
                assert(within_window(s.oldest, marked));
                lemma_advance(s.oldest, marked);
                match m {
                    MessageView::Single(data) => {},
                    MessageView::Fragment(f) => {
                        lemma_receive_keeps_wf(s.fragments, f);
                    },
                }
            }
        },
    }
}

/// Once only. A whole message that the receiver has taken is dropped when
/// it arrives again: the second arrival changes nothing.
pub proof fn lemma_taken_once(s: UnorderedReliableView, data: SingleView)
    requires
        s.wf(),
        data.id is Some,
        !s.has_seen(data.id.unwrap()),
        forward_distance(s.oldest, data.id.unwrap()) < RECEIVE_WINDOW,
    ensures
        s.buffer_recv(MessageView::Single(data)).state.queue == s.queue.push(data),
        s.buffer_recv(MessageView::Single(data)).state.has_seen(data.id.unwrap()),
        s.buffer_recv(MessageView::Single(data)).state.buffer_recv(MessageView::Single(data)).state
            == s.buffer_recv(MessageView::Single(data)).state,
{
    let id = data.id.unwrap();
    let marked = s.received.insert(id);
    assert(within_window(s.oldest, marked));
    lemma_advance(s.oldest, marked);
    assert(marked.contains(id));
}

/// Unordered reliable receiver: every message is handed out once, in the
/// order of arrival.
pub struct UnorderedReliableReceiver {
    /// The oldest message id that has not arrived.
    oldest_missing_message_id: MessageId,
    /// The ids after the oldest missing one that have arrived.
    received_message_ids: HashSet<u16>,
    recv_message_buffer: VecDeque<SingleData>,
    fragment_receiver: FragmentReceiver,
}

spec fn queue_view(queue: Seq<SingleData>) -> Seq<SingleView> {
    Seq::new(queue.len(), |i: int| queue[i]@)
}

impl View for UnorderedReliableReceiver {
    type V = UnorderedReliableView;

    closed spec fn view(&self) -> UnorderedReliableView {
        UnorderedReliableView {
            oldest: self.oldest_missing_message_id.0,
            received: self.received_message_ids@,
            queue: queue_view(self.recv_message_buffer@),
            fragments: self.fragment_receiver@,
        }
    }
}

impl UnorderedReliableReceiver {
    /// The invariant of the receiver's representation.
    pub closed spec fn wf(&self) -> bool {
        &&& self.fragment_receiver.wf()
        &&& self.received_message_ids@.finite()
        &&& within_window(self.oldest_missing_message_id.0, self.received_message_ids@)
        &&& !self.received_message_ids@.contains(self.oldest_missing_message_id.0)
    }

    /// A well-formed receiver has a well-formed value.
    pub proof fn lemma_view_wf(&self)
        requires
            self.wf(),
        ensures
            self@.wf(),
    {
        self.fragment_receiver.lemma_view_wf();
    }

    /// A receiver that has seen nothing.
    pub fn new() -> (r: UnorderedReliableReceiver)
        ensures
            r.wf(),
            r@ == UnorderedReliableView::fresh(),
    {
        let r = UnorderedReliableReceiver {
            oldest_missing_message_id: MessageId(0),
            received_message_ids: HashSet::new(),
            recv_message_buffer: VecDeque::new(),
            fragment_receiver: FragmentReceiver::new(),
        };
        assert(r@.queue =~= Seq::<SingleView>::empty());
        r
    }

    fn take(&mut self, id: MessageId, data: SingleData)
        requires
            old(self).received_message_ids@.finite(),
            within_window(old(self).oldest_missing_message_id.0, old(self).received_message_ids@),
            forward_distance(old(self).oldest_missing_message_id.0, id.0) < RECEIVE_WINDOW,
        ensures
            final(self)@ == old(self)@.take(id.0, data@),
            final(self).fragment_receiver == old(self).fragment_receiver,
    {
        let ghost before = self.recv_message_buffer@;
        self.recv_message_buffer.push_back(data);
        assert(queue_view(self.recv_message_buffer@) =~= queue_view(before).push(data@));
        self.received_message_ids.insert(id.0);
        let ghost start_oldest = self.oldest_missing_message_id.0;
        let ghost start_received = self.received_message_ids@;
        assert(within_window(start_oldest, start_received));
        while self.received_message_ids.contains(&self.oldest_missing_message_id.0)
            invariant
                self.received_message_ids@.finite(),
                within_window(self.oldest_missing_message_id.0, self.received_message_ids@),
                advance(start_oldest, start_received) == advance(
                    self.oldest_missing_message_id.0,
                    self.received_message_ids@,
                ),
                self.recv_message_buffer@ == before.push(data),
                self.fragment_receiver == old(self).fragment_receiver,
            decreases self.received_message_ids@.len(),
        {
            let oldest = self.oldest_missing_message_id;
            let ghost received = self.received_message_ids@;
            self.received_message_ids.remove(&oldest.0);
            self.oldest_missing_message_id = oldest.next();
            proof {
                assert forall|other: u16| #[trigger]
                    self.received_message_ids@.contains(other) implies forward_distance(
                    self.oldest_missing_message_id.0,
                    other,
                ) < RECEIVE_WINDOW by {
                    assert(received.contains(other));
                }
            }
        }
    }

    /// Takes a message that arrived on the channel.
    pub fn buffer_recv(&mut self, message: MessageContainer) -> (r: Result<(), ChannelError>)
        requires
            old(self).wf(),
        ensures
            final(self).wf(),
            final(self)@ == old(self)@.buffer_recv(message@).state,
            r == old(self)@.buffer_recv(message@).result,
    {
        proof {
            self.lemma_view_wf();
            lemma_arrival_keeps_wf(self@, message@);
        }
        let message_id = match message.id() {
            Some(id) => id,
            None => {
                return Err(ChannelError::MissingMessageId);
            },
        };
        if message_id.is_before(self.oldest_missing_message_id)
            || self.received_message_ids.contains(&message_id.0) {
            return Ok(());
        }
        let offset: u16 = message_id.0.wrapping_sub(self.oldest_missing_message_id.0);
        if offset >= RECEIVE_WINDOW {
            return Err(ChannelError::MessageIdOutsideWindow);
        }
        match message {
            MessageContainer::Single(data) => {
                self.take(message_id, data);
                Ok(())
            },
            MessageContainer::Fragment(data) => {
                match self.fragment_receiver.receive_fragment(data) {
                    Err(e) => Err(e),
                    Ok(None) => Ok(()),
                    Ok(Some(whole)) => {
                        self.take(message_id, whole);
                        Ok(())
                    },
                }
            },
        }
    }

    /// Hands out the message that arrived first, if any waits.
    pub fn read_message(&mut self) -> (r: Option<SingleData>)
        requires
            old(self).wf(),
        ensures
            final(self).wf(),
            final(self)@ == old(self)@.read_message().state,
            message_view(r) == old(self)@.read_message().message,
    {
        let ghost before = self.recv_message_buffer@;
        let r = self.recv_message_buffer.pop_front();
        proof {
            if before.len() > 0 {
                assert(queue_view(self.recv_message_buffer@) =~= queue_view(before).drop_first());
            }
        }
        r
    }

    /// Sets the reassembler's clock to `now` and gives up the reassemblies
    /// that have waited for `timeout` microseconds or more.
    pub fn collect(&mut self, now: u64, timeout: u64)
        requires
            old(self).wf(),
        ensures
            final(self).wf(),
            final(self)@ == (UnorderedReliableView {
                fragments: old(self)@.fragments.collect(now, timeout),
                ..old(self)@
            }),
    {
        self.fragment_receiver.collect(now, timeout);
    }

    /// The oldest message id that has not arrived.
    pub fn oldest_missing_message_id(&self) -> (id: MessageId)
        ensures
            id.0 == self@.oldest,
    {
        self.oldest_missing_message_id
    }

    /// The number of messages that wait to be read.
    pub fn buffered_len(&self) -> (n: usize)
        ensures
            n == self@.queue.len(),
    {
        self.recv_message_buffer.len()
    }
}

} // verus!
