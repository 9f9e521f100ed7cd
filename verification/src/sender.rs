//! The sending side of a channel.
//!
//! A sender gives every message the next id of its channel and queues it. An
//! unreliable channel sends each message once. A reliable channel keeps a
//! message until the peer has acknowledged a packet that carried it, and sends
//! it again whenever too much time has passed since it was last sent.

use vstd::prelude::*;
use crate::fragment_sender::{
    fragment_count, fragments_of, fragments_view, split_payload, FRAGMENT_SIZE, MAX_FRAGMENTS,
};
use crate::message::{FragmentData, MessageContainer, MessageView, SingleData};
use crate::wrapping_id::{wrapping_add_spec, MessageId};

verus! {

/// Largest number of messages of one reliable channel that may wait for
/// their acknowledgement at once.
pub const MAX_OUTSTANDING: usize = 1024;

/// Mathematical value of a queued message.
pub struct OutgoingView {
    pub message: MessageView,
    /// When the message was last sent, in microseconds, if it was sent at all.
    pub last_sent: Option<u64>,
}

/// Mathematical value of a channel's sender.
pub struct SenderView {
    /// Whether the channel sends its messages again until they are acknowledged.
    pub reliable: bool,
    /// The id that the next message gets.
    pub next_id: u16,
    /// The messages that wait to be sent or acknowledged, oldest first.
    pub queue: Seq<OutgoingView>,
}

/// Why a sender refuses a message.
#[derive(Clone, Copy, Debug, PartialEq, Eq, Structural)]
pub enum QueueError {
    /// Too many messages of the channel wait for their acknowledgement.
    TooManyUnacked,
    /// The message would make more fragments than a message can have.
    MessageTooLarge,
}

/// A sender after a message was handed to it.
pub struct QueueStep {
    pub state: SenderView,
    pub result: Result<u16, QueueError>,
}

/// What travels for the message `m` under the id `id`: the message itself,
/// or its fragments where it is whole and too large for one packet.
pub open spec fn outgoing_parts(m: MessageView, id: u16) -> Seq<MessageView> {
    match m {
        MessageView::Single(data) => if data.bytes.len() > FRAGMENT_SIZE {
            Seq::new(
                fragment_count(data.bytes.len() as int, FRAGMENT_SIZE as int) as nat,
                |i: int|
                    MessageView::Fragment(
                        fragments_of(id, data.tick, data.bytes, FRAGMENT_SIZE as int)[i],
                    ),
            )
        } else {
            seq![m.with_id(id)]
        },
        MessageView::Fragment(_) => seq![m.with_id(id)],
    }
}

/// Whether the message `m` is too large to be sent at all.
pub open spec fn too_large(m: MessageView) -> bool {
    match m {
        MessageView::Single(data) => fragment_count(data.bytes.len() as int, FRAGMENT_SIZE as int)
            > MAX_FRAGMENTS,
        MessageView::Fragment(_) => false,
    }
}

/// The number of bytes of the payload of `m`.
pub open spec fn payload_len(m: MessageView) -> nat {
    match m {
        MessageView::Single(data) => data.bytes.len(),
        MessageView::Fragment(data) => data.bytes.len(),
    }
}

/// The queue entries of messages that were not sent yet.
pub open spec fn unsent(parts: Seq<MessageView>) -> Seq<OutgoingView> {
    Seq::new(parts.len(), |i: int| OutgoingView { message: parts[i], last_sent: None })
}

/// Which part of which message a record speaks of: the whole message, or one
/// of its fragments.
pub open spec fn names(m: MessageView, message_id: u16, fragment: Option<u8>) -> bool {
    match m {
        MessageView::Single(data) => data.id == Some(message_id) && fragment is None,
        MessageView::Fragment(data) => data.message_id == message_id && fragment == Some(
            data.fragment_id,
        ),
    }
}

/// The queue without the entries that `message_id` and `fragment` name.
pub open spec fn without(queue: Seq<OutgoingView>, message_id: u16, fragment: Option<u8>) -> Seq<
    OutgoingView,
>
    decreases queue.len(),
{
    if queue.len() == 0 {
        Seq::empty()
    } else if names(queue.last().message, message_id, fragment) {
        without(queue.drop_last(), message_id, fragment)
    } else {
        without(queue.drop_last(), message_id, fragment).push(queue.last())
    }
}

impl SenderView {
    /// A sender that has queued nothing; its first message gets the id 0.
    pub open spec fn fresh(reliable: bool) -> SenderView {
        SenderView { reliable, next_id: 0, queue: Seq::empty() }
    }

    /// What holds of a sender at any time: a reliable one holds no more
    /// messages than may wait at once, an unreliable one holds only messages
    /// that were not sent yet.
    pub open spec fn wf(self) -> bool {
        &&& self.reliable ==> self.queue.len() <= MAX_OUTSTANDING
        &&& !self.reliable ==> forall|i: int|
            0 <= i < self.queue.len() ==> (#[trigger] self.queue[i]).last_sent is None
        &&& forall|i: int| 0 <= i < self.queue.len() ==> (#[trigger] self.queue[i]).message.id() is Some
    }

    /// Whether the sender can take `count` entries more.
    pub open spec fn has_room(self, count: nat) -> bool {
        !self.reliable || self.queue.len() + count <= MAX_OUTSTANDING
    }

    /// The sender after the message `m` was handed to it: the message, or
    /// its fragments where it is too large for one packet, wait at the end of
    /// the queue under the next id, which is the result. A message that is
    /// too large to be cut is refused, and so is one for which a reliable
    /// sender has no room.
    pub open spec fn buffer_send(self, m: MessageView) -> QueueStep {
        let parts = outgoing_parts(m, self.next_id);
        if too_large(m) {
            QueueStep { state: self, result: Err(QueueError::MessageTooLarge) }
        } else if !self.has_room(parts.len()) {
            QueueStep { state: self, result: Err(QueueError::TooManyUnacked) }
        } else {
            QueueStep {
                state: SenderView {
                    next_id: wrapping_add_spec(self.next_id, 1),
                    queue: self.queue + unsent(parts),
                    ..self
                },
                result: Ok(self.next_id),
            }
        }
    }

    /// Whether the entry `o` is due at the time `now`: it was never sent, or
    /// the channel is reliable and `resend_after` microseconds or more have
    /// passed since it was last sent.
    pub open spec fn is_due(self, o: OutgoingView, now: u64, resend_after: u64) -> bool {
        match o.last_sent {
            None => true,
            Some(last) => self.reliable && now >= last && now - last >= resend_after,
        }
    }

    /// The messages that are due at the time `now`, oldest first.
    pub open spec fn due_messages(self, now: u64, resend_after: u64) -> Seq<MessageView>
        decreases self.queue.len(),
    {
        if self.queue.len() == 0 {
            Seq::empty()
        } else {
            let front = SenderView { queue: self.queue.drop_last(), ..self };
            if self.is_due(self.queue.last(), now, resend_after) {
                front.due_messages(now, resend_after).push(self.queue.last().message)
            } else {
                front.due_messages(now, resend_after)
            }
        }
    }

    /// The sender after the messages that are due at the time `now` have
    /// left in packets: a reliable sender notes `now` on each of them, an
    /// unreliable one forgets them.
    pub open spec fn after_sending(self, now: u64, resend_after: u64) -> SenderView {
        SenderView {
            queue: if self.reliable {
                Seq::new(
                    self.queue.len(),
                    |i: int|
                        if self.is_due(self.queue[i], now, resend_after) {
                            OutgoingView { last_sent: Some(now), ..self.queue[i] }
                        } else {
                            self.queue[i]
                        },
                )
            } else {
                Seq::empty()
            },
            ..self
        }
    }

    /// The sender after the peer has acknowledged what `message_id` and
    /// `fragment` name: it is sent no more.
    pub open spec fn retire(self, message_id: u16, fragment: Option<u8>) -> SenderView {
        SenderView { queue: without(self.queue, message_id, fragment), ..self }
    }
}

/// What is left of a queue is no longer than the queue, and names nothing of
/// what was taken out.
pub proof fn lemma_without(queue: Seq<OutgoingView>, message_id: u16, fragment: Option<u8>)
    ensures
        without(queue, message_id, fragment).len() <= queue.len(),
        forall|i: int|
            0 <= i < without(queue, message_id, fragment).len() ==> !names(
                (#[trigger] without(queue, message_id, fragment)[i]).message,
                message_id,
                fragment,
            ) && queue.contains(without(queue, message_id, fragment)[i]),
    decreases queue.len(),
{
    let left = without(queue, message_id, fragment);
    if queue.len() > 0 {
        let front = queue.drop_last();
        lemma_without(front, message_id, fragment);
        let left_front = without(front, message_id, fragment);
        assert forall|i: int| 0 <= i < left.len() implies !names(
            (#[trigger] left[i]).message,
            message_id,
            fragment,
        ) && queue.contains(left[i]) by {
            if i < left_front.len() {
                assert(left[i] == left_front[i]);
                let j = choose|j: int| 0 <= j < front.len() && front[j] == left_front[i];
                assert(queue[j] == left[i]);
            } else {
                assert(queue[queue.len() - 1] == left[i]);
            }
        }
    }
}

/// Whether the message `m` waits in the queue of `s` and is due there.
pub open spec fn is_queued_due(s: SenderView, m: MessageView, now: u64, resend_after: u64) -> bool {
    exists|j: int|
        0 <= j < s.queue.len() && (#[trigger] s.queue[j]).message == m && s.is_due(
            s.queue[j],
            now,
            resend_after,
        )
}

/// Every message that is due waits in the queue and is due there.
pub proof fn lemma_due_is_queued(s: SenderView, now: u64, resend_after: u64)
    ensures
        s.due_messages(now, resend_after).len() <= s.queue.len(),
        forall|i: int|
            0 <= i < s.due_messages(now, resend_after).len() ==> is_queued_due(
                s,
                #[trigger] s.due_messages(now, resend_after)[i],
                now,
                resend_after,
            ),
    decreases s.queue.len(),
{
    let due = s.due_messages(now, resend_after);
    if s.queue.len() > 0 {
        let front = SenderView { queue: s.queue.drop_last(), ..s };
        lemma_due_is_queued(front, now, resend_after);
        let due_front = front.due_messages(now, resend_after);
        assert forall|i: int| 0 <= i < due.len() implies is_queued_due(
            s,
            #[trigger] due[i],
            now,
            resend_after,
        ) by {
            if i < due_front.len() {
                assert(due[i] == due_front[i]);
                assert(is_queued_due(front, due_front[i], now, resend_after));
                let j = choose|j: int|
                    0 <= j < front.queue.len() && (#[trigger] front.queue[j]).message
                        == due_front[i] && front.is_due(front.queue[j], now, resend_after);
                assert(s.queue[j] == front.queue[j]);
            } else {
                assert(s.queue[s.queue.len() - 1].message == due[i]);
            }
        }
    }
}

/// A message that was acknowledged is not sent again: once retired, nothing
/// that the acknowledgement names is due at any later time.
pub proof fn lemma_retired_is_not_sent_again(
    s: SenderView,
    message_id: u16,
    fragment: Option<u8>,
    now: u64,
    resend_after: u64,
)
    ensures
        forall|i: int|
            0 <= i < s.retire(message_id, fragment).due_messages(now, resend_after).len()
                ==> !names(
                #[trigger] s.retire(message_id, fragment).due_messages(now, resend_after)[i],
                message_id,
                fragment,
            ),
{
    let t = s.retire(message_id, fragment);
    lemma_without(s.queue, message_id, fragment);
    lemma_due_is_queued(t, now, resend_after);
    assert forall|i: int| 0 <= i < t.due_messages(now, resend_after).len() implies !names(
        #[trigger] t.due_messages(now, resend_after)[i],
        message_id,
        fragment,
    ) by {
        let m = t.due_messages(now, resend_after)[i];
        assert(is_queued_due(t, m, now, resend_after));
        let j = choose|j: int|
            0 <= j < t.queue.len() && (#[trigger] t.queue[j]).message == m && t.is_due(
                t.queue[j],
                now,
                resend_after,
            );
        assert(!names(t.queue[j].message, message_id, fragment));
    }
}

/// Kept until acknowledged. A reliable sender lets go of no message when it
/// sends: after a flush its queue holds the same messages in the same order,
/// and each of them is due again once `resend_after` microseconds have
/// passed since the flush.
pub proof fn lemma_reliable_keeps_until_acknowledged(
    s: SenderView,
    now: u64,
    resend_after: u64,
    later: u64,
    i: int,
)
    requires
        s.reliable,
        0 <= i < s.queue.len(),
        later >= now,
        later - now >= resend_after,
        s.is_due(s.queue[i], now, resend_after),
    ensures
        s.after_sending(now, resend_after).queue.len() == s.queue.len(),
        s.after_sending(now, resend_after).queue[i].message == s.queue[i].message,
        s.after_sending(now, resend_after).is_due(
            s.after_sending(now, resend_after).queue[i],
            later,
            resend_after,
        ),
        !s.after_sending(now, resend_after).is_due(
            s.after_sending(now, resend_after).queue[i],
            now,
            resend_after,
        ) || resend_after == 0,
{
}

/// A copy of the bytes `bytes`.
pub fn copy_bytes(bytes: &Vec<u8>) -> (r: Vec<u8>)
    ensures
        r@ == bytes@,
{
    let mut r: Vec<u8> = Vec::new();
    let mut i: usize = 0;
    while i < bytes.len()
        invariant
            i <= bytes.len(),
            r@ == bytes@.take(i as int),
        decreases bytes.len() - i,
    {
        r.push(bytes[i]);
        assert(bytes@.take(i as int + 1) =~= bytes@.take(i as int).push(bytes@[i as int]));
        i += 1;
    }
    assert(bytes@.take(bytes.len() as int) =~= bytes@);
    r
}

/// A copy of the message `message`.
pub fn copy_message(message: &MessageContainer) -> (r: MessageContainer)
    ensures
        r@ == message@,
{
    match message {
        MessageContainer::Single(data) => MessageContainer::Single(
            SingleData { id: data.id, tick: data.tick, bytes: copy_bytes(&data.bytes) },
        ),
        MessageContainer::Fragment(data) => MessageContainer::Fragment(
            FragmentData {
                message_id: data.message_id,
                tick: data.tick,
                fragment_id: data.fragment_id,
                num_fragments: data.num_fragments,
                bytes: copy_bytes(&data.bytes),
            },
        ),
    }
}

/// A message in a sender's queue.
pub struct Outgoing {
    message: MessageContainer,
    last_sent: Option<u64>,
}

impl View for Outgoing {
    type V = OutgoingView;

    closed spec fn view(&self) -> OutgoingView {
        OutgoingView { message: self.message@, last_sent: self.last_sent }
    }
}

/// The sending side of one channel.
pub struct ChannelSender {
    reliable: bool,
    next_id: MessageId,
    queue: Vec<Outgoing>,
}

spec fn queue_view(queue: Seq<Outgoing>) -> Seq<OutgoingView> {
    Seq::new(queue.len(), |i: int| queue[i]@)
}

impl View for ChannelSender {
    type V = SenderView;

    closed spec fn view(&self) -> SenderView {
        SenderView { reliable: self.reliable, next_id: self.next_id.0, queue: queue_view(self.queue@) }
    }
}

impl ChannelSender {
    /// A sender that has queued nothing.
    pub fn new(reliable: bool) -> (r: ChannelSender)
        ensures
            r@ == SenderView::fresh(reliable),
            r@.wf(),
    {
        let r = ChannelSender { reliable, next_id: MessageId(0), queue: Vec::new() };
        assert(r@.queue =~= Seq::empty());
        r
    }

    /// The number of messages that wait to be sent or acknowledged.
    pub fn queued_len(&self) -> (n: usize)
        ensures
            n == self@.queue.len(),
    {
        self.queue.len()
    }

    /// Queues a message under the next id of the channel, and tells the id.
    pub fn buffer_send(&mut self, message: MessageContainer) -> (r: Result<MessageId, QueueError>)
        requires
            old(self)@.wf(),
        ensures
            final(self)@.wf(),
            final(self)@ == old(self)@.buffer_send(message@).state,
            match r {
                Ok(id) => old(self)@.buffer_send(message@).result == Ok::<u16, QueueError>(id.0),
                Err(e) => old(self)@.buffer_send(message@).result == Err::<u16, QueueError>(e),
            },
    {
        let id = self.next_id;
        let ghost before = self@;
        let ghost parts = outgoing_parts(message@, id.0);
        let large = match &message {
            MessageContainer::Single(data) => data.bytes.len() > FRAGMENT_SIZE,
            MessageContainer::Fragment(_) => false,
        };
        if !large {
            proof {
                if message@ is Single {
                    let len = payload_len(message@) as int;
                    assert((len + 1024 - 1) / 1024 <= 1);
                }
            }
            if self.reliable && self.queue.len() >= MAX_OUTSTANDING {
                return Err(QueueError::TooManyUnacked);
            }
            let mut message = message;
            message.set_id(id);
            self.queue.push(Outgoing { message, last_sent: None });
            proof {
                assert(parts =~= seq![message@]);
                assert(self@.queue =~= before.queue + unsent(parts));
            }
        } else {
            let fragments = match &message {
                MessageContainer::Single(data) => split_payload(
                    id,
                    data.tick,
                    &data.bytes,
                    FRAGMENT_SIZE,
                ),
                MessageContainer::Fragment(_) => None,
            };
            let mut rest = match fragments {
                Some(fragments) => fragments,
                None => {
                    return Err(QueueError::MessageTooLarge);
                },
            };
            proof {
                assert(message@ is Single);
                let data = message@->Single_0;
                assert(data.bytes.len() > FRAGMENT_SIZE);
                let cut = fragments_of(id.0, data.tick, data.bytes, FRAGMENT_SIZE as int);
                assert(fragments_view(rest@) == cut);
                assert(fragments_view(rest@).len() == rest.len());
                assert(cut.len() == fragment_count(data.bytes.len() as int, FRAGMENT_SIZE as int));
                assert(parts.len() == rest.len());
                assert forall|k: int| 0 <= k < rest.len() implies MessageView::Fragment(
                    (#[trigger] rest[k])@,
                ) == parts[k] by {
                    assert(fragments_view(rest@)[k] == rest[k]@);
                }
            }
            if self.reliable && MAX_OUTSTANDING - self.queue.len() < rest.len() {
                return Err(QueueError::TooManyUnacked);
            }
            let mut i: usize = 0;
            proof {
                assert(self@.queue =~= before.queue + unsent(parts.take(0)));
            }
            while i < rest.len()
                invariant
                    i <= rest.len(),
                    rest.len() == parts.len(),
                    self.reliable == before.reliable,
                    self.next_id.0 == before.next_id,
                    forall|k: int|
                        i <= k < rest.len() ==> MessageView::Fragment((#[trigger] rest[k])@)
                            == parts[k],
                    self@.queue == before.queue + unsent(parts.take(i as int)),
                decreases rest.len() - i,
            {
                let mut fragment = FragmentData {
                    message_id: MessageId(0),
                    tick: None,
                    fragment_id: 0,
                    num_fragments: 0,
                    bytes: Vec::new(),
                };
                rest.set_and_swap(i, &mut fragment);
                let ghost queue_before = self@.queue;
                self.queue.push(
                    Outgoing { message: MessageContainer::Fragment(fragment), last_sent: None },
                );
                proof {
                    assert(self@.queue =~= queue_before.push(
                        OutgoingView { message: parts[i as int], last_sent: None },
                    ));
                    assert(self@.queue =~= before.queue + unsent(parts.take(i as int + 1)));
                }
                i += 1;
            }
            proof {
                assert(parts.take(i as int) =~= parts);
            }
        }
        self.next_id = id.next();
        proof {
            assert forall|k: int| 0 <= k < self@.queue.len() implies (
            #[trigger] self@.queue[k]).message.id() is Some && (!self@.reliable
                ==> self@.queue[k].last_sent is None) by {
                if k < before.queue.len() {
                    assert(self@.queue[k] == before.queue[k]);
                } else {
                    assert(self@.queue[k] == unsent(parts)[k - before.queue.len()]);
                }
            }
        }
        Ok(id)
    }

    /// Hands out copies of the messages that are due at the time `now`, and
    /// notes that they were sent.
    pub fn take_due(&mut self, now: u64, resend_after: u64) -> (r: Vec<MessageContainer>)
        requires
            old(self)@.wf(),
        ensures
            final(self)@.wf(),
            final(self)@ == old(self)@.after_sending(now, resend_after),
            crate::packet::messages_view(r@) == old(self)@.due_messages(now, resend_after),
    {
        let ghost start = self@;
        let mut due: Vec<MessageContainer> = Vec::new();
        let mut i: usize = 0;
        proof {
            assert(start.queue.take(0) =~= Seq::empty());
        }
        while i < self.queue.len()
            invariant
                start == old(self)@,
                start.wf(),
                self.reliable == start.reliable,
                self.next_id.0 == start.next_id,
                i <= self.queue.len(),
                self.queue.len() == start.queue.len(),
                forall|k: int| i <= k < self.queue.len() ==> (#[trigger] self@.queue[k])
                    == start.queue[k],
                forall|k: int|
                    0 <= k < i ==> (#[trigger] self@.queue[k]) == if start.is_due(
                        start.queue[k],
                        now,
                        resend_after,
                    ) {
                        OutgoingView { last_sent: Some(now), ..start.queue[k] }
                    } else {
                        start.queue[k]
                    },
                crate::packet::messages_view(due@) == (SenderView {
                    queue: start.queue.take(i as int),
                    ..start
                }).due_messages(now, resend_after),
            decreases self.queue.len() - i,
        {
            let ghost so_far = crate::packet::messages_view(due@);
            let ghost queue_before = self@.queue;
            proof {
                assert(start.queue.take(i as int + 1).drop_last() =~= start.queue.take(i as int));
                assert(start.queue.take(i as int + 1).last() == start.queue[i as int]);
                assert(self@.queue[i as int] == start.queue[i as int]);
            }
            let is_due = match self.queue[i].last_sent {
                None => true,
                Some(last) => self.reliable && now >= last && now - last >= resend_after,
            };
            if is_due {
                let copy = copy_message(&self.queue[i].message);
                due.push(copy);
                let entry = &mut self.queue[i];
                entry.last_sent = Some(now);
                proof {
                    assert(crate::packet::messages_view(due@) =~= so_far.push(
                        start.queue[i as int].message,
                    ));
                    assert forall|k: int| 0 <= k < self.queue.len() && k != i implies (
                    #[trigger] self@.queue[k]) == queue_before[k] by {}
                }
            }
            i += 1;
        }
        proof {
            assert(start.queue.take(i as int) =~= start.queue);
        }
        if !self.reliable {
            self.queue.clear();
            proof {
                assert(self@.queue =~= Seq::empty());
            }
        } else {
            proof {
                assert(self@.queue =~= start.after_sending(now, resend_after).queue);
            }
        }
        due
    }

    /// Takes the acknowledgement of what `message_id` and `fragment` name.
    pub fn retire(&mut self, message_id: MessageId, fragment: Option<u8>)
        requires
            old(self)@.wf(),
        ensures
            final(self)@.wf(),
            final(self)@ == old(self)@.retire(message_id.0, fragment),
    {
        let ghost before = self@.queue;
        let mut i: usize = 0;
        let ghost mut done: int = 0;
        proof {
            assert(before.take(0) =~= Seq::empty());
            assert(self@.queue =~= without(before.take(0), message_id.0, fragment) + before.skip(
                0,
            ));
        }
        while i < self.queue.len()
            invariant
                before == old(self)@.queue,
                self.reliable == old(self).reliable,
                self.next_id == old(self).next_id,
                0 <= done <= before.len(),
                i == without(before.take(done), message_id.0, fragment).len(),
                i <= self.queue.len(),
                self.queue.len() - i == before.len() - done,
                self@.queue == without(before.take(done), message_id.0, fragment) + before.skip(
                    done,
                ),
            decreases self.queue.len() - i,
        {
            let ghost current = self@.queue;
            proof {
                assert(current[i as int] == before.skip(done)[0]);
                assert(before.take(done + 1).drop_last() =~= before.take(done));
                assert(before.take(done + 1).last() == before[done]);
                assert(self.queue[i as int]@ == before[done]);
            }
            let named = match &self.queue[i].message {
                MessageContainer::Single(data) => match data.id {
                    Some(id) => id.0 == message_id.0 && fragment.is_none(),
                    None => false,
                },
                MessageContainer::Fragment(data) => data.message_id.0 == message_id.0 && match fragment {
                    Some(index) => index == data.fragment_id,
                    None => false,
                },
            };
            assert(named == names(before[done].message, message_id.0, fragment));
            if named {
                self.queue.remove(i);
                proof {
                    assert(self@.queue =~= current.remove(i as int));
                    assert(self@.queue =~= without(before.take(done + 1), message_id.0, fragment)
                        + before.skip(done + 1));
                }
            } else {
                proof {
                    assert(self@.queue =~= without(before.take(done + 1), message_id.0, fragment)
                        + before.skip(done + 1));
                }
                i += 1;
            }
            proof {
                done = done + 1;
            }
        }
        proof {
            assert(before.take(done) =~= before);
            assert(before.skip(done) =~= Seq::empty());
            assert(self@.queue =~= without(before, message_id.0, fragment));
            lemma_without(before, message_id.0, fragment);
            assert forall|k: int| 0 <= k < self@.queue.len() && !self@.reliable implies (
            #[trigger] self@.queue[k]).last_sent is None by {
                let j = choose|j: int| 0 <= j < before.len() && before[j] == self@.queue[k];
                assert(before[j].last_sent is None);
            }
        }
    }
}

} // verus!
