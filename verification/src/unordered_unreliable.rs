//! Receiver of an unreliable, unordered channel.
//!
//! Messages are handed out in the order in which they arrive; none is held
//! back and none is dropped.

use std::collections::VecDeque;
use vstd::prelude::*;
use crate::error::ChannelError;
use crate::fragment_receiver::{
    lemma_receive_keeps_wf, FragmentReceiver, FragmentsView, DEFAULT_SLOT_CAPACITY,
};
use crate::message::{message_view, MessageContainer, MessageView, SingleData, SingleView};

verus! {

/// Mathematical value of an unordered unreliable receiver.
pub struct UnorderedView {
    /// The messages that have arrived and were not read yet, oldest arrival first.
    pub queue: Seq<SingleView>,
    /// The reassembler for the channel's fragmented messages.
    pub fragments: FragmentsView,
}

/// An unordered receiver after one arrival, and whether it took the message.
pub struct UnorderedStep {
    pub state: UnorderedView,
    pub result: Result<(), ChannelError>,
}

/// An unordered receiver after one read, and the message it handed out.
pub struct UnorderedRead {
    pub state: UnorderedView,
    pub message: Option<SingleView>,
}

impl UnorderedView {
    /// A receiver that holds nothing.
    pub open spec fn fresh() -> UnorderedView {
        UnorderedView {
            queue: Seq::empty(),
            fragments: FragmentsView::fresh(DEFAULT_SLOT_CAPACITY as nat),
        }
    }

    /// What holds of a receiver at any time: the reassembler is well formed.
    pub open spec fn wf(self) -> bool {
        self.fragments.wf()
    }

    /// The receiver after the message `m` arrives. A whole message joins the
    /// queue, with or without an id. A fragment goes to the reassembler, and
    /// the message it completes, if any, joins the queue; if the reassembler
    /// refuses the fragment, nothing changes.
    pub open spec fn buffer_recv(self, m: MessageView) -> UnorderedStep {
        match m {
            MessageView::Single(data) => UnorderedStep {
                state: UnorderedView { queue: self.queue.push(data), ..self },
                result: Ok(()),
            },
            MessageView::Fragment(f) => {
                let step = self.fragments.receive(f);
                match step.result {
                    Err(e) => UnorderedStep { state: self, result: Err(e) },
                    Ok(None) => UnorderedStep {
                        state: UnorderedView { fragments: step.state, ..self },
                        result: Ok(()),
                    },
                    Ok(Some(whole)) => UnorderedStep {
                        state: UnorderedView {
                            queue: self.queue.push(whole),
                            fragments: step.state,
                        },
                        result: Ok(()),
                    },
                }
            },
        }
    }

    /// The receiver after one read: the message that arrived first leaves the
    /// queue, if there is one.
    pub open spec fn read_message(self) -> UnorderedRead {
        if self.queue.len() > 0 {
            UnorderedRead {
                state: UnorderedView { queue: self.queue.drop_first(), ..self },
                message: Some(self.queue[0]),
            }
        } else {
            UnorderedRead { state: self, message: None }
        }
    }
}

/// An arrival keeps the receiver well formed, loses nothing of what waits,
/// and is refused only for want of a reassembly slot, which changes nothing.
pub proof fn lemma_arrival_keeps_queue(s: UnorderedView, m: MessageView)
    requires
        s.wf(),
    ensures
        s.buffer_recv(m).state.wf(),
        s.buffer_recv(m).result is Err ==> s.buffer_recv(m).state == s
            && s.buffer_recv(m).result->Err_0.is_protocol_violation(),
        s.buffer_recv(m).state.queue.len() >= s.queue.len(),
        s.buffer_recv(m).state.queue.take(s.queue.len() as int) == s.queue,
{
    match m {
        MessageView::Single(data) => {
            assert(s.queue.push(data).take(s.queue.len() as int) =~= s.queue);
        },
        MessageView::Fragment(f) => {
            lemma_receive_keeps_wf(s.fragments, f);
            let t = s.buffer_recv(m).state;
            assert(t.queue.take(s.queue.len() as int) =~= s.queue);
        },
    }
}

/// Unordered unreliable receiver: every message that arrives is handed out,
/// in the order of arrival.
pub struct UnorderedUnreliableReceiver {
    recv_message_buffer: VecDeque<SingleData>,
    fragment_receiver: FragmentReceiver,
}

spec fn queue_view(queue: Seq<SingleData>) -> Seq<SingleView> {
    Seq::new(queue.len(), |i: int| queue[i]@)
}

impl View for UnorderedUnreliableReceiver {
    type V = UnorderedView;

    closed spec fn view(&self) -> UnorderedView {
        UnorderedView {
            queue: queue_view(self.recv_message_buffer@),
            fragments: self.fragment_receiver@,
        }
    }
}

impl UnorderedUnreliableReceiver {
    /// The invariant of the receiver's representation.
    pub closed spec fn wf(&self) -> bool {
        self.fragment_receiver.wf()
    }

    /// A well-formed receiver has a well-formed value.
    pub proof fn lemma_view_wf(&self)
        requires
            self.wf(),
        ensures
            self@.wf(),
    {
        self.fragment_receiver.lemma_view_wf();
    }

    /// A receiver that holds nothing.
    pub fn new() -> (r: UnorderedUnreliableReceiver)
        ensures
            r.wf(),
            r@ == UnorderedView::fresh(),
    {
        let r = UnorderedUnreliableReceiver {
            recv_message_buffer: VecDeque::new(),
            fragment_receiver: FragmentReceiver::new(),
        };
        assert(r@.queue =~= Seq::<SingleView>::empty());
        r
    }

    /// Takes a message that arrived on the channel.
    pub fn buffer_recv(&mut self, message: MessageContainer) -> (r: Result<(), ChannelError>)
        requires
            old(self).wf(),
        ensures
            final(self).wf(),
            final(self)@ == old(self)@.buffer_recv(message@).state,
            r == old(self)@.buffer_recv(message@).result,
    {
        let ghost before = self.recv_message_buffer@;
        match message {
            MessageContainer::Single(data) => {
                self.recv_message_buffer.push_back(data);
                assert(queue_view(self.recv_message_buffer@) =~= queue_view(before).push(data@));
                Ok(())
            },
            MessageContainer::Fragment(data) => {
                match self.fragment_receiver.receive_fragment(data) {
                    Err(e) => Err(e),
                    Ok(None) => Ok(()),
                    Ok(Some(whole)) => {
                        self.recv_message_buffer.push_back(whole);
                        assert(queue_view(self.recv_message_buffer@) =~= queue_view(before).push(
                            whole@,
                        ));
                        Ok(())
                    },
                }
            },
        }
    }

    /// Hands out the message that arrived first, if any waits.
    pub fn read_message(&mut self) -> (r: Option<SingleData>)
        requires
            old(self).wf(),
        ensures
            final(self).wf(),
            final(self)@ == old(self)@.read_message().state,
            message_view(r) == old(self)@.read_message().message,
    {
        let ghost before = self.recv_message_buffer@;
        let r = self.recv_message_buffer.pop_front();
        proof {
            if before.len() > 0 {
                assert(queue_view(self.recv_message_buffer@) =~= queue_view(before).drop_first());
            }
        }
        r
    }

    /// Sets the reassembler's clock to `now` and gives up the reassemblies
    /// that have waited for `timeout` microseconds or more.
    pub fn collect(&mut self, now: u64, timeout: u64)
        requires
            old(self).wf(),
        ensures
            final(self).wf(),
            final(self)@ == (UnorderedView {
                fragments: old(self)@.fragments.collect(now, timeout),
                ..old(self)@
            }),
    {
        self.fragment_receiver.collect(now, timeout);
    }

    /// The number of messages that wait to be read.
    pub fn buffered_len(&self) -> (n: usize)
        ensures
            n == self@.queue.len(),
    {
        self.recv_message_buffer.len()
    }
}

} // verus!
