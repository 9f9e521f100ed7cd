//! Receiver of a tick-buffered channel.
//!
//! Every message carries the tick that it is meant for. The receiver keeps
//! the messages of the ticks to come, one per tick, and hands out the message
//! of a tick when the local tick has reached it. What arrives for a tick that
//! has passed is dropped.

use std::collections::BTreeMap;
use vstd::prelude::*;
use crate::error::ChannelError;
use crate::fragment_receiver::{
    lemma_receive_keeps_wf, FragmentReceiver, FragmentsView, DEFAULT_SLOT_CAPACITY,
};
use crate::message::{message_view, MessageContainer, MessageView, SingleData, SingleView};
use crate::wrapping_id::{forward_distance, Tick};

verus! {

/// The number of ticks, from the local tick on, for which messages are kept.
pub const TICK_WINDOW: u16 = 64;

/// The tick that a message carries, if any.
pub open spec fn tick_of(m: MessageView) -> Option<u16> {
    match m {
        MessageView::Single(data) => data.tick,
        MessageView::Fragment(data) => data.tick,
    }
}

/// Mathematical value of a tick-buffered receiver.
pub struct TickBufferedView {
    /// The tick that the receiver stands at.
    pub local_tick: u16,
    /// Whether the message of the local tick has been handed out.
    pub released: bool,
    /// The messages that wait for their tick, by tick.
    pub buffer: Map<u16, SingleView>,
    /// The reassembler for the channel's fragmented messages.
    pub fragments: FragmentsView,
}

/// A tick-buffered receiver after one arrival, and whether it took the message.
pub struct TickBufferedStep {
    pub state: TickBufferedView,
    pub result: Result<(), ChannelError>,
}

/// A tick-buffered receiver after one read, and the message it handed out.
pub struct TickBufferedRead {
    pub state: TickBufferedView,
    pub message: Option<SingleView>,
}

impl TickBufferedView {
    /// A receiver at tick 0 that holds nothing.
    pub open spec fn fresh() -> TickBufferedView {
        TickBufferedView {
            local_tick: 0,
            released: false,
            buffer: Map::empty(),
            fragments: FragmentsView::fresh(DEFAULT_SLOT_CAPACITY as nat),
        }
    }

    /// What holds of a receiver at any time: it keeps messages only for the
    /// ticks of its window, and none for the local tick once that tick's
    /// message has been handed out.
    pub open spec fn wf(self) -> bool {
        &&& self.fragments.wf()
        &&& self.buffer.dom().finite()
        &&& forall|tick: u16| #[trigger]
            self.buffer.contains_key(tick) ==> forward_distance(self.local_tick, tick)
                < TICK_WINDOW
        &&& self.released ==> !self.buffer.contains_key(self.local_tick)
    }

    /// Whether the receiver has no use for a message of the tick `tick`: the
    /// tick has passed or lies beyond the window, its message has been
    /// handed out, or a message waits for it already.
    pub open spec fn drops(self, tick: u16) -> bool {
        ||| forward_distance(self.local_tick, tick) >= TICK_WINDOW
        ||| (tick == self.local_tick && self.released)
        ||| self.buffer.contains_key(tick)
    }

    /// The receiver after the message `m` arrives. A message without a tick
    /// is refused. One that the receiver has no use for is dropped. Any other
    /// whole message waits for its tick; a fragment goes to the reassembler,
    /// and the message it completes, if any, waits for its tick. If the
    /// reassembler refuses the fragment, nothing changes.
    pub open spec fn buffer_recv(self, m: MessageView) -> TickBufferedStep {
        match tick_of(m) {
            None => TickBufferedStep { state: self, result: Err(ChannelError::MissingTick) },
            Some(tick) => if self.drops(tick) {
                TickBufferedStep { state: self, result: Ok(()) }
            } else {
                match m {
                    MessageView::Single(data) => TickBufferedStep {
                        state: TickBufferedView { buffer: self.buffer.insert(tick, data), ..self },
                        result: Ok(()),
                    },
                    MessageView::Fragment(f) => {
                        let step = self.fragments.receive(f);
                        match step.result {
                            Err(e) => TickBufferedStep { state: self, result: Err(e) },
                            Ok(None) => TickBufferedStep {
                                state: TickBufferedView { fragments: step.state, ..self },
                                result: Ok(()),
                            },
                            Ok(Some(whole)) => TickBufferedStep {
                                state: TickBufferedView {
                                    buffer: self.buffer.insert(tick, whole),
                                    fragments: step.state,
                                    ..self
                                },
                                result: Ok(()),
                            },
                        }
                    },
                }
            },
        }
    }

    /// The receiver after one read: the message of the local tick leaves, if
    /// it is there.
    pub open spec fn read_message(self) -> TickBufferedRead {
        if self.buffer.contains_key(self.local_tick) {
            TickBufferedRead {
                state: TickBufferedView {
                    released: true,
                    buffer: self.buffer.remove(self.local_tick),
                    ..self
                },
                message: Some(self.buffer[self.local_tick]),
            }
        } else {
            TickBufferedRead { state: self, message: None }
        }
    }

    /// The receiver after the local tick is set to `tick`: the messages of
    /// the ticks that are no longer in the window are dropped. Setting the
    /// tick to what it is changes nothing.
    pub open spec fn set_tick(self, tick: u16) -> TickBufferedView {
        if tick == self.local_tick {
            self
        } else {
            TickBufferedView {
                local_tick: tick,
                released: false,
                buffer: if forward_distance(self.local_tick, tick) < TICK_WINDOW {
                    self.buffer.restrict(
                        Set::new(|kept: u16| forward_distance(tick, kept) < TICK_WINDOW),
                    )
                } else {
                    Map::empty()
                },
                ..self
            }
        }
    }
}

/// An arrival keeps the receiver well formed and its tick; a refused message
/// changes nothing.
pub proof fn lemma_arrival_keeps_tick(s: TickBufferedView, m: MessageView)
    requires
        s.wf(),
    ensures
        s.buffer_recv(m).state.wf(),
        s.buffer_recv(m).state.local_tick == s.local_tick,
        s.buffer_recv(m).result is Err ==> s.buffer_recv(m).state == s,
{
    match m {
        MessageView::Single(data) => {},
        MessageView::Fragment(f) => {
            lemma_receive_keeps_wf(s.fragments, f);
        },
    }
}

/// Setting the tick keeps the receiver well formed.
pub proof fn lemma_set_tick_keeps_wf(s: TickBufferedView, tick: u16)
    requires
        s.wf(),
    ensures
        s.set_tick(tick).wf(),
{
    let t = s.set_tick(tick);
    if tick != s.local_tick && forward_distance(s.local_tick, tick) < TICK_WINDOW {
        assert(t.buffer.dom().subset_of(s.buffer.dom()));
        vstd::set_lib::lemma_len_subset(t.buffer.dom(), s.buffer.dom());
    }
}

/// One message per tick, at its tick. A read hands out only the message
/// that was meant for the local tick, and once it has, nothing more is
/// handed out until the tick moves on, whatever arrives.
pub proof fn lemma_one_message_per_tick(s: TickBufferedView, m: MessageView)
    requires
        s.wf(),
    ensures
        s.read_message().message is Some ==> s.read_message().message == Some(
            s.buffer[s.local_tick],
        ),
        s.read_message().message is Some ==> s.read_message().state.buffer_recv(
            m,
        ).state.read_message().message is None,
        s.read_message().message is Some ==> s.read_message().state.read_message().message is None,
{
    if s.read_message().message is Some {
        let t = s.read_message().state;
        assert(t.wf());
        lemma_arrival_keeps_tick(t, m);
        match m {
            MessageView::Single(data) => {},
            MessageView::Fragment(f) => {},
        }
    }
}

/// Tick-buffered receiver: messages are handed out at the tick that they
/// were sent for.
pub struct TickBufferedReceiver {
    local_tick: Tick,
    released: bool,
    recv_message_buffer: BTreeMap<u16, SingleData>,
    fragment_receiver: FragmentReceiver,
}

spec fn buffer_view(buffer: Map<u16, SingleData>) -> Map<u16, SingleView> {
    Map::new(|tick: u16| buffer.contains_key(tick), |tick: u16| buffer[tick]@)
}

impl View for TickBufferedReceiver {
    type V = TickBufferedView;

    closed spec fn view(&self) -> TickBufferedView {
        TickBufferedView {
            local_tick: self.local_tick.0,
            released: self.released,
            buffer: buffer_view(self.recv_message_buffer@),
            fragments: self.fragment_receiver@,
        }
    }
}

impl TickBufferedReceiver {
    /// The invariant of the receiver's representation.
    pub closed spec fn wf(&self) -> bool {
        &&& self.fragment_receiver.wf()
        &&& forall|tick: u16| #[trigger]
            self.recv_message_buffer@.contains_key(tick) ==> forward_distance(
                self.local_tick.0,
                tick,
            ) < TICK_WINDOW
        &&& self.released ==> !self.recv_message_buffer@.contains_key(self.local_tick.0)
    }

    /// A well-formed receiver has a well-formed value.
    pub proof fn lemma_view_wf(&self)
        requires
            self.wf(),
        ensures
            self@.wf(),
    {
        self.fragment_receiver.lemma_view_wf();
        assert(self@.buffer.dom() =~= self.recv_message_buffer@.dom());
    }

    /// A receiver at tick 0 that holds nothing.
    pub fn new() -> (r: TickBufferedReceiver)
        ensures
            r.wf(),
            r@ == TickBufferedView::fresh(),
    {
        let r = TickBufferedReceiver {
            local_tick: Tick(0),
            released: false,
            recv_message_buffer: BTreeMap::new(),
            fragment_receiver: FragmentReceiver::new(),
        };
        assert(r@.buffer =~= Map::<u16, SingleView>::empty());
        r
    }

    /// Takes a message that arrived on the channel.
    pub fn buffer_recv(&mut self, message: MessageContainer) -> (r: Result<(), ChannelError>)
        requires
            old(self).wf(),
        ensures
            final(self).wf(),
            final(self)@ == old(self)@.buffer_recv(message@).state,
            r == old(self)@.buffer_recv(message@).result,
    {
        let tick = match &message {
            MessageContainer::Single(data) => data.tick,
            MessageContainer::Fragment(data) => data.tick,
        };
        let tick = match tick {
            Some(tick) => tick,
            None => {
                return Err(ChannelError::MissingTick);
            },
        };
        let ahead: u16 = tick.0.wrapping_sub(self.local_tick.0);
        if ahead >= TICK_WINDOW || (ahead == 0 && self.released) {
            return Ok(());
        }
        if self.recv_message_buffer.contains_key(&tick.0) {
            return Ok(());
        }
        let ghost before = self.recv_message_buffer@;
        match message {
            MessageContainer::Single(data) => {
                self.recv_message_buffer.insert(tick.0, data);
                assert(buffer_view(self.recv_message_buffer@) =~= buffer_view(before).insert(
                    tick.0,
                    data@,
                ));
                Ok(())
            },
            MessageContainer::Fragment(data) => {
                match self.fragment_receiver.receive_fragment(data) {
                    Err(e) => Err(e),
                    Ok(None) => Ok(()),
                    Ok(Some(whole)) => {
                        self.recv_message_buffer.insert(tick.0, whole);
                        assert(buffer_view(self.recv_message_buffer@) =~= buffer_view(
                            before,
                        ).insert(tick.0, whole@));
                        Ok(())
                    },
                }
            },
        }
    }

    /// Hands out the message of the local tick if it is there.
    pub fn read_message(&mut self) -> (r: Option<SingleData>)
        requires
            old(self).wf(),
        ensures
            final(self).wf(),
            final(self)@ == old(self)@.read_message().state,
            message_view(r) == old(self)@.read_message().message,
    {
        let ghost before = self.recv_message_buffer@;
        let local: u16 = self.local_tick.0;
        match self.recv_message_buffer.remove(&local) {
            None => {
                assert(self.recv_message_buffer@ =~= before);
                None
            },
            Some(message) => {
                self.released = true;
                assert(buffer_view(self.recv_message_buffer@) =~= buffer_view(before).remove(
                    local,
                ));
                Some(message)
            },
        }
    }

    /// Sets the local tick to `tick`, and drops the messages of the ticks
    /// that are no longer in the window.
    pub fn set_tick(&mut self, tick: Tick)
        requires
            old(self).wf(),
        ensures
            final(self).wf(),
            final(self)@ == old(self)@.set_tick(tick.0),
    {
        if tick.0 == self.local_tick.0 {
            return ;
        }
        let ghost before = self.recv_message_buffer@;
        let ghost start = self.local_tick.0;
        let ahead: u16 = tick.0.wrapping_sub(self.local_tick.0);
        if ahead >= TICK_WINDOW {
            self.recv_message_buffer.clear();
            assert(buffer_view(self.recv_message_buffer@) =~= Map::<u16, SingleView>::empty());
        } else {
            let mut passed: u16 = 0;
            while passed < ahead
                invariant
                    passed <= ahead < TICK_WINDOW,
                    ahead == forward_distance(start, tick.0),
                    self.local_tick.0 == start,
                    self.fragment_receiver == old(self).fragment_receiver,
                    forall|kept: u16|
                        self.recv_message_buffer@.contains_key(kept) <==> before.contains_key(kept)
                            && forward_distance(start, kept) >= passed,
                    forall|kept: u16| #[trigger]
                        self.recv_message_buffer@.contains_key(kept)
                            ==> self.recv_message_buffer@[kept] == before[kept],
                decreases ahead - passed,
            {
                let gone: u16 = self.local_tick.0.wrapping_add(passed);
                assert(forward_distance(start, gone) == passed);
                self.recv_message_buffer.remove(&gone);
                passed += 1;
            }
            proof {
                let kept = old(self)@.set_tick(tick.0).buffer;
                assert forall|k: u16| buffer_view(self.recv_message_buffer@).contains_key(k)
                    <==> kept.contains_key(k) by {
                    if before.contains_key(k) {
                        assert(forward_distance(start, k) < TICK_WINDOW);
                    }
                }
                assert(buffer_view(self.recv_message_buffer@) =~= kept);
            }
        }
        self.local_tick = tick;
        self.released = false;
        proof {
            assert forall|k: u16| #[trigger]
                self.recv_message_buffer@.contains_key(k) implies forward_distance(tick.0, k)
                < TICK_WINDOW by {
                if ahead < TICK_WINDOW {
                    assert(before.contains_key(k));
                    assert(forward_distance(start, k) < TICK_WINDOW);
                }
            }
        }
    }

    /// Sets the reassembler's clock to `now` and gives up the reassemblies
    /// that have waited for `timeout` microseconds or more.
    pub fn collect(&mut self, now: u64, timeout: u64)
        requires
            old(self).wf(),
        ensures
            final(self).wf(),
            final(self)@ == (TickBufferedView {
                fragments: old(self)@.fragments.collect(now, timeout),
                ..old(self)@
            }),
    {
        self.fragment_receiver.collect(now, timeout);
    }

    /// The tick that the receiver stands at.
    pub fn local_tick(&self) -> (tick: Tick)
        ensures
            tick.0 == self@.local_tick,
    {
        self.local_tick
    }

    /// The number of messages that wait for their tick.
    pub fn buffered_len(&self) -> (n: usize)
        ensures
            n == self@.buffer.dom().len(),
    {
        assert(self@.buffer.dom() =~= self.recv_message_buffer@.dom());
        self.recv_message_buffer.len()
    }
}

} // verus!
