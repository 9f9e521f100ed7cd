//! Messages as the channel layer sees them: whole messages and fragments.

use vstd::prelude::*;
use crate::wrapping_id::{MessageId, Tick};

verus! {

/// Mathematical value of a whole message.
pub struct SingleView {
    pub id: Option<u16>,
    pub tick: Option<u16>,
    pub bytes: Seq<u8>,
}

/// Mathematical value of one fragment of a message.
pub struct FragmentView {
    pub message_id: u16,
    pub tick: Option<u16>,
    pub fragment_id: u8,
    pub num_fragments: u8,
    pub bytes: Seq<u8>,
}

/// Mathematical value of a message handed to a channel receiver.
pub enum MessageView {
    Single(SingleView),
    Fragment(FragmentView),
}

/// The number behind an optional message id.
pub open spec fn id_value(id: Option<MessageId>) -> Option<u16> {
    match id {
        Some(m) => Some(m.0),
        None => None,
    }
}

/// The number behind an optional tick.
pub open spec fn tick_value(tick: Option<Tick>) -> Option<u16> {
    match tick {
        Some(t) => Some(t.0),
        None => None,
    }
}

/// A whole message: its payload with the id and tick that its channel asks for.
#[derive(Clone, Debug, PartialEq, Eq)]
pub struct SingleData {
    pub id: Option<MessageId>,
    pub tick: Option<Tick>,
    pub bytes: Vec<u8>,
}

/// One fragment of a message that was too large for one packet.
#[derive(Clone, Debug, PartialEq, Eq)]
pub struct FragmentData {
    pub message_id: MessageId,
    pub tick: Option<Tick>,
    pub fragment_id: u8,
    pub num_fragments: u8,
    pub bytes: Vec<u8>,
}

/// A message as it travels in a packet: whole, or one fragment of a larger one.
#[derive(Clone, Debug, PartialEq, Eq)]
pub enum MessageContainer {
    Single(SingleData),
    Fragment(FragmentData),
}

impl View for SingleData {
    type V = SingleView;

    open spec fn view(&self) -> SingleView {
        SingleView { id: id_value(self.id), tick: tick_value(self.tick), bytes: self.bytes@ }
    }
}

impl View for FragmentData {
    type V = FragmentView;

    open spec fn view(&self) -> FragmentView {
        FragmentView {
            message_id: self.message_id.0,
            tick: tick_value(self.tick),
            fragment_id: self.fragment_id,
            num_fragments: self.num_fragments,
            bytes: self.bytes@,
        }
    }
}

impl View for MessageContainer {
    type V = MessageView;

    open spec fn view(&self) -> MessageView {
        match self {
            MessageContainer::Single(data) => MessageView::Single(data@),
            MessageContainer::Fragment(data) => MessageView::Fragment(data@),
        }
    }
}

impl MessageView {
    /// The id that the message carries, if any. A fragment always carries one.
    pub open spec fn id(self) -> Option<u16> {
        match self {
            MessageView::Single(data) => data.id,
            MessageView::Fragment(data) => Some(data.message_id),
        }
    }

    /// The message with the id `id` in place of its own; payload and tick
    /// stay as they are.
    pub open spec fn with_id(self, id: u16) -> MessageView {
        match self {
            MessageView::Single(data) => MessageView::Single(SingleView { id: Some(id), ..data }),
            MessageView::Fragment(data) => MessageView::Fragment(
                FragmentView { message_id: id, ..data },
            ),
        }
    }
}

/// The mathematical value of an optional message.
pub open spec fn message_view(m: Option<SingleData>) -> Option<SingleView> {
    match m {
        Some(data) => Some(data@),
        None => None,
    }
}

impl SingleData {
    /// A whole message with the given id and payload, and no tick.
    pub fn new(id: Option<MessageId>, bytes: Vec<u8>) -> (r: SingleData)
        ensures
            r@ == (SingleView { id: id_value(id), tick: None, bytes: bytes@ }),
    {
        SingleData { id, tick: None, bytes }
    }
}

impl MessageContainer {
    /// A whole message with the given payload, and neither id nor tick.
    pub fn new(bytes: Vec<u8>) -> (r: MessageContainer)
        ensures
            r@ == MessageView::Single(SingleView { id: None, tick: None, bytes: bytes@ }),
    {
        MessageContainer::Single(SingleData { id: None, tick: None, bytes })
    }

    /// The id that the message carries, if any.
    pub fn id(&self) -> (r: Option<MessageId>)
        ensures
            id_value(r) == self@.id(),
    {
        match self {
            MessageContainer::Single(data) => data.id,
            MessageContainer::Fragment(data) => Some(data.message_id),
        }
    }

    /// Gives the message the id `id`; payload and tick stay as they are.
    pub fn set_id(&mut self, id: MessageId)
        ensures
            final(self)@ == old(self)@.with_id(id.0),
    {
        match self {
            MessageContainer::Single(data) => {
                data.id = Some(id);
            },
            MessageContainer::Fragment(data) => {
                data.message_id = id;
            },
        }
    }
}

} // verus!
