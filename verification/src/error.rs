//! Errors that a channel raises to its connection.

use vstd::prelude::*;

verus! {

/// Why a channel receiver refused a message.
#[derive(Clone, Copy, Debug, PartialEq, Eq, Structural)]
pub enum ChannelError {
    /// The channel orders its messages by id and the message carries none.
    MissingMessageId,
    /// A fragment would open a new reassembly while every slot is taken.
    FragmentSlotOverflow,
    /// The message's id lies beyond the ids that the channel can take in.
    MessageIdOutsideWindow,
    /// The channel releases its messages by tick and the message carries none.
    MissingTick,
}

impl ChannelError {
    /// Whether the error is a violation of the protocol, which fails the connection.
    pub open spec fn is_protocol_violation(self) -> bool {
        self == ChannelError::FragmentSlotOverflow || self == ChannelError::MessageIdOutsideWindow
    }

    /// Whether the error fails the connection, rather than only the message.
    pub fn fails_connection(&self) -> (r: bool)
        ensures
            r == self.is_protocol_violation(),
    {
        match self {
            ChannelError::MissingMessageId => false,
            ChannelError::FragmentSlotOverflow => true,
            ChannelError::MessageIdOutsideWindow => true,
            ChannelError::MissingTick => false,
        }
    }
}

} // verus!
