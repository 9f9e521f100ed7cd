//! The core of a client-server networking engine for tick-based simulations.
//!
//! A peer keeps one [`connection::Connection`] per remote peer. Messages are
//! queued on channels, each with its own policy for loss and order; a flush
//! sorts what is due into packets, every packet acknowledges what has
//! arrived, and an acknowledgement retires what it names. On the way in, a
//! packet is decoded, its acknowledgements are taken, and its messages go to
//! the receivers of their channels, which reassemble fragments and hand the
//! messages out in the order that the channel promises.
//!
//! Around the connection stand the parts that give it meaning: the
//! [`server::Server`] with one connection per client, the client's networking
//! state machine in [`networking`], the alignment of the client's clock with
//! the server's in [`sync`], and the receiving side of entity replication in
//! [`replication`].
//!
//! Every function states what it returns and changes over the mathematical
//! value of its arguments, and the laws that tie the functions together are
//! stated and proved beside them.

pub mod ack;
pub mod assembler;
pub mod channel;
pub mod client;
pub mod codec;
pub mod connection;
pub mod error;
pub mod fragment_receiver;
pub mod fragment_sender;
pub mod message;
pub mod networking;
pub mod ordered_reliable;
pub mod packet;
pub mod replication;
pub mod sender;
pub mod sent_packets;
pub mod sequenced_unreliable;
pub mod server;
pub mod sync;
pub mod tick_buffered;
pub mod unordered_reliable;
pub mod unordered_unreliable;
pub mod wire;
pub mod wrapping_id;
