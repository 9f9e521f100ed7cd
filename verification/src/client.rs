//! The in-process client: a client that shares its process with the server and
//! needs no transport.

use vstd::prelude::*;
use crate::networking::NetworkingState;

verus! {

/// Stable identity of a client within a session.
#[derive(Clone, Copy, Debug, PartialEq, Eq, Hash, Structural)]
pub enum ClientId {
    /// A client that connected through the netcode handshake.
    Netcode(u64),
    /// A client in the server's own process.
    Local(u64),
}

/// A client in the server's own process. It is connected from the moment it
/// is asked to connect, and it neither sends nor receives packets.
#[derive(Clone, Copy, Debug, PartialEq, Eq, Structural)]
pub struct Client {
    id: u64,
    is_connected: bool,
}

impl Default for Client {
    fn default() -> (r: Client)
        ensures
            r.id_spec() == 0,
            !r.connected(),
    {
        Client { id: 0, is_connected: false }
    }
}

impl Client {
    /// The number that the client was made with.
    pub closed spec fn id_spec(&self) -> u64 {
        self.id
    }

    /// Whether the client is connected.
    pub closed spec fn connected(&self) -> bool {
        self.is_connected
    }

    /// The networking state that the client reports.
    pub open spec fn state_spec(&self) -> NetworkingState {
        if self.connected() {
            NetworkingState::Connected
        } else {
            NetworkingState::Disconnected
        }
    }

    /// A client with the id `id`, not connected.
    pub fn new(id: u64) -> (r: Client)
        ensures
            r.id_spec() == id,
            !r.connected(),
    {
        Client { id, is_connected: false }
    }

    /// Connects the client: it is connected at once.
    pub fn connect(&mut self)
        ensures
            final(self).connected(),
            final(self).id_spec() == old(self).id_spec(),
    {
        self.is_connected = true;
    }

    /// Disconnects the client.
    pub fn disconnect(&mut self)
        ensures
            !final(self).connected(),
            final(self).id_spec() == old(self).id_spec(),
    {
        self.is_connected = false;
    }

    /// The client's networking state: connected or disconnected, never connecting.
    pub fn state(&self) -> (r: NetworkingState)
        ensures
            r == self.state_spec(),
    {
        if self.is_connected {
            NetworkingState::Connected
        } else {
            NetworkingState::Disconnected
        }
    }

    /// The client's identity: the local id with the client's number.
    pub fn id(&self) -> (r: ClientId)
        ensures
            r == ClientId::Local(self.id_spec()),
    {
        ClientId::Local(self.id)
    }
}

} // verus!
