//! Connection state machine.
//!
//! Transitions are pure methods. The state object is also the source of
//! truth for the `status` command output.

use vstd::prelude::*;

use crate::event::{opt_peer_view, PeerInfo, PeerView};
use crate::id::{ConnectionId, IdView};

verus! {

/// Lifecycle status for a single connection (server or stream).
#[derive(Debug, Clone, Copy, PartialEq, Eq, Structural)]
pub enum ConnectionStatus {
    Connected,
    Closing,
    Closed,
}

/// Per-connection state snapshot stored in the registry.
#[derive(Debug)]
pub struct ConnectionState {
    pub id: ConnectionId,
    pub status: ConnectionStatus,
    pub label: Option<String>,
    pub peer_info: Option<PeerInfo>,
}

pub struct StateView {
    pub id: IdView,
    pub status: ConnectionStatus,
    pub label: Option<Seq<char>>,
    pub peer_info: Option<PeerView>,
}

impl View for ConnectionState {
    type V = StateView;

    open spec fn view(&self) -> StateView {
        StateView {
            id: self.id@,
            status: self.status,
            label: self.label.deep_view(),
            peer_info: opt_peer_view(self.peer_info),
        }
    }
}

impl ConnectionState {
    /// Create a new state directly in `Connected` (for connections whose
    /// transport is already established on arrival).
    pub fn new_connected(id: ConnectionId, peer_info: Option<PeerInfo>) -> (r: ConnectionState)
        ensures
            r@ == (StateView {
                id: id@,
                status: ConnectionStatus::Connected,
                label: None,
                peer_info: opt_peer_view(peer_info),
            }),
    {
        ConnectionState { id, status: ConnectionStatus::Connected, label: None, peer_info }
    }

    /// Mark the connection as fully closed.
    pub fn on_closed(&mut self)
        ensures
            final(self)@ == (StateView { status: ConnectionStatus::Closed, ..old(self)@ }),
    {
        self.status = ConnectionStatus::Closed;
    }
}

} // verus!
