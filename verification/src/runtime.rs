//! The registry's decisions for network events and accepted connections.
//!
//! The registry task alternates I/O (reading a socket, accepting, writing)
//! with decisions on its state. The decisions live here, as functions from
//! the current state and an input to the new state and what to show; the
//! task that performs the I/O feeds them.

use vstd::prelude::*;

use crate::event::{DisplayLine, NetEvent, NetEventView, PeerInfo, PeerView};
use crate::hex::{format_hex_spaced, format_hex_spec};
use crate::id::{ConnectionId, IdView};
use crate::registry::{closed_stream, Registry, RegistryView, StreamHandle, StreamView};
use crate::state::{ConnectionState, ConnectionStatus, StateView};
use crate::text::{last_index, parse_u16, parse_u16_spec, push_str, rfind_char, string_of};

verus! {

// ---------------------------------------------------------------------
// Display lines
// ---------------------------------------------------------------------

/// The texts of a sequence of display lines.
pub open spec fn lines_view(s: Seq<DisplayLine>) -> Seq<Seq<char>> {
    s.map_values(|l: DisplayLine| l.text@)
}

/// `[<name>]<rest>`
pub open spec fn tagged(name: Seq<char>, rest: Seq<char>) -> Seq<char> {
    "["@ + name + "]"@ + rest
}

/// `[<name>]<rest>` as a display line.
pub(crate) fn tagged_line(name: &str, rest: &str) -> (r: DisplayLine)
    ensures
        r.text@ == tagged(name@, rest@),
{
    let mut s = string_of("[");
    push_str(&mut s, name);
    push_str(&mut s, "]");
    push_str(&mut s, rest);
    DisplayLine::new(s)
}

// ---------------------------------------------------------------------
// Network events
// ---------------------------------------------------------------------

impl<S, T> RegistryView<S, T> {
    /// The line a received payload is shown with.
    pub open spec fn received_line(self, id: IdView, bytes: Seq<u8>) -> Seq<char> {
        tagged(self.display_name(id), " RECV "@ + format_hex_spec(bytes))
    }

    /// The line a closed stream is shown with.
    pub open spec fn closed_line(self, id: IdView) -> Seq<char> {
        tagged(self.display_name(id), " CLOSED"@)
    }

    /// The line a connection error is shown with.
    pub open spec fn error_line(self, id: IdView, message: Seq<char>) -> Seq<char> {
        tagged(self.display_name(id), " ERROR "@ + message)
    }
}

impl<S, T> Registry<S, T> {
    /// Apply a received-bytes event: the `RECV` line, bytes in hex.
    pub fn on_received(&self, id: &ConnectionId, bytes: &[u8]) -> (r: DisplayLine)
        requires
            self.wf(),
        ensures
            r.text@ == self@.received_line(id@, bytes@),
    {
        let name = self.display_name(id);
        let hex = format_hex_spaced(bytes);
        let mut rest = string_of(" RECV ");
        push_str(&mut rest, hex.as_str());
        tagged_line(name.as_str(), rest.as_str())
    }

    /// Apply a close event: the `CLOSED` line (under the name the stream
    /// had), and the stream leaves the registry. Its handle is handed back
    /// so that the caller releases it.
    pub fn on_closed_event(&mut self, id: &ConnectionId) -> (r: (DisplayLine, Option<StreamHandle<S>>))
        requires
            old(self).wf(),
        ensures
            final(self).wf(),
            r.0.text@ == old(self)@.closed_line(id@),
            match r.1 {
                Some(h) => {
                    &&& old(self)@.streams.contains_key(id@)
                    &&& h@ == closed_stream(old(self)@.streams[id@])
                    &&& final(self)@ == old(self)@.without_streams(set![id@])
                },
                None => {
                    &&& !old(self)@.streams.contains_key(id@)
                    &&& final(self)@ == old(self)@
                },
            },
    {
        let name = self.display_name(id);
        let h = self.drop_stream(id);
        (tagged_line(name.as_str(), " CLOSED"), h)
    }

    /// Apply a per-connection error event: the `ERROR` line.
    pub fn on_error_event(&self, id: &ConnectionId, message: &str) -> (r: DisplayLine)
        requires
            self.wf(),
        ensures
            r.text@ == self@.error_line(id@, message@),
    {
        let name = self.display_name(id);
        let mut rest = string_of(" ERROR ");
        push_str(&mut rest, message);
        tagged_line(name.as_str(), rest.as_str())
    }

    /// Apply a network event. A received payload or an error is shown; a
    /// close is shown and removes the stream, whose handle is handed back;
    /// a rename is shown where it happens, so the event itself shows
    /// nothing.
    pub fn handle_event(&mut self, ev: NetEvent) -> (r: (Option<DisplayLine>, Option<StreamHandle<S>>))
        requires
            old(self).wf(),
        ensures
            final(self).wf(),
            match ev@ {
                NetEventView::Received { id, bytes } => {
                    &&& final(self)@ == old(self)@
                    &&& r.0 matches Some(l) && l.text@ == old(self)@.received_line(id, bytes)
                    &&& r.1 is None
                },
                NetEventView::Closed { id } => {
                    &&& r.0 matches Some(l) && l.text@ == old(self)@.closed_line(id)
                    &&& match r.1 {
                        Some(h) => {
                            &&& old(self)@.streams.contains_key(id)
                            &&& h@ == closed_stream(old(self)@.streams[id])
                            &&& final(self)@ == old(self)@.without_streams(set![id])
                        },
                        None => {
                            &&& !old(self)@.streams.contains_key(id)
                            &&& final(self)@ == old(self)@
                        },
                    }
                },
                NetEventView::Error { id, message } => {
                    &&& final(self)@ == old(self)@
                    &&& r.0 matches Some(l) && l.text@ == old(self)@.error_line(id, message)
                    &&& r.1 is None
                },
                NetEventView::Renamed { .. } => {
                    &&& final(self)@ == old(self)@
                    &&& r.0 is None
                    &&& r.1 is None
                },
            },
    {
        match ev {
            NetEvent::Received { id, bytes } => {
                let l = self.on_received(&id, bytes.as_slice());
                (Some(l), None)
            },
            NetEvent::Closed { id } => {
                let (l, h) = self.on_closed_event(&id);
                (Some(l), h)
            },
            NetEvent::Error { id, message } => {
                let l = self.on_error_event(&id, message.as_str());
                (Some(l), None)
            },
            NetEvent::Renamed { .. } => (None, None),
        }
    }
}

// ---------------------------------------------------------------------
// Accepted connections
// ---------------------------------------------------------------------

/// The port at the end of a socket address written `ip:port` (or
/// `[ipv6]:port`): what follows the last `:`, read as a `u16`.
pub open spec fn remote_port_spec(s: Seq<char>) -> Option<u16> {
    match last_index(s, ':') {
        Some(i) => parse_u16_spec(s.subrange(i + 1, s.len() as int)),
        None => None,
    }
}

/// The remote port of a TCP peer address.
pub fn parse_remote_port(sock_str: &str) -> (r: Option<u16>)
    ensures
        r == remote_port_spec(sock_str@),
{
    match rfind_char(sock_str, ':') {
        Some(colon) => {
            let n = sock_str.unicode_len();
            let rest = sock_str.substring_char(colon + 1, n);
            parse_u16(rest)
        },
        None => None,
    }
}

/// The id an accept loop proposes for a new connection, before collision
/// handling: a TCP server's peer by its remote port, an IPC server's peer
/// by its pid. Any other pairing proposes nothing.
pub open spec fn tentative_spec(parent: IdView, peer: PeerView) -> Option<IdView> {
    match (parent, peer) {
        (IdView::TcpServer { port }, PeerView::TcpSocket { addr }) => match remote_port_spec(addr) {
            Some(rp) => Some(IdView::AcceptedTcp { parent_port: port, remote_port: rp, disambig: None }),
            None => None,
        },
        (IdView::IpcServer { path }, PeerView::IpcPid { pid }) => Some(
            IdView::AcceptedIpc { parent_path: path, pid, disambig: None },
        ),
        _ => None,
    }
}

/// The id an accept loop proposes for a new connection of `parent`.
pub fn tentative_child(parent: &ConnectionId, peer: &PeerInfo) -> (r: Option<ConnectionId>)
    ensures
        match r {
            Some(c) => tentative_spec(parent@, peer@) == Some(c@),
            None => tentative_spec(parent@, peer@) is None,
        },
{
    match (parent, peer) {
        (ConnectionId::TcpServer { port }, PeerInfo::TcpSocket { addr }) => {
            match parse_remote_port(addr.as_str()) {
                Some(rp) => Some(
                    ConnectionId::AcceptedTcp { parent_port: *port, remote_port: rp, disambig: None },
                ),
                None => None,
            }
        },
        (ConnectionId::IpcServer { path }, PeerInfo::IpcPid { pid }) => Some(
            ConnectionId::AcceptedIpc { parent_path: path.clone(), pid: *pid, disambig: None },
        ),
        _ => None,
    }
}

/// The unsuffixed id an accepted connection is allocated from: the
/// parent's port with the tentative id's remote port, or the parent's path
/// with its pid. `None` when parent and tentative id do not match.
pub open spec fn accepted_base(parent: IdView, tentative: IdView) -> Option<IdView> {
    match (parent, tentative) {
        (IdView::TcpServer { port }, IdView::AcceptedTcp { remote_port, .. }) => Some(
            IdView::AcceptedTcp { parent_port: port, remote_port, disambig: None },
        ),
        (IdView::IpcServer { path }, IdView::AcceptedIpc { pid, .. }) => Some(
            IdView::AcceptedIpc { parent_path: path, pid, disambig: None },
        ),
        _ => None,
    }
}

/// The unsuffixed id an accepted connection is allocated from, `None`
/// when parent and tentative id do not match.
pub fn accepted_base_of(parent: &ConnectionId, tentative: &ConnectionId) -> (r: Option<ConnectionId>)
    ensures
        match r {
            Some(b) => accepted_base(parent@, tentative@) == Some(b@),
            None => accepted_base(parent@, tentative@) is None,
        },
{
    match (parent, tentative) {
        (ConnectionId::TcpServer { port }, ConnectionId::AcceptedTcp { remote_port, .. }) => Some(
            ConnectionId::AcceptedTcp { parent_port: *port, remote_port: *remote_port, disambig: None },
        ),
        (ConnectionId::IpcServer { path }, ConnectionId::AcceptedIpc { pid, .. }) => Some(
            ConnectionId::AcceptedIpc { parent_path: path.clone(), pid: *pid, disambig: None },
        ),
        _ => None,
    }
}

/// The line shown when an accepted id was renamed.
pub open spec fn renamed_lines(ren: Option<(IdView, IdView)>) -> Seq<Seq<char>> {
    match ren {
        Some((new_id, old_id)) => seq![tagged(new_id.text(), " RENAMED "@ + old_id.text())],
        None => Seq::empty(),
    }
}

/// The line shown for a newly accepted connection.
pub open spec fn accept_line(id: IdView, peer: PeerView) -> Seq<char> {
    tagged(id.text(), " ACCEPT peer="@ + peer.render())
}

/// The stream registered for an accepted connection.
pub open spec fn accepted_stream<S>(id: IdView, parent: IdView, peer: PeerView, io: S) -> StreamView<S> {
    StreamView {
        state: StateView {
            id,
            status: ConnectionStatus::Connected,
            label: None,
            peer_info: Some(peer),
        },
        io,
        parent: Some(parent),
        local_ipc_path: None,
    }
}

impl<S, T> Registry<S, T> {
    /// Register a connection that a server accepted: allocate its final id
    /// (renaming the first connection of the same base on its first
    /// collision), register the stream, and show the rename and the
    /// accept; the final id is returned. A tentative id that does not
    /// match its parent is refused with an internal error line.
    pub fn handle_accepted(
        &mut self,
        parent: ConnectionId,
        tentative: ConnectionId,
        peer_info: PeerInfo,
        io: S,
    ) -> (r: (Option<ConnectionId>, Vec<DisplayLine>))
        requires
            old(self).wf(),
            accepted_base(parent@, tentative@) matches Some(b) ==> old(self)@.can_allocate(b),
        ensures
            final(self).wf(),
            match accepted_base(parent@, tentative@) {
                None => {
                    &&& final(self)@ == old(self)@
                    &&& r.0 is None
                    &&& lines_view(r.1@) == seq![
                        tagged(parent@.text(), " ERROR internal: mismatched accepted id shape"@),
                    ]
                },
                Some(b) => {
                    let (mid, id, ren) = old(self)@.allocation(b);
                    &&& final(self)@ == mid.with_stream(accepted_stream(id, parent@, peer_info@, io))
                    &&& r.0 matches Some(x) && x@ == id
                    &&& lines_view(r.1@) == renamed_lines(ren) + seq![accept_line(id, peer_info@)]
                },
            },
    {
        let mut lines: Vec<DisplayLine> = Vec::new();
        let alloc = match (&parent, &tentative) {
            (ConnectionId::TcpServer { port }, ConnectionId::AcceptedTcp { remote_port, .. }) => {
                self.allocate_accepted_tcp_id(*port, *remote_port)
            },
            (ConnectionId::IpcServer { path }, ConnectionId::AcceptedIpc { pid, .. }) => {
                self.allocate_accepted_ipc_id(path.clone(), *pid)
            },
            _ => {
                let p = parent.to_string();
                lines.push(tagged_line(p.as_str(), " ERROR internal: mismatched accepted id shape"));
                proof {
                    assert(lines_view(lines@) =~= seq![
                        tagged(parent@.text(), " ERROR internal: mismatched accepted id shape"@),
                    ]);
                }
                return (None, lines);
            },
        };
        let (final_id, rename) = alloc;
        let ghost b = accepted_base(parent@, tentative@)->0;
        match rename {
            Some(NetEvent::Renamed { new_id, old_id }) => {
                let n = new_id.to_string();
                let o = old_id.to_string();
                let mut rest = string_of(" RENAMED ");
                push_str(&mut rest, o.as_str());
                lines.push(tagged_line(n.as_str(), rest.as_str()));
            },
            _ => {},
        }
        let ghost before = lines@;
        let state = ConnectionState::new_connected(final_id.duplicate(), Some(peer_info.duplicate()));
        let handle = StreamHandle { state, io, parent: Some(parent.duplicate()), local_ipc_path: None };
        proof {
            assert(handle@ == accepted_stream(final_id@, parent@, peer_info@, io));
        }
        self.insert_stream(handle);
        let f = final_id.to_string();
        let pr = peer_info.render();
        let mut rest = string_of(" ACCEPT peer=");
        push_str(&mut rest, pr.as_str());
        lines.push(tagged_line(f.as_str(), rest.as_str()));
        proof {
            assert(lines_view(lines@) =~= lines_view(before).push(accept_line(final_id@, peer_info@)));
        }
        (Some(final_id), lines)
    }
}

} // verus!
