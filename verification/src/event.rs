//! Network events, display lines and command outcomes.

use vstd::prelude::*;

use crate::id::{ConnectionId, IdView};
use crate::text::{int_text, push_int, string_of};

verus! {

/// Remote-peer descriptor, independent of the concrete transport.
#[derive(Debug)]
pub enum PeerInfo {
    /// TCP remote: `ip:port` as text.
    TcpSocket { addr: String },
    /// IPC peer: PID of the process on the other end.
    IpcPid { pid: i32 },
}

pub enum PeerView {
    TcpSocket { addr: Seq<char> },
    IpcPid { pid: i32 },
}

impl View for PeerInfo {
    type V = PeerView;

    open spec fn view(&self) -> PeerView {
        match self {
            PeerInfo::TcpSocket { addr } => PeerView::TcpSocket { addr: addr@ },
            PeerInfo::IpcPid { pid } => PeerView::IpcPid { pid: *pid },
        }
    }
}

impl PeerView {
    /// Rendering used in status and events (no `peer=` prefix).
    pub open spec fn render(self) -> Seq<char> {
        match self {
            PeerView::TcpSocket { addr } => addr,
            PeerView::IpcPid { pid } => "pid="@ + int_text(pid as int),
        }
    }
}

impl PeerInfo {
    /// Rendering used in status and events (no `peer=` prefix).
    pub fn render(&self) -> (r: String)
        ensures
            r@ == self@.render(),
    {
        match self {
            PeerInfo::TcpSocket { addr } => addr.clone(),
            PeerInfo::IpcPid { pid } => {
                let mut s = string_of("pid=");
                push_int(&mut s, *pid as i64);
                s
            },
        }
    }

    /// A copy with the same value.
    pub fn duplicate(&self) -> (r: PeerInfo)
        ensures
            r@ == self@,
    {
        match self {
            PeerInfo::TcpSocket { addr } => PeerInfo::TcpSocket { addr: addr.clone() },
            PeerInfo::IpcPid { pid } => PeerInfo::IpcPid { pid: *pid },
        }
    }
}

impl Clone for PeerInfo {
    fn clone(&self) -> (r: PeerInfo)
        ensures
            r@ == self@,
    {
        self.duplicate()
    }
}

/// The view of an optional peer.
pub open spec fn opt_peer_view(p: Option<PeerInfo>) -> Option<PeerView> {
    match p {
        Some(x) => Some(x@),
        None => None,
    }
}

/// Asynchronous network event emitted by accept and read tasks.
#[derive(Debug)]
pub enum NetEvent {
    /// Raw bytes received on a stream.
    Received { id: ConnectionId, bytes: Vec<u8> },
    /// A stream closed (EOF or remote close).
    Closed { id: ConnectionId },
    /// Per-connection failure.
    Error { id: ConnectionId, message: String },
    /// An accepted-connection id was renamed due to a remote-port collision.
    Renamed { new_id: ConnectionId, old_id: ConnectionId },
}

pub enum NetEventView {
    Received { id: IdView, bytes: Seq<u8> },
    Closed { id: IdView },
    Error { id: IdView, message: Seq<char> },
    Renamed { new_id: IdView, old_id: IdView },
}

impl View for NetEvent {
    type V = NetEventView;

    open spec fn view(&self) -> NetEventView {
        match self {
            NetEvent::Received { id, bytes } => NetEventView::Received { id: id@, bytes: bytes@ },
            NetEvent::Closed { id } => NetEventView::Closed { id: id@ },
            NetEvent::Error { id, message } => NetEventView::Error { id: id@, message: message@ },
            NetEvent::Renamed { new_id, old_id } => NetEventView::Renamed {
                new_id: new_id@,
                old_id: old_id@,
            },
        }
    }
}

/// One line of display output, already formatted.
#[derive(Debug)]
pub struct DisplayLine {
    pub text: String,
}

impl DisplayLine {
    pub fn new(text: String) -> (r: DisplayLine)
        ensures
            r.text@ == text@,
    {
        DisplayLine { text }
    }
}

impl Clone for DisplayLine {
    fn clone(&self) -> (r: DisplayLine)
        ensures
            r.text@ == self.text@,
    {
        DisplayLine { text: self.text.clone() }
    }
}

/// Result of executing a user command.
#[derive(Debug)]
pub struct CommandOutcome {
    pub success: bool,
    pub message: String,
}

impl CommandOutcome {
    pub fn ok(msg: String) -> (r: CommandOutcome)
        ensures
            r.success,
            r.message@ == msg@,
    {
        CommandOutcome { success: true, message: msg }
    }

    pub fn err(msg: String) -> (r: CommandOutcome)
        ensures
            !r.success,
            r.message@ == msg@,
    {
        CommandOutcome { success: false, message: msg }
    }

    /// The reply line the prompt shows: `OK <message>` or `ERR <message>`.
    pub fn render(&self) -> (r: String)
        ensures
            r@ == (if self.success {
                "OK "@
            } else {
                "ERR "@
            }) + self.message@,
    {
        let mut s = if self.success {
            string_of("OK ")
        } else {
            string_of("ERR ")
        };
        s.append(self.message.as_str());
        s
    }
}

impl Clone for CommandOutcome {
    fn clone(&self) -> (r: CommandOutcome)
        ensures
            r.success == self.success,
            r.message@ == self.message@,
    {
        CommandOutcome { success: self.success, message: self.message.clone() }
    }
}

} // verus!
