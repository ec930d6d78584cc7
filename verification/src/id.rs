//! Typed connection identifier.
//!
//! This enum is the only way to reference a connection in business logic.
//! User tokens are parsed into `ConnectionId` and rendered back with
//! `ConnectionId::to_string`, which follows the identifier scheme:
//! `3000`, `3000.10015`, `3000.10015#2`, `/tmp/s.sock`, `/tmp/s.sock.4242#1`.
//! Paths are kept as the text the user typed.

use vstd::prelude::*;

use crate::text::{str_eq, dec_text, int_text, push_char, push_dec, push_int, push_str, string_of};

verus! {

/// Identifier for every object the registry tracks: servers, clients,
/// accepted connections.
#[derive(Debug, Hash)]
pub enum ConnectionId {
    /// A TCP server listening on a local port.
    TcpServer { port: u16 },
    /// A Unix-domain server bound to a local path.
    IpcServer { path: String },
    /// An outgoing TCP client bound on a local port.
    TcpClient { local_port: u16 },
    /// An outgoing IPC client bound on a local path.
    IpcClient { local_path: String },
    /// A connection accepted by a TCP server.
    /// `disambig` is `None` without a collision, `Some(n)` (n from 1) on one.
    AcceptedTcp { parent_port: u16, remote_port: u16, disambig: Option<u32> },
    /// A connection accepted by an IPC server.
    AcceptedIpc { parent_path: String, pid: i32, disambig: Option<u32> },
}

/// Mathematical value of a `ConnectionId`: paths as character sequences.
pub enum IdView {
    TcpServer { port: u16 },
    IpcServer { path: Seq<char> },
    TcpClient { local_port: u16 },
    IpcClient { local_path: Seq<char> },
    AcceptedTcp { parent_port: u16, remote_port: u16, disambig: Option<u32> },
    AcceptedIpc { parent_path: Seq<char>, pid: i32, disambig: Option<u32> },
}

impl View for ConnectionId {
    type V = IdView;

    open spec fn view(&self) -> IdView {
        match self {
            ConnectionId::TcpServer { port } => IdView::TcpServer { port: *port },
            ConnectionId::IpcServer { path } => IdView::IpcServer { path: path@ },
            ConnectionId::TcpClient { local_port } => IdView::TcpClient { local_port: *local_port },
            ConnectionId::IpcClient { local_path } => IdView::IpcClient { local_path: local_path@ },
            ConnectionId::AcceptedTcp { parent_port, remote_port, disambig } => IdView::AcceptedTcp {
                parent_port: *parent_port,
                remote_port: *remote_port,
                disambig: *disambig,
            },
            ConnectionId::AcceptedIpc { parent_path, pid, disambig } => IdView::AcceptedIpc {
                parent_path: parent_path@,
                pid: *pid,
                disambig: *disambig,
            },
        }
    }
}

/// `#n` for a disambiguation suffix, nothing otherwise.
pub open spec fn suffix_text(d: Option<u32>) -> Seq<char> {
    match d {
        Some(n) => seq!['#'] + dec_text(n as nat),
        None => Seq::empty(),
    }
}

impl IdView {
    /// True for the ids of listeners.
    pub open spec fn is_server(self) -> bool {
        self is TcpServer || self is IpcServer
    }

    /// The rendered identifier.
    pub open spec fn text(self) -> Seq<char> {
        match self {
            IdView::TcpServer { port } => dec_text(port as nat),
            IdView::IpcServer { path } => path,
            IdView::TcpClient { local_port } => dec_text(local_port as nat),
            IdView::IpcClient { local_path } => local_path,
            IdView::AcceptedTcp { parent_port, remote_port, disambig } => dec_text(
                parent_port as nat,
            ) + seq!['.'] + dec_text(remote_port as nat) + suffix_text(disambig),
            IdView::AcceptedIpc { parent_path, pid, disambig } => parent_path + seq!['.'] + int_text(
                pid as int,
            ) + suffix_text(disambig),
        }
    }
}

fn push_suffix(s: &mut String, d: Option<u32>)
    ensures
        final(s)@ == old(s)@ + suffix_text(d),
{
    match d {
        Some(n) => {
            push_char(s, '#');
            push_dec(s, n as u64);
            assert(final(s)@ =~= old(s)@ + suffix_text(d));
        },
        None => {
            assert(old(s)@ + suffix_text(d) =~= old(s)@);
        },
    }
}

impl ConnectionId {
    /// True if this id represents a server (listener + group of children).
    pub fn is_server(&self) -> (r: bool)
        ensures
            r == self@.is_server(),
    {
        match self {
            ConnectionId::TcpServer { .. } => true,
            ConnectionId::IpcServer { .. } => true,
            _ => false,
        }
    }

    /// The identifier as the user sees and types it.
    pub fn to_string(&self) -> (r: String)
        ensures
            r@ == self@.text(),
    {
        match self {
            ConnectionId::TcpServer { port } => {
                let mut s = String::new();
                push_dec(&mut s, *port as u64);
                assert(s@ =~= self@.text());
                s
            },
            ConnectionId::IpcServer { path } => string_of(path.as_str()),
            ConnectionId::TcpClient { local_port } => {
                let mut s = String::new();
                push_dec(&mut s, *local_port as u64);
                assert(s@ =~= self@.text());
                s
            },
            ConnectionId::IpcClient { local_path } => string_of(local_path.as_str()),
            ConnectionId::AcceptedTcp { parent_port, remote_port, disambig } => {
                let mut s = String::new();
                push_dec(&mut s, *parent_port as u64);
                push_char(&mut s, '.');
                push_dec(&mut s, *remote_port as u64);
                push_suffix(&mut s, *disambig);
                assert(s@ =~= self@.text());
                s
            },
            ConnectionId::AcceptedIpc { parent_path, pid, disambig } => {
                let mut s = String::new();
                push_str(&mut s, parent_path.as_str());
                push_char(&mut s, '.');
                push_int(&mut s, *pid as i64);
                push_suffix(&mut s, *disambig);
                assert(s@ =~= self@.text());
                s
            },
        }
    }

    /// A copy with the same value.
    pub fn duplicate(&self) -> (r: ConnectionId)
        ensures
            r@ == self@,
    {
        match self {
            ConnectionId::TcpServer { port } => ConnectionId::TcpServer { port: *port },
            ConnectionId::IpcServer { path } => ConnectionId::IpcServer { path: path.clone() },
            ConnectionId::TcpClient { local_port } => ConnectionId::TcpClient {
                local_port: *local_port,
            },
            ConnectionId::IpcClient { local_path } => ConnectionId::IpcClient {
                local_path: local_path.clone(),
            },
            ConnectionId::AcceptedTcp { parent_port, remote_port, disambig } =>
                ConnectionId::AcceptedTcp {
                parent_port: *parent_port,
                remote_port: *remote_port,
                disambig: *disambig,
            },
            ConnectionId::AcceptedIpc { parent_path, pid, disambig } => ConnectionId::AcceptedIpc {
                parent_path: parent_path.clone(),
                pid: *pid,
                disambig: *disambig,
            },
        }
    }

    /// Equality of identifiers.
    pub fn same(&self, other: &ConnectionId) -> (r: bool)
        ensures
            r == (self@ == other@),
    {
        match self {
            ConnectionId::TcpServer { port: a } => match other {
                ConnectionId::TcpServer { port: b } => *a == *b,
                _ => false,
            },
            ConnectionId::IpcServer { path: a } => match other {
                ConnectionId::IpcServer { path: b } => str_eq(a.as_str(), b.as_str()),
                _ => false,
            },
            ConnectionId::TcpClient { local_port: a } => match other {
                ConnectionId::TcpClient { local_port: b } => *a == *b,
                _ => false,
            },
            ConnectionId::IpcClient { local_path: a } => match other {
                ConnectionId::IpcClient { local_path: b } => str_eq(a.as_str(), b.as_str()),
                _ => false,
            },
            ConnectionId::AcceptedTcp { parent_port: a1, remote_port: a2, disambig: a3 } =>
                match other {
                ConnectionId::AcceptedTcp { parent_port: b1, remote_port: b2, disambig: b3 } => *a1
                    == *b1 && *a2 == *b2 && opt_u32_eq(*a3, *b3),
                _ => false,
            },
            ConnectionId::AcceptedIpc { parent_path: a1, pid: a2, disambig: a3 } => match other {
                ConnectionId::AcceptedIpc { parent_path: b1, pid: b2, disambig: b3 } => {
                    let same_path = str_eq(a1.as_str(), b1.as_str());
                    *a2 == *b2 && opt_u32_eq(*a3, *b3) && same_path
                },
                _ => false,
            },
        }
    }
}

fn opt_u32_eq(a: Option<u32>, b: Option<u32>) -> (r: bool)
    ensures
        r == (a == b),
{
    match (a, b) {
        (Some(x), Some(y)) => x == y,
        (None, None) => true,
        _ => false,
    }
}

impl Clone for ConnectionId {
    fn clone(&self) -> (r: ConnectionId)
        ensures
            r@ == self@,
    {
        self.duplicate()
    }
}

impl PartialEq for ConnectionId {
    fn eq(&self, other: &ConnectionId) -> (r: bool) {
        self.same(other)
    }
}

impl vstd::std_specs::cmp::PartialEqSpecImpl for ConnectionId {
    open spec fn obeys_eq_spec() -> bool {
        true
    }

    open spec fn eq_spec(&self, other: &ConnectionId) -> bool {
        self@ == other@
    }
}

impl Eq for ConnectionId {

}

} // verus!
