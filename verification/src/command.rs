//! User commands after parsing.

use vstd::prelude::*;

verus! {

/// Parsed, validated user command.
#[derive(Debug)]
pub enum Command {
    /// `open server <port>`
    OpenTcpServer { port: u16 },
    /// `open ipc server <path>`
    OpenIpcServer { path: String },
    /// `open client <local_port> <host>:<port>`
    OpenTcpClient { local_port: u16, remote_host: String, remote_port: u16 },
    /// `open ipc client <local_path> <remote_path>`
    OpenIpcClient { local_path: String, remote_path: String },
    /// `close <id>`
    Close { id_token: String },
    /// `<id> <hex bytes...>`
    Send { id_token: String, bytes: Vec<u8> },
    /// `label <id> <name>`
    Label { id_token: String, name: String },
    /// `status`
    Status,
}

pub enum CommandView {
    OpenTcpServer { port: u16 },
    OpenIpcServer { path: Seq<char> },
    OpenTcpClient { local_port: u16, remote_host: Seq<char>, remote_port: u16 },
    OpenIpcClient { local_path: Seq<char>, remote_path: Seq<char> },
    Close { id_token: Seq<char> },
    Send { id_token: Seq<char>, bytes: Seq<u8> },
    Label { id_token: Seq<char>, name: Seq<char> },
    Status,
}

impl View for Command {
    type V = CommandView;

    open spec fn view(&self) -> CommandView {
        match self {
            Command::OpenTcpServer { port } => CommandView::OpenTcpServer { port: *port },
            Command::OpenIpcServer { path } => CommandView::OpenIpcServer { path: path@ },
            Command::OpenTcpClient { local_port, remote_host, remote_port } =>
                CommandView::OpenTcpClient {
                local_port: *local_port,
                remote_host: remote_host@,
                remote_port: *remote_port,
            },
            Command::OpenIpcClient { local_path, remote_path } => CommandView::OpenIpcClient {
                local_path: local_path@,
                remote_path: remote_path@,
            },
            Command::Close { id_token } => CommandView::Close { id_token: id_token@ },
            Command::Send { id_token, bytes } => CommandView::Send {
                id_token: id_token@,
                bytes: bytes@,
            },
            Command::Label { id_token, name } => CommandView::Label {
                id_token: id_token@,
                name: name@,
            },
            Command::Status => CommandView::Status,
        }
    }
}

} // verus!
