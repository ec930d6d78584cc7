//! Endpoint descriptors handed to the transport.

use vstd::prelude::*;

verus! {

/// Client-side endpoint description.
#[derive(Debug)]
pub enum Endpoint {
    /// TCP client: bind locally on `local_port`, connect to `remote_host:remote_port`.
    Tcp { local_port: u16, remote_host: String, remote_port: u16 },
    /// IPC client: bind locally on `local_path`, connect to `remote_path`.
    Ipc { local_path: String, remote_path: String },
}

pub enum EndpointView {
    Tcp { local_port: u16, remote_host: Seq<char>, remote_port: u16 },
    Ipc { local_path: Seq<char>, remote_path: Seq<char> },
}

impl View for Endpoint {
    type V = EndpointView;

    open spec fn view(&self) -> EndpointView {
        match self {
            Endpoint::Tcp { local_port, remote_host, remote_port } => EndpointView::Tcp {
                local_port: *local_port,
                remote_host: remote_host@,
                remote_port: *remote_port,
            },
            Endpoint::Ipc { local_path, remote_path } => EndpointView::Ipc {
                local_path: local_path@,
                remote_path: remote_path@,
            },
        }
    }
}

/// Server-side endpoint description.
#[derive(Debug)]
pub enum ServerEndpoint {
    /// TCP listener on the given local port.
    Tcp { port: u16 },
    /// Unix-domain listener at the given path.
    Ipc { path: String },
}

pub enum ServerEndpointView {
    Tcp { port: u16 },
    Ipc { path: Seq<char> },
}

impl View for ServerEndpoint {
    type V = ServerEndpointView;

    open spec fn view(&self) -> ServerEndpointView {
        match self {
            ServerEndpoint::Tcp { port } => ServerEndpointView::Tcp { port: *port },
            ServerEndpoint::Ipc { path } => ServerEndpointView::Ipc { path: path@ },
        }
    }
}

} // verus!
