use wiredock::error::{DomainError, InfraError};
use wiredock::event::{CommandOutcome, DisplayLine, PeerInfo};
use wiredock::id::ConnectionId;
use wiredock::runtime::{parse_remote_port, tentative_child};
use wiredock::state::{ConnectionState, ConnectionStatus};
use wiredock::status::render_status_tag;

#[test]
fn peers_render_without_prefix() {
    assert_eq!(PeerInfo::TcpSocket { addr: "1.2.3.4:5".to_string() }.render(), "1.2.3.4:5");
    assert_eq!(PeerInfo::IpcPid { pid: 4242 }.render(), "pid=4242");
}

#[test]
fn outcomes_and_lines() {
    let o = CommandOutcome::ok("fine".to_string());
    assert!(o.success);
    assert_eq!(o.render(), "OK fine");
    let e = CommandOutcome::err("bad".to_string());
    assert!(!e.success);
    assert_eq!(e.render(), "ERR bad");
    assert_eq!(DisplayLine::new("x".to_string()).text, "x");
}

#[test]
fn connection_states() {
    let mut s = ConnectionState::new_connected(ConnectionId::TcpClient { local_port: 1 }, None);
    assert_eq!(s.status, ConnectionStatus::Connected);
    assert!(s.label.is_none());
    s.on_closed();
    assert_eq!(s.status, ConnectionStatus::Closed);
    assert_eq!(render_status_tag(ConnectionStatus::Connected), "CONNECTED");
    assert_eq!(render_status_tag(ConnectionStatus::Closing), "CLOSING");
    assert_eq!(render_status_tag(ConnectionStatus::Closed), "CLOSED");
}

#[test]
fn domain_errors_display() {
    assert_eq!(DomainError::UnknownId("x".to_string()).to_string(), "unknown id: x");
    assert_eq!(DomainError::IdAlreadyInUse("3000".to_string()).to_string(), "id already in use: 3000");
    assert_eq!(DomainError::LabelAlreadyInUse("a".to_string()).to_string(), "label already in use: a");
    assert_eq!(DomainError::InvalidHex("q".to_string()).to_string(), "invalid hex payload: q");
    assert_eq!(
        DomainError::ServerHasNoChildren("3000".to_string()).to_string(),
        "server 3000 has no active accepted connections"
    );
    assert_eq!(DomainError::EmptyPayload.to_string(), "empty payload");
    assert_eq!(DomainError::Io("eof".to_string()).to_string(), "io error: eof");
    assert_eq!(DomainError::Logic("3000.1 is not writable".to_string()).to_string(), "logic error: 3000.1 is not writable");
}

#[test]
fn transport_errors_convert_at_the_boundary() {
    assert_eq!(InfraError::AddressInUse("3000".to_string()).to_string(), "address already in use: 3000");
    assert_eq!(InfraError::PeerCred("no pid".to_string()).to_string(), "peercred failed: no pid");
    assert_eq!(InfraError::InvalidEndpoint("h:1".to_string()).to_string(), "invalid endpoint: h:1");
    assert!(matches!(
        DomainError::from_infra(InfraError::AddressInUse("3000".to_string())),
        DomainError::IdAlreadyInUse(ref s) if s == "3000"
    ));
    match DomainError::from_infra(InfraError::Io("refused".to_string())) {
        DomainError::Io(m) => assert_eq!(m, "io error: refused"),
        other => panic!("{other:?}"),
    }
}

#[test]
fn remote_ports_of_socket_addresses() {
    assert_eq!(parse_remote_port("127.0.0.1:8080"), Some(8080));
    assert_eq!(parse_remote_port("[::1]:22"), Some(22));
    assert_eq!(parse_remote_port("nope"), None);
    assert_eq!(parse_remote_port("1.2.3.4:x"), None);
    assert_eq!(parse_remote_port("1.2.3.4:70000"), None);
}

#[test]
fn accept_loops_propose_ids_from_peers() {
    let tcp = ConnectionId::TcpServer { port: 3000 };
    let ipc = ConnectionId::IpcServer { path: "/s".to_string() };
    assert_eq!(
        tentative_child(&tcp, &PeerInfo::TcpSocket { addr: "9.9.9.9:10015".to_string() }),
        Some(ConnectionId::AcceptedTcp { parent_port: 3000, remote_port: 10015, disambig: None })
    );
    assert_eq!(
        tentative_child(&ipc, &PeerInfo::IpcPid { pid: 12 }),
        Some(ConnectionId::AcceptedIpc { parent_path: "/s".to_string(), pid: 12, disambig: None })
    );
    assert_eq!(tentative_child(&tcp, &PeerInfo::IpcPid { pid: 12 }), None);
    assert_eq!(tentative_child(&ipc, &PeerInfo::TcpSocket { addr: "1.1.1.1:1".to_string() }), None);
    assert_eq!(tentative_child(&tcp, &PeerInfo::TcpSocket { addr: "garbage".to_string() }), None);
}
