use wiredock::id::ConnectionId;
use wiredock::token::default_token_parser;

#[test]
fn ids_render_per_scheme() {
    assert_eq!(ConnectionId::TcpServer { port: 3000 }.to_string(), "3000");
    assert_eq!(ConnectionId::TcpClient { local_port: 10016 }.to_string(), "10016");
    assert_eq!(
        ConnectionId::AcceptedTcp { parent_port: 3000, remote_port: 10015, disambig: None }.to_string(),
        "3000.10015"
    );
    assert_eq!(
        ConnectionId::AcceptedTcp { parent_port: 3000, remote_port: 10015, disambig: Some(2) }.to_string(),
        "3000.10015#2"
    );
    assert_eq!(ConnectionId::IpcServer { path: "/tmp/s.sock".to_string() }.to_string(), "/tmp/s.sock");
    assert_eq!(ConnectionId::IpcClient { local_path: "/tmp/c.sock".to_string() }.to_string(), "/tmp/c.sock");
    assert_eq!(
        ConnectionId::AcceptedIpc { parent_path: "/tmp/s.sock".to_string(), pid: 4242, disambig: Some(1) }
            .to_string(),
        "/tmp/s.sock.4242#1"
    );
    assert_eq!(
        ConnectionId::AcceptedIpc { parent_path: "/tmp/s.sock".to_string(), pid: -7, disambig: None }
            .to_string(),
        "/tmp/s.sock.-7"
    );
}

#[test]
fn only_listeners_are_servers() {
    assert!(ConnectionId::TcpServer { port: 1 }.is_server());
    assert!(ConnectionId::IpcServer { path: "/a".to_string() }.is_server());
    assert!(!ConnectionId::TcpClient { local_port: 1 }.is_server());
    assert!(!ConnectionId::IpcClient { local_path: "/a".to_string() }.is_server());
    assert!(!ConnectionId::AcceptedTcp { parent_port: 1, remote_port: 2, disambig: None }.is_server());
}

#[test]
fn ids_compare_by_value() {
    let a = ConnectionId::AcceptedTcp { parent_port: 1, remote_port: 2, disambig: Some(3) };
    let b = ConnectionId::AcceptedTcp { parent_port: 1, remote_port: 2, disambig: Some(3) };
    let c = ConnectionId::AcceptedTcp { parent_port: 1, remote_port: 2, disambig: None };
    assert_eq!(a, b);
    assert_ne!(a, c);
    assert_eq!(a.clone(), a);
}

#[test]
fn token_parser_reads_ports_accepted_ids_and_paths() {
    assert_eq!(default_token_parser("3000"), Some(ConnectionId::TcpClient { local_port: 3000 }));
    assert_eq!(
        default_token_parser("3000.10015"),
        Some(ConnectionId::AcceptedTcp { parent_port: 3000, remote_port: 10015, disambig: None })
    );
    assert_eq!(
        default_token_parser("3000.10015#2"),
        Some(ConnectionId::AcceptedTcp { parent_port: 3000, remote_port: 10015, disambig: Some(2) })
    );
    assert_eq!(
        default_token_parser("/tmp/c.sock"),
        Some(ConnectionId::IpcClient { local_path: "/tmp/c.sock".to_string() })
    );
    assert_eq!(default_token_parser("ssh_target"), None);
    assert_eq!(default_token_parser("70000"), None);
}

#[test]
fn token_parser_reads_back_shown_ids() {
    for id in [
        ConnectionId::TcpClient { local_port: 0 },
        ConnectionId::TcpClient { local_port: 65535 },
        ConnectionId::AcceptedTcp { parent_port: 1, remote_port: 65535, disambig: None },
        ConnectionId::AcceptedTcp { parent_port: 3000, remote_port: 10015, disambig: Some(4294967295) },
    ] {
        assert_eq!(default_token_parser(&id.to_string()), Some(id));
    }
}
