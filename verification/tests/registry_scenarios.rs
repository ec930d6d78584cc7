use wiredock::command::Command;
use wiredock::commands::Step;
use wiredock::endpoint::{Endpoint, ServerEndpoint};
use wiredock::error::DomainError;
use wiredock::event::{NetEvent, PeerInfo};
use wiredock::id::ConnectionId;
use wiredock::registry::Registry;
use wiredock::runtime::tentative_child;
use wiredock::token::default_token_parser;

type Reg = Registry<u32, u32>;

fn texts(lines: Vec<wiredock::event::DisplayLine>) -> Vec<String> {
    lines.into_iter().map(|l| l.text).collect()
}

fn done(step: Step<u32, u32>) -> (bool, String, Vec<String>) {
    match step {
        Step::Done(c) => (c.outcome.success, c.outcome.message, texts(c.lines)),
        _ => panic!("expected a reply"),
    }
}

fn open_server(reg: &mut Reg, port: u16) -> (String, String) {
    match reg.plan_command(Command::OpenTcpServer { port }) {
        Step::Bind(ep) => {
            let (o, l) = reg.finish_bind(ep, port as u32);
            assert!(o.success);
            (o.message, l.text)
        },
        _ => panic!("expected a bind"),
    }
}

fn open_client(reg: &mut Reg, local_port: u16, host: &str, remote_port: u16, io: u32) -> (String, String) {
    let cmd = Command::OpenTcpClient { local_port, remote_host: host.to_string(), remote_port };
    match reg.plan_command(cmd) {
        Step::Connect(ep) => {
            let (o, l) = reg.finish_connect(ep, None, io);
            assert!(o.success);
            (o.message, l.text)
        },
        _ => panic!("expected a connect"),
    }
}

fn accept_tcp(reg: &mut Reg, port: u16, addr: &str, io: u32) -> Vec<String> {
    let parent = ConnectionId::TcpServer { port };
    let peer = PeerInfo::TcpSocket { addr: addr.to_string() };
    let tentative = tentative_child(&parent, &peer).unwrap();
    texts(reg.handle_accepted(parent, tentative, peer, io).1)
}

#[test]
fn readme_quick_start() {
    let mut reg: Reg = Registry::new();
    assert_eq!(open_server(&mut reg, 3000), ("listening on 3000".to_string(), "[3000] listening".to_string()));
    assert_eq!(
        open_client(&mut reg, 10016, "192.168.1.10", 22, 7),
        ("client 10016 connected".to_string(), "[10016] connected to 192.168.1.10:22".to_string())
    );
    let (ok, msg, _) = done(reg.plan_command(Command::Status));
    assert!(ok);
    assert_eq!(
        msg,
        "CLIENTS\n  10016 -> 192.168.1.10:22    [CONNECTED]\n\nSERVERS\n  3000\n    (none)\n"
    );
    let (ok, msg, _) = done(reg.plan_command(Command::Label {
        id_token: "10016".to_string(),
        name: "ssh_target".to_string(),
    }));
    assert!(ok);
    assert_eq!(msg, "labeled 10016 as ssh_target");
    let plan = match reg.plan_command(Command::Send {
        id_token: "ssh_target".to_string(),
        bytes: vec![0x48, 0x65, 0x6C, 0x6C, 0x6F],
    }) {
        Step::Send(p) => p,
        _ => panic!("expected a send"),
    };
    assert!(!plan.broadcast);
    assert_eq!(plan.targets, vec![ConnectionId::TcpClient { local_port: 10016 }]);
    let results: Vec<Result<(), DomainError>> = plan.targets.iter().map(|t| reg.check_writable(t)).collect();
    let (o, lines) = reg.finish_send(&plan, &results);
    assert!(o.success);
    assert_eq!(o.message, "sent 5 bytes to 10016");
    assert!(lines.is_empty());
    let id = ConnectionId::TcpClient { local_port: 10016 };
    let recv = reg.on_received(&id, &[0x53, 0x53, 0x48, 0x2D, 0x32, 0x2E, 0x30]);
    assert_eq!(recv.text, "[ssh_target] RECV 53 53 48 2D 32 2E 30");
    match reg.plan_command(Command::Close { id_token: "ssh_target".to_string() }) {
        Step::Done(c) => {
            assert_eq!(texts(c.lines), vec!["[ssh_target] CLOSED".to_string()]);
            assert_eq!(c.outcome.render(), "OK closed 10016");
            assert!(c.closed_server.is_none());
            assert_eq!(c.closed_streams.len(), 1);
            assert_eq!(c.closed_streams[0].io, 7);
        },
        _ => panic!("expected a reply"),
    }
    assert!(!reg.has_stream(&id));
    let (_, msg, _) = done(reg.plan_command(Command::Close { id_token: "ssh_target".to_string() }));
    assert_eq!(msg, "unknown id: ssh_target");
}

#[test]
fn remote_port_collisions_rename_and_number() {
    let mut reg: Reg = Registry::new();
    open_server(&mut reg, 3000);
    assert_eq!(accept_tcp(&mut reg, 3000, "10.0.0.1:10015", 1), vec!["[3000.10015] ACCEPT peer=10.0.0.1:10015"]);
    assert_eq!(
        accept_tcp(&mut reg, 3000, "10.0.0.2:10015", 2),
        vec!["[3000.10015#1] RENAMED 3000.10015", "[3000.10015#2] ACCEPT peer=10.0.0.2:10015"]
    );
    assert_eq!(accept_tcp(&mut reg, 3000, "10.0.0.3:10015", 3), vec!["[3000.10015#3] ACCEPT peer=10.0.0.3:10015"]);
    assert_eq!(accept_tcp(&mut reg, 3000, "10.0.0.1:9", 4), vec!["[3000.9] ACCEPT peer=10.0.0.1:9"]);
    assert_eq!(
        reg.render_status(),
        "CLIENTS\n  (none)\n\nSERVERS\n  3000\n    3000.10015#1    peer=10.0.0.1:10015    [CONNECTED]\n    3000.10015#2    peer=10.0.0.2:10015    [CONNECTED]\n    3000.10015#3    peer=10.0.0.3:10015    [CONNECTED]\n    3000.9    peer=10.0.0.1:9    [CONNECTED]\n"
    );
    let first = ConnectionId::AcceptedTcp { parent_port: 3000, remote_port: 10015, disambig: Some(1) };
    let stale = ConnectionId::AcceptedTcp { parent_port: 3000, remote_port: 10015, disambig: None };
    assert!(reg.has_stream(&first));
    assert!(!reg.has_stream(&stale));
}

#[test]
fn rename_keeps_the_label() {
    let mut reg: Reg = Registry::new();
    open_server(&mut reg, 3000);
    accept_tcp(&mut reg, 3000, "10.0.0.1:5000", 1);
    let (ok, _, _) = done(reg.plan_command(Command::Label { id_token: "3000.5000".to_string(), name: "alpha".to_string() }));
    assert!(ok);
    accept_tcp(&mut reg, 3000, "10.0.0.2:5000", 2);
    let renamed = ConnectionId::AcceptedTcp { parent_port: 3000, remote_port: 5000, disambig: Some(1) };
    assert_eq!(reg.display_name(&renamed), "alpha");
    assert_eq!(reg.resolve_id("alpha", default_token_parser).unwrap(), renamed);
}

#[test]
fn ipc_servers_and_clients() {
    let mut reg: Reg = Registry::new();
    match reg.plan_command(Command::OpenIpcServer { path: "/tmp/s.sock".to_string() }) {
        Step::Bind(ep) => {
            let (o, l) = reg.finish_bind(ep, 1);
            assert_eq!(o.message, "listening on /tmp/s.sock");
            assert_eq!(l.text, "[/tmp/s.sock] listening");
        },
        _ => panic!("expected a bind"),
    }
    let parent = ConnectionId::IpcServer { path: "/tmp/s.sock".to_string() };
    let peer = PeerInfo::IpcPid { pid: 4242 };
    let t = tentative_child(&parent, &peer).unwrap();
    assert_eq!(texts(reg.handle_accepted(parent, t, peer, 9).1), vec!["[/tmp/s.sock.4242] ACCEPT peer=pid=4242"]);
    match reg.plan_command(Command::OpenIpcClient {
        local_path: "/tmp/c.sock".to_string(),
        remote_path: "/tmp/s.sock".to_string(),
    }) {
        Step::Connect(ep) => {
            let (o, l) = reg.finish_connect(ep, Some(77), 3);
            assert_eq!(o.message, "ipc client /tmp/c.sock connected to /tmp/s.sock");
            assert_eq!(l.text, "[/tmp/c.sock] connected to /tmp/s.sock");
        },
        _ => panic!("expected a connect"),
    }
    assert_eq!(
        reg.render_status(),
        "CLIENTS\n  /tmp/c.sock -> (ipc peer)    [CONNECTED]\n\nSERVERS\n  /tmp/s.sock\n    /tmp/s.sock.4242    peer=pid=4242    [CONNECTED]\n"
    );
    let (servers, streams, paths) = reg.shutdown();
    assert_eq!(servers.len(), 1);
    assert_eq!(streams.len(), 2);
    let mut all: Vec<String> = paths;
    for s in &servers {
        if let Some(p) = &s.ipc_path {
            all.push(p.clone());
        }
    }
    for s in &streams {
        if let Some(p) = &s.local_ipc_path {
            all.push(p.clone());
        }
    }
    assert!(all.contains(&"/tmp/s.sock".to_string()));
    assert!(all.contains(&"/tmp/c.sock".to_string()));
    assert_eq!(reg.render_status(), "CLIENTS\n  (none)\n\nSERVERS\n  (none)\n");
}

#[test]
fn mismatched_accepts_are_reported() {
    let mut reg: Reg = Registry::new();
    open_server(&mut reg, 3000);
    let (id, lines) = reg.handle_accepted(
        ConnectionId::TcpServer { port: 3000 },
        ConnectionId::AcceptedIpc { parent_path: "/x".to_string(), pid: 1, disambig: None },
        PeerInfo::IpcPid { pid: 1 },
        5,
    );
    assert!(id.is_none());
    assert_eq!(texts(lines), vec!["[3000] ERROR internal: mismatched accepted id shape"]);
    assert_eq!(reg.render_status(), "CLIENTS\n  (none)\n\nSERVERS\n  3000\n    (none)\n");
}

#[test]
fn opening_a_used_id_is_refused() {
    let mut reg: Reg = Registry::new();
    open_server(&mut reg, 3000);
    let (ok, msg, lines) = done(reg.plan_command(Command::OpenTcpServer { port: 3000 }));
    assert!(!ok);
    assert_eq!(msg, "id already in use: 3000");
    assert!(lines.is_empty());
    open_client(&mut reg, 4000, "h", 1, 1);
    let (ok, msg, _) = done(reg.plan_command(Command::OpenTcpClient {
        local_port: 4000,
        remote_host: "h".to_string(),
        remote_port: 2,
    }));
    assert!(!ok);
    assert_eq!(msg, "id already in use: 4000");
}

#[test]
fn closing_a_server_cascades() {
    let mut reg: Reg = Registry::new();
    open_server(&mut reg, 3000);
    accept_tcp(&mut reg, 3000, "10.0.0.1:1", 11);
    accept_tcp(&mut reg, 3000, "10.0.0.1:2", 12);
    done(reg.plan_command(Command::Label { id_token: "3000.2".to_string(), name: "kid".to_string() }));
    match reg.plan_command(Command::Close { id_token: "3000".to_string() }) {
        Step::Done(c) => {
            assert_eq!(c.outcome.message, "closed server 3000 and all its children");
            assert_eq!(texts(c.lines), vec!["[3000] CLOSED"]);
            let srv = c.closed_server.unwrap();
            assert_eq!(srv.accept_task, 3000);
            let mut ios: Vec<u32> = c.closed_streams.iter().map(|h| h.io).collect();
            ios.sort();
            assert_eq!(ios, vec![11, 12]);
        },
        _ => panic!("expected a reply"),
    }
    assert!(reg.resolve_id("kid", default_token_parser).is_err());
    assert_eq!(reg.render_status(), "CLIENTS\n  (none)\n\nSERVERS\n  (none)\n");
}

#[test]
fn broadcast_reports_each_failed_child() {
    let mut reg: Reg = Registry::new();
    open_server(&mut reg, 3000);
    accept_tcp(&mut reg, 3000, "10.0.0.1:1", 1);
    accept_tcp(&mut reg, 3000, "10.0.0.1:2", 2);
    done(reg.plan_command(Command::Label { id_token: "3000.2".to_string(), name: "two".to_string() }));
    let plan = match reg.plan_command(Command::Send { id_token: "3000".to_string(), bytes: vec![1, 2] }) {
        Step::Send(p) => p,
        _ => panic!("expected a send"),
    };
    assert!(plan.broadcast);
    assert_eq!(plan.targets.len(), 2);
    let failing = ConnectionId::AcceptedTcp { parent_port: 3000, remote_port: 2, disambig: None };
    let results: Vec<Result<(), DomainError>> = plan
        .targets
        .iter()
        .map(|t| if *t == failing { Err(DomainError::Io("broken pipe".to_string())) } else { reg.check_writable(t) })
        .collect();
    let (o, lines) = reg.finish_send(&plan, &results);
    assert!(o.success);
    assert_eq!(o.message, "sent 2 bytes to 3000");
    assert_eq!(texts(lines), vec!["[two] ERROR io error: broken pipe"]);
}

#[test]
fn failed_single_writes_fail_the_command() {
    let mut reg: Reg = Registry::new();
    open_client(&mut reg, 4000, "h", 1, 1);
    let plan = match reg.plan_command(Command::Send { id_token: "4000".to_string(), bytes: vec![9] }) {
        Step::Send(p) => p,
        _ => panic!("expected a send"),
    };
    let (o, lines) = reg.finish_send(&plan, &vec![Err(DomainError::Io("reset".to_string()))]);
    assert!(!o.success);
    assert_eq!(o.render(), "ERR io error: reset");
    assert!(lines.is_empty());
}

#[test]
fn sends_that_cannot_go_out_are_refused() {
    let mut reg: Reg = Registry::new();
    open_server(&mut reg, 3000);
    let msg = |reg: &mut Reg, t: &str, b: Vec<u8>| {
        let (ok, m, _) = done(reg.plan_command(Command::Send { id_token: t.to_string(), bytes: b }));
        assert!(!ok);
        m
    };
    assert_eq!(msg(&mut reg, "3000", vec![1]), "server 3000 has no active accepted connections");
    assert_eq!(msg(&mut reg, "3000", vec![]), "empty payload");
    assert_eq!(msg(&mut reg, "9999", vec![1]), "unknown id: 9999");
    match reg.check_writable(&ConnectionId::TcpClient { local_port: 1 }) {
        Err(e) => assert_eq!(e.to_string(), "unknown id: 1"),
        Ok(()) => panic!("unknown stream writable"),
    }
}

#[test]
fn labels_are_one_to_one() {
    let mut reg: Reg = Registry::new();
    open_server(&mut reg, 3000);
    open_server(&mut reg, 3001);
    done(reg.plan_command(Command::Label { id_token: "3000".to_string(), name: "a".to_string() }));
    let (ok, msg, _) = done(reg.plan_command(Command::Label { id_token: "3001".to_string(), name: "a".to_string() }));
    assert!(!ok);
    assert_eq!(msg, "label already in use: a");
    let (ok, _, _) = done(reg.plan_command(Command::Label { id_token: "a".to_string(), name: "b".to_string() }));
    assert!(ok);
    assert!(reg.resolve_id("a", default_token_parser).is_err());
    assert_eq!(reg.resolve_id("b", default_token_parser).unwrap(), ConnectionId::TcpServer { port: 3000 });
    let (ok, msg, _) = done(reg.plan_command(Command::Label { id_token: "nope".to_string(), name: "c".to_string() }));
    assert!(!ok);
    assert_eq!(msg, "unknown id: nope");
    assert_eq!(
        reg.render_status(),
        "CLIENTS\n  (none)\n\nSERVERS\n  3000\n    (none)\n  3001\n    (none)\n"
    );
}

#[test]
fn network_events_become_lines() {
    let mut reg: Reg = Registry::new();
    open_client(&mut reg, 4000, "h", 1, 42);
    let id = ConnectionId::TcpClient { local_port: 4000 };
    let (l, h) = reg.handle_event(NetEvent::Received { id: id.clone(), bytes: vec![0xDE, 0xAD] });
    assert_eq!(l.unwrap().text, "[4000] RECV DE AD");
    assert!(h.is_none());
    let (l, _) = reg.handle_event(NetEvent::Error { id: id.clone(), message: "reset".to_string() });
    assert_eq!(l.unwrap().text, "[4000] ERROR reset");
    let (l, h) = reg.handle_event(NetEvent::Renamed { new_id: id.clone(), old_id: id.clone() });
    assert!(l.is_none() && h.is_none());
    let (l, h) = reg.handle_event(NetEvent::Closed { id: id.clone() });
    assert_eq!(l.unwrap().text, "[4000] CLOSED");
    assert_eq!(h.unwrap().io, 42);
    let (l, h) = reg.handle_event(NetEvent::Closed { id });
    assert_eq!(l.unwrap().text, "[4000] CLOSED");
    assert!(h.is_none());
}

#[test]
fn tokens_resolve_labels_then_ids_then_text() {
    let mut reg: Reg = Registry::new();
    open_server(&mut reg, 3000);
    accept_tcp(&mut reg, 3000, "1.2.3.4:80", 1);
    assert_eq!(reg.resolve_id("3000", default_token_parser).unwrap(), ConnectionId::TcpServer { port: 3000 });
    assert_eq!(
        reg.resolve_id("3000.80", default_token_parser).unwrap(),
        ConnectionId::AcceptedTcp { parent_port: 3000, remote_port: 80, disambig: None }
    );
    match reg.resolve_id("3000.81", default_token_parser) {
        Err(e) => assert_eq!(e.to_string(), "unknown id: 3000.81"),
        Ok(id) => panic!("resolved to {id:?}"),
    }
}

#[test]
fn accepted_ids_need_a_live_parent() {
    let mut reg: Reg = Registry::new();
    let base = ConnectionId::AcceptedTcp { parent_port: 3000, remote_port: 1, disambig: None };
    assert!(!reg.can_allocate(&base));
    open_server(&mut reg, 3000);
    assert!(reg.can_allocate(&base));
    let (id, ev) = reg.allocate_accepted_tcp_id(3000, 1);
    assert_eq!(id, base);
    assert!(ev.is_none());
}

#[test]
fn default_registry_is_empty() {
    let reg: Reg = Registry::default();
    assert_eq!(reg.render_status(), "CLIENTS\n  (none)\n\nSERVERS\n  (none)\n");
}

#[test]
fn accepted_ids_are_returned() {
    let mut reg: Reg = Registry::new();
    open_server(&mut reg, 3000);
    let parent = ConnectionId::TcpServer { port: 3000 };
    let peer = PeerInfo::TcpSocket { addr: "10.0.0.1:7".to_string() };
    let t = tentative_child(&parent, &peer).unwrap();
    let (id, _) = reg.handle_accepted(parent.clone(), t.clone(), peer.clone(), 1);
    assert_eq!(id, Some(ConnectionId::AcceptedTcp { parent_port: 3000, remote_port: 7, disambig: None }));
    let (id, _) = reg.handle_accepted(parent, t, peer, 2);
    assert_eq!(id, Some(ConnectionId::AcceptedTcp { parent_port: 3000, remote_port: 7, disambig: Some(2) }));
}

#[test]
fn shown_ids_address_their_connections() {
    let mut reg: Reg = Registry::new();
    open_server(&mut reg, 3000);
    open_client(&mut reg, 4000, "h", 1, 1);
    accept_tcp(&mut reg, 3000, "10.0.0.1:5", 2);
    accept_tcp(&mut reg, 3000, "10.0.0.2:5", 3);
    for id in [
        ConnectionId::TcpServer { port: 3000 },
        ConnectionId::TcpClient { local_port: 4000 },
        ConnectionId::AcceptedTcp { parent_port: 3000, remote_port: 5, disambig: Some(1) },
        ConnectionId::AcceptedTcp { parent_port: 3000, remote_port: 5, disambig: Some(2) },
    ] {
        assert_eq!(reg.resolve_id(&id.to_string(), default_token_parser).unwrap(), id);
    }
}

#[test]
fn alike_ids_resolve_by_kind() {
    let mut reg: Reg = Registry::new();
    match reg.plan_command(Command::OpenIpcServer { path: "3000".to_string() }) {
        Step::Bind(ep) => {
            reg.finish_bind(ep, 1);
        },
        _ => panic!("expected a bind"),
    }
    assert_eq!(reg.resolve_id("3000", default_token_parser).unwrap(), ConnectionId::IpcServer { path: "3000".to_string() });
    open_server(&mut reg, 3000);
    assert_eq!(reg.resolve_id("3000", default_token_parser).unwrap(), ConnectionId::TcpServer { port: 3000 });
}

#[test]
fn stream_resources_swap_in_place() {
    let mut reg: Reg = Registry::new();
    open_client(&mut reg, 4000, "h", 1, 5);
    let id = ConnectionId::TcpClient { local_port: 4000 };
    let i = reg.find_stream(&id).unwrap();
    assert_eq!(reg.replace_stream_io(i, 6), 5);
    assert_eq!(reg.replace_stream_io(i, 7), 6);
    let (_, h) = reg.on_closed_event(&id);
    assert_eq!(h.unwrap().io, 7);
}
