use wiredock::command::Command;
use wiredock::error::DomainError;
use wiredock::hex::non_hex_error;
use wiredock::parser::{
    host_port_error, parse_line, parse_open, parse_open_ipc, split_host_port, split_tokens, trim_str, ReplError,
};

fn parse_message(line: &str) -> String {
    match parse_line(line) {
        Err(e) => e.to_string(),
        Ok(c) => panic!("accepted {line:?} as {c:?}"),
    }
}

#[test]
fn blank_lines_give_nothing() {
    assert!(matches!(parse_line(""), Ok(None)));
    assert!(matches!(parse_line("   \t  "), Ok(None)));
    assert!(matches!(parse_line("\u{3000}\n"), Ok(None)));
}

#[test]
fn open_commands_parse() {
    match parse_line("open server 3000") {
        Ok(Some(Command::OpenTcpServer { port })) => assert_eq!(port, 3000),
        other => panic!("{other:?}"),
    }
    match parse_line("  open\tclient 10016 192.168.1.10:22 ") {
        Ok(Some(Command::OpenTcpClient { local_port, remote_host, remote_port })) => {
            assert_eq!(local_port, 10016);
            assert_eq!(remote_host, "192.168.1.10");
            assert_eq!(remote_port, 22);
        },
        other => panic!("{other:?}"),
    }
    match parse_line("open ipc server /tmp/s.sock") {
        Ok(Some(Command::OpenIpcServer { path })) => assert_eq!(path, "/tmp/s.sock"),
        other => panic!("{other:?}"),
    }
    match parse_line("open ipc client /tmp/c.sock /tmp/s.sock") {
        Ok(Some(Command::OpenIpcClient { local_path, remote_path })) => {
            assert_eq!(local_path, "/tmp/c.sock");
            assert_eq!(remote_path, "/tmp/s.sock");
        },
        other => panic!("{other:?}"),
    }
}

#[test]
fn other_commands_parse() {
    match parse_line("close ssh_target") {
        Ok(Some(Command::Close { id_token })) => assert_eq!(id_token, "ssh_target"),
        other => panic!("{other:?}"),
    }
    match parse_line("label 10016 ssh_target") {
        Ok(Some(Command::Label { id_token, name })) => {
            assert_eq!(id_token, "10016");
            assert_eq!(name, "ssh_target");
        },
        other => panic!("{other:?}"),
    }
    assert!(matches!(parse_line("status"), Ok(Some(Command::Status))));
    match parse_line("ssh_target 48 65 6C 6C 6F") {
        Ok(Some(Command::Send { id_token, bytes })) => {
            assert_eq!(id_token, "ssh_target");
            assert_eq!(bytes, vec![0x48, 0x65, 0x6C, 0x6C, 0x6F]);
        },
        other => panic!("{other:?}"),
    }
}

#[test]
fn usage_errors_are_exact() {
    assert_eq!(parse_message("close"), "parse error: usage: close <id>");
    assert_eq!(parse_message("close a b"), "parse error: usage: close <id>");
    assert_eq!(parse_message("label a"), "parse error: usage: label <id> <name>");
    assert_eq!(parse_message("status now"), "parse error: usage: status");
    assert_eq!(
        parse_message("hello"),
        "parse error: expected `<id> <hex bytes...>` or a known command"
    );
    assert_eq!(
        parse_message("open"),
        "parse error: usage: open server <port> | open ipc server <path> | open client <local_port> <host>:<port> | open ipc client <local_path> <remote_path>"
    );
    assert_eq!(parse_message("open server"), "parse error: usage: open server <port>");
    assert_eq!(parse_message("open server http"), "parse error: invalid port: http");
    assert_eq!(parse_message("open server 65536"), "parse error: invalid port: 65536");
    assert_eq!(
        parse_message("open client 1 host:2 extra"),
        "parse error: usage: open client <local_port> <host>:<port>"
    );
    assert_eq!(parse_message("open client x host:2"), "parse error: invalid local port: x");
    assert_eq!(parse_message("open tls 1"), "parse error: unknown open variant: tls");
    assert_eq!(
        parse_message("open ipc"),
        "parse error: usage: open ipc server <path> | open ipc client <local_path> <remote_path>"
    );
    assert_eq!(parse_message("open ipc server"), "parse error: usage: open ipc server <path>");
    assert_eq!(
        parse_message("open ipc client /a"),
        "parse error: usage: open ipc client <local_path> <remote_path>"
    );
    assert_eq!(parse_message("open ipc pipe /a"), "parse error: unknown ipc variant: pipe");
}

#[test]
fn bad_payloads_are_domain_errors() {
    match parse_line("3000 ABC") {
        Err(ReplError::Domain(DomainError::InvalidHex(m))) => assert_eq!(m, "odd number of hex digits"),
        other => panic!("{other:?}"),
    }
    assert_eq!(
        parse_message("3000 zz"),
        "domain error: invalid hex payload: non-hex character: 'z'"
    );
}

#[test]
fn host_and_port_split() {
    assert_eq!(split_host_port("example.com:80").unwrap(), ("example.com".to_string(), 80));
    assert_eq!(split_host_port("[::1]:22").unwrap(), ("::1".to_string(), 22));
    assert_eq!(split_host_port("a:b:7").unwrap(), ("a:b".to_string(), 7));
    let msg = |s: &str| split_host_port(s).unwrap_err().to_string();
    assert_eq!(msg("[::1"), "parse error: malformed ipv6 literal: [::1");
    assert_eq!(msg("[::1]22"), "parse error: missing port after ipv6 literal: [::1]22");
    assert_eq!(msg("[::1]:x"), "parse error: invalid port: x");
    assert_eq!(msg("localhost"), "parse error: expected host:port, got \"localhost\"");
    assert_eq!(msg("h:99999"), "parse error: invalid port: 99999");
}

#[test]
fn open_parsers_take_the_words_after_open() {
    match parse_open(&["server", "8080"]) {
        Ok(Some(Command::OpenTcpServer { port })) => assert_eq!(port, 8080),
        other => panic!("{other:?}"),
    }
    match parse_open_ipc(&["server", "/run/x.sock"]) {
        Ok(Some(Command::OpenIpcServer { path })) => assert_eq!(path, "/run/x.sock"),
        other => panic!("{other:?}"),
    }
}

#[test]
fn trimming_and_splitting() {
    assert_eq!(trim_str(" \t a b \u{a0}"), "a b");
    assert_eq!(trim_str("   "), "");
    assert_eq!(split_tokens("a  b\tc "), vec!["a", "b", "c"]);
    assert_eq!(split_tokens(" \t "), Vec::<&str>::new());
    assert_eq!(split_tokens("x\ny z"), vec!["x\ny", "z"]);
}

#[test]
fn repl_errors_display_with_their_layer() {
    assert_eq!(ReplError::Parse("p".to_string()).to_string(), "parse error: p");
    assert_eq!(ReplError::Domain(DomainError::EmptyPayload).to_string(), "domain error: empty payload");
    assert_eq!(ReplError::Io("broken pipe".to_string()).to_string(), "io error: broken pipe");
}

#[test]
fn refused_lines_render_as_err() {
    match parse_line("close") {
        Err(e) => assert_eq!(e.render(), "ERR parse error: usage: close <id>"),
        Ok(c) => panic!("{c:?}"),
    }
}

#[test]
fn debug_text_steps() {
    assert_eq!(non_hex_error("'q'".to_string()).to_string(), "invalid hex payload: non-hex character: 'q'");
    assert_eq!(host_port_error("\"h\"".to_string()).to_string(), "parse error: expected host:port, got \"h\"");
}
