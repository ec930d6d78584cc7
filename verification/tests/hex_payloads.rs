use wiredock::error::DomainError;
use wiredock::hex::{format_hex_spaced, parse_hex_tokens};

#[test]
fn parse_hex_pairs_across_tokens() {
    let r = parse_hex_tokens(&["48", "65", "6C", "6C", "6F"]).unwrap();
    assert_eq!(r, vec![0x48, 0x65, 0x6C, 0x6C, 0x6F]);
}

#[test]
fn parse_hex_is_case_insensitive() {
    assert_eq!(parse_hex_tokens(&["aB", "cd"]).unwrap(), vec![0xAB, 0xCD]);
    assert_eq!(parse_hex_tokens(&["AbCd"]).unwrap(), vec![0xAB, 0xCD]);
}

#[test]
fn parse_hex_pairs_may_straddle_tokens() {
    assert_eq!(parse_hex_tokens(&["0", "A1", "B"]).unwrap(), vec![0x0A, 0x1B]);
}

#[test]
fn parse_hex_rejects_odd_digit_count() {
    match parse_hex_tokens(&["ABC"]) {
        Err(e) => assert_eq!(e.to_string(), "invalid hex payload: odd number of hex digits"),
        Ok(_) => panic!("odd count accepted"),
    }
}

#[test]
fn parse_hex_rejects_non_hex_character() {
    match parse_hex_tokens(&["0x12"]) {
        Err(DomainError::InvalidHex(m)) => assert_eq!(m, "non-hex character: 'x'"),
        other => panic!("unexpected {other:?}"),
    }
}

#[test]
fn parse_hex_quotes_escaped_characters() {
    match parse_hex_tokens(&["1\n"]) {
        Err(DomainError::InvalidHex(m)) => assert_eq!(m, "non-hex character: '\\n'"),
        other => panic!("unexpected {other:?}"),
    }
}

#[test]
fn parse_hex_rejects_empty_payloads() {
    assert!(matches!(parse_hex_tokens(&[]), Err(DomainError::EmptyPayload)));
    assert!(matches!(parse_hex_tokens(&["", ""]), Err(DomainError::EmptyPayload)));
}

#[test]
fn format_hex_uses_upper_case_pairs() {
    assert_eq!(format_hex_spaced(&[0x49, 0x35, 0x00, 0x11, 0xAF]), "49 35 00 11 AF");
    assert_eq!(format_hex_spaced(&[]), "");
    assert_eq!(format_hex_spaced(&[0xFF]), "FF");
}

#[test]
fn hex_roundtrip_on_concrete_bytes() {
    let bytes = vec![0x00, 0x7F, 0x80, 0xFF, 0x0A];
    let text = format_hex_spaced(&bytes);
    let tokens: Vec<&str> = text.split(' ').collect();
    assert_eq!(parse_hex_tokens(&tokens).unwrap(), bytes);
}
