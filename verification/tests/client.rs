use pingchat::client::{interpret_response, parse_command, CommandError, ServerReply};
use pingchat::codec::ClientMessage;

#[test]
fn parse_ping() {
    let r = parse_command(b"ping");
    assert!(matches!(r, Ok(ClientMessage::Ping)));
}

#[test]
fn parse_ping_with_argument_is_local_error() {
    assert!(matches!(parse_command(b"ping now"), Err(CommandError::PingWithArgument)));
    // A trailing space already counts as an (empty) remainder.
    assert!(matches!(parse_command(b"ping "), Err(CommandError::PingWithArgument)));
}

#[test]
fn parse_send_with_text() {
    match parse_command(b"send hello world") {
        Ok(ClientMessage::Send(p)) => assert_eq!(p, b"hello world"),
        _ => panic!("expected a send frame"),
    }
}

#[test]
fn parse_send_without_text_sends_empty() {
    match parse_command(b"send") {
        Ok(ClientMessage::Send(p)) => assert!(p.is_empty()),
        _ => panic!("expected an empty send frame"),
    }
    match parse_command(b"send ") {
        Ok(ClientMessage::Send(p)) => assert!(p.is_empty()),
        _ => panic!("expected an empty send frame"),
    }
}

#[test]
fn parse_unknown_command() {
    assert!(matches!(parse_command(b"quit"), Err(CommandError::Unrecognized)));
    assert!(matches!(parse_command(b"pingx"), Err(CommandError::Unrecognized)));
    assert!(matches!(parse_command(b""), Err(CommandError::Unrecognized)));
    assert!(matches!(parse_command(b" ping"), Err(CommandError::Unrecognized)));
}

#[test]
fn replies_read_from_single_bytes() {
    assert!(matches!(interpret_response(1), ServerReply::Pong));
    assert!(matches!(interpret_response(0), ServerReply::Unknown));
    assert!(matches!(interpret_response(2), ServerReply::Unknown));
    assert!(matches!(interpret_response(255), ServerReply::Unknown));
}

#[test]
fn id_validation_accepts_decimal_u64() {
    assert_eq!(pingchat::client::parse_client_id(b"0"), Some(0));
    assert_eq!(pingchat::client::parse_client_id(b"42"), Some(42));
    assert_eq!(
        pingchat::client::parse_client_id(b"18446744073709551615"),
        Some(u64::MAX)
    );
}

#[test]
fn id_validation_rejects_bad_input() {
    assert_eq!(pingchat::client::parse_client_id(b""), None);
    assert_eq!(pingchat::client::parse_client_id(b"12a"), None);
    assert_eq!(pingchat::client::parse_client_id(b"-1"), None);
    assert_eq!(pingchat::client::parse_client_id(b" 7"), None);
    // One past u64::MAX.
    assert_eq!(pingchat::client::parse_client_id(b"18446744073709551616"), None);
}

#[test]
fn client_id_encodes_big_endian() {
    assert_eq!(pingchat::client::encode_client_id(42), vec![0, 0, 0, 0, 0, 0, 0, 42]);
    assert_eq!(
        pingchat::client::encode_client_id(0x0102030405060708),
        vec![1, 2, 3, 4, 5, 6, 7, 8]
    );
}
