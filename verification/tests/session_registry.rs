use pingchat::client::{encode_client_id, interpret_response, parse_command, ServerReply};
use pingchat::codec::{ClientMessage, MsgStream};
use pingchat::registry::{Connect, ConnectionsManager, Stopped};
use pingchat::session::{Session, SessionAction, SessionState};

#[test]
fn ping_attributed_to_id_42() {
    // The client connects, identifies as 42, and issues `ping`.
    let mut registry = ConnectionsManager::default();
    registry.handle_connect(Connect(1));

    let mut session = Session::new();
    let handshake = encode_client_id(42);
    assert_eq!(handshake.len(), 8);
    session.on_handshake(&handshake);
    assert!(matches!(session.state, SessionState::Identified));
    assert_eq!(session.id, 42);

    // The operator types `ping`; the client encodes and transmits it.
    let frame = parse_command(b"ping").expect("ping must parse");
    let mut stream = MsgStream::new();
    stream.append(&frame.encode());
    let decoded = stream.poll().unwrap().expect("a complete frame");
    assert!(matches!(decoded, ClientMessage::Ping));

    // The server attributes the ping to id 42 and replies with tag 0x01.
    assert_eq!(session.id, 42);
    let action = session.on_frame(decoded);
    assert!(matches!(action, SessionAction::SendPong));
    let reply_byte = 1u8;
    assert!(matches!(session.on_write_done(true), SessionAction::Idle));
    assert!(matches!(session.state, SessionState::Identified));

    // The client's receive loop reports a pong.
    assert!(matches!(interpret_response(reply_byte), ServerReply::Pong));
}

#[test]
fn send_attributed_with_no_reply() {
    // The operator types `send hello world`.
    let frame = parse_command(b"send hello world").expect("send must parse");
    match &frame {
        ClientMessage::Send(p) => assert_eq!(p, b"hello world"),
        _ => panic!("expected a send frame"),
    }

    let mut session = Session::new();
    session.on_handshake(&encode_client_id(7));
    assert_eq!(session.id, 7);

    let mut stream = MsgStream::new();
    stream.append(&frame.encode());
    let decoded = stream.poll().unwrap().expect("a complete frame");

    // The server decodes Send(b"hello world") attributed to this session's
    // id; no reply frame is ever sent for a send.
    let action = session.on_frame(decoded);
    match action {
        SessionAction::Deliver { id, payload } => {
            assert_eq!(id, 7);
            assert_eq!(payload, b"hello world");
        }
        _ => panic!("a send frame must be delivered, not answered"),
    }
    assert!(!session.write_pending);
    assert!(matches!(session.state, SessionState::Identified));
}

#[test]
fn short_handshake_never_identifies_and_leaves_registry() {
    let mut registry = ConnectionsManager::default();
    registry.handle_connect(Connect(5));
    assert!(registry.contains(5));

    // The connection closes after fewer than 8 bytes: the handshake never
    // completes, so the session closes without reaching Identified.
    let mut session = Session::new();
    let action = session.on_handshake_failed();
    assert!(matches!(session.state, SessionState::Closed));
    assert_eq!(session.id, 0);
    assert!(matches!(action, SessionAction::Unregister));

    registry.handle_stopped(Stopped(5));
    assert!(!registry.contains(5));
    assert_eq!(registry.count(), 0);
}

#[test]
fn failed_pong_write_closes_session() {
    let mut session = Session::new();
    session.on_handshake(&encode_client_id(3));
    let action = session.on_frame(ClientMessage::Ping);
    assert!(matches!(action, SessionAction::SendPong));
    assert!(session.write_pending);
    let after = session.on_write_done(false);
    assert!(matches!(after, SessionAction::Unregister));
    assert!(matches!(session.state, SessionState::Closed));
}

#[test]
fn stream_error_closes_session() {
    let mut session = Session::new();
    session.on_handshake(&encode_client_id(9));
    let action = session.on_stream_error();
    assert!(matches!(action, SessionAction::Unregister));
    assert!(matches!(session.state, SessionState::Closed));
    assert_eq!(session.id, 9);
}

#[test]
fn registry_tracks_any_interleaving() {
    let mut registry = ConnectionsManager::default();
    registry.handle_connect(Connect(1));
    registry.handle_connect(Connect(2));
    registry.handle_connect(Connect(3));
    registry.handle_stopped(Stopped(2));
    registry.handle_connect(Connect(4));
    registry.handle_stopped(Stopped(1));

    // Membership equals exactly the set of currently open connections.
    assert!(!registry.contains(1));
    assert!(!registry.contains(2));
    assert!(registry.contains(3));
    assert!(registry.contains(4));
    assert_eq!(registry.count(), 2);

    registry.handle_stopped(Stopped(3));
    registry.handle_stopped(Stopped(4));
    assert_eq!(registry.count(), 0);
}

#[test]
fn registration_precedes_handshake() {
    // A session is registered at accept time, before it identifies.
    let mut registry = ConnectionsManager::default();
    registry.handle_connect(Connect(11));
    let session = Session::new();
    assert!(matches!(session.state, SessionState::AwaitingHandshake));
    assert!(registry.contains(11));
}
