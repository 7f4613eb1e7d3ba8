use pingchat::codec::{ClientMessage, DecodeError, MsgStream, StreamEnd, MAX_SEND_LEN};

fn poll_all(s: &mut MsgStream) -> Vec<ClientMessage> {
    let mut out = Vec::new();
    loop {
        match s.poll() {
            Ok(Some(m)) => out.push(m),
            Ok(None) => return out,
            Err(_) => panic!("unexpected decode error"),
        }
    }
}

#[test]
fn encode_ping_is_single_byte() {
    let bytes = ClientMessage::Ping.encode();
    assert_eq!(bytes, vec![1u8]);
}

#[test]
fn encode_send_hello_world() {
    let bytes = ClientMessage::Send(b"hello world".to_vec()).encode();
    let mut expected = vec![2u8, 0, 0, 0, 0, 0, 0, 0, 11];
    expected.extend_from_slice(b"hello world");
    assert_eq!(bytes, expected);
}

#[test]
fn ping_roundtrip_one_block() {
    let mut s = MsgStream::new();
    s.append(&ClientMessage::Ping.encode());
    let frames = poll_all(&mut s);
    assert_eq!(frames.len(), 1);
    assert!(matches!(frames[0], ClientMessage::Ping));
    assert!(matches!(s.at_eof(), StreamEnd::Clean));
}

#[test]
fn send_roundtrip_one_block() {
    let payload = b"hello world".to_vec();
    let mut s = MsgStream::new();
    s.append(&ClientMessage::Send(payload.clone()).encode());
    let frames = poll_all(&mut s);
    assert_eq!(frames.len(), 1);
    match &frames[0] {
        ClientMessage::Send(p) => assert_eq!(p, &payload),
        _ => panic!("expected a send frame"),
    }
    assert!(matches!(s.at_eof(), StreamEnd::Clean));
}

#[test]
fn send_roundtrip_byte_at_a_time() {
    let payload: Vec<u8> = vec![0, 255, 1, 2, 3, 0, 42];
    let encoded = ClientMessage::Send(payload.clone()).encode();
    let mut s = MsgStream::new();
    let mut frames = Vec::new();
    for b in &encoded {
        s.append(&[*b]);
        frames.extend(poll_all(&mut s));
    }
    assert_eq!(frames.len(), 1);
    match &frames[0] {
        ClientMessage::Send(p) => assert_eq!(p, &payload),
        _ => panic!("expected a send frame"),
    }
    assert!(matches!(s.at_eof(), StreamEnd::Clean));
}

#[test]
fn empty_send_roundtrips() {
    let encoded = ClientMessage::Send(Vec::new()).encode();
    assert_eq!(encoded, vec![2u8, 0, 0, 0, 0, 0, 0, 0, 0]);
    let mut s = MsgStream::new();
    s.append(&encoded);
    let frames = poll_all(&mut s);
    assert_eq!(frames.len(), 1);
    match &frames[0] {
        ClientMessage::Send(p) => assert!(p.is_empty()),
        _ => panic!("expected a send frame"),
    }
}

#[test]
fn chunking_does_not_change_frames() {
    let msgs = vec![
        ClientMessage::Ping,
        ClientMessage::Send(b"abc".to_vec()),
        ClientMessage::Send(Vec::new()),
        ClientMessage::Ping,
        ClientMessage::Send(vec![0, 200, 9]),
    ];
    let mut wire = Vec::new();
    for m in &msgs {
        wire.extend_from_slice(&m.encode());
    }

    let mut one_block = MsgStream::new();
    one_block.append(&wire);
    let got_block = poll_all(&mut one_block);

    let mut chunked = MsgStream::new();
    let mut got_chunked = Vec::new();
    for piece in wire.chunks(3) {
        chunked.append(piece);
        got_chunked.extend(poll_all(&mut chunked));
    }

    assert_eq!(got_block.len(), msgs.len());
    assert_eq!(got_chunked.len(), msgs.len());
    for i in 0..msgs.len() {
        match (&msgs[i], &got_block[i], &got_chunked[i]) {
            (ClientMessage::Ping, ClientMessage::Ping, ClientMessage::Ping) => {}
            (ClientMessage::Send(a), ClientMessage::Send(b), ClientMessage::Send(c)) => {
                assert_eq!(a, b);
                assert_eq!(a, c);
            }
            _ => panic!("frame {} differs between chunkings", i),
        }
    }
}

#[test]
fn malformed_leading_byte_is_reported() {
    for bad in [0u8, 3, 7, 255] {
        let mut s = MsgStream::new();
        s.append(&[bad]);
        assert!(matches!(s.poll(), Err(DecodeError::MalformedInput)));
    }
}

#[test]
fn malformed_stream_stays_malformed() {
    let mut s = MsgStream::new();
    s.append(&[9]);
    assert!(matches!(s.poll(), Err(DecodeError::MalformedInput)));
    s.append(&ClientMessage::Ping.encode());
    assert!(matches!(s.poll(), Err(DecodeError::MalformedInput)));
}

#[test]
fn partial_frame_waits_and_eof_is_truncated() {
    let mut s = MsgStream::new();
    s.append(&[2u8, 0, 0, 0]);
    assert!(matches!(s.poll(), Ok(None)));
    assert!(matches!(s.at_eof(), StreamEnd::Truncated));

    let mut t = MsgStream::new();
    t.append(&ClientMessage::Ping.encode());
    assert!(matches!(t.poll(), Ok(Some(ClientMessage::Ping))));
    assert!(matches!(t.at_eof(), StreamEnd::Clean));
}

#[test]
fn oversize_length_field_is_rejected() {
    let too_big: u64 = MAX_SEND_LEN + 1;
    let mut wire = vec![2u8];
    wire.extend_from_slice(&pingchat::be::u64_to_be(too_big));
    let mut s = MsgStream::new();
    s.append(&wire);
    assert!(matches!(s.poll(), Err(DecodeError::MalformedInput)));
}

#[test]
fn msg_decoder_consumes_frames_from_a_bytes_buffer() {
    let mut buf = bytes::BytesMut::new();
    let mut dec = pingchat::codec::MsgDecoder;
    assert!(matches!(dec.decode(&mut buf), Ok(None)));

    buf.extend_from_slice(&[1u8, 2, 0, 0, 0, 0, 0, 0, 0, 3, 9, 8, 7]);
    assert!(matches!(dec.decode(&mut buf), Ok(Some(ClientMessage::Ping))));
    match dec.decode(&mut buf) {
        Ok(Some(ClientMessage::Send(p))) => assert_eq!(p, vec![9, 8, 7]),
        _ => panic!("expected a send frame"),
    }
    assert!(matches!(dec.decode(&mut buf), Ok(None)));
    assert_eq!(buf.len(), 0);

    buf.extend_from_slice(&[4]);
    assert!(matches!(dec.decode(&mut buf), Err(DecodeError::MalformedInput)));
    assert_eq!(buf.len(), 1);
}

#[test]
fn be_bytes_roundtrip() {
    for x in [0u64, 1, 42, 255, 256, 0xdead_beef, u64::MAX] {
        let bytes = pingchat::be::u64_to_be(x);
        assert_eq!(bytes.len(), 8);
        assert_eq!(pingchat::be::u64_from_be(&bytes), x);
    }
    assert_eq!(pingchat::be::u64_to_be(42), vec![0, 0, 0, 0, 0, 0, 0, 42]);
    assert_eq!(pingchat::be::u64_from_be(&[1, 2, 3, 4, 5, 6, 7, 8]), 0x0102030405060708);
}
