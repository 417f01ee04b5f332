use semaphore::net::{after_read, expect_pong, expect_value, read_step, respond, wire_bytes};
use semaphore::{Decoder, Frame, FrameError, Message, NetError, ProtocolError, Store};

#[test]
fn get_after_set_returns_the_value() {
    let mut store = Store::new();
    let reply = respond(&mut store, Message::Put { key: "alpha".to_string(), value: b"beta".to_vec() });
    assert_eq!(reply, Message::Pong);
    let reply = respond(&mut store, Message::Get { key: "alpha".to_string() });
    assert_eq!(reply, Message::Value { value: b"beta".to_vec() });
    let reply = respond(&mut store, Message::Get { key: "does-not-exist".to_string() });
    assert_eq!(reply, Message::NotFound);
}

#[test]
fn set_overwrites_and_leaves_other_keys() {
    let mut store = Store::new();
    respond(&mut store, Message::Put { key: "a".to_string(), value: vec![1] });
    respond(&mut store, Message::Put { key: "b".to_string(), value: vec![2] });
    respond(&mut store, Message::Put { key: "a".to_string(), value: vec![3] });
    assert_eq!(store.get(&"a".to_string()), Some(&vec![3]));
    assert_eq!(store.get(&"b".to_string()), Some(&vec![2]));
    assert_eq!(store.get(&"c".to_string()), None);
}

#[test]
fn ping_is_answered_and_replies_are_echoed() {
    let mut store = Store::new();
    assert_eq!(respond(&mut store, Message::Ping), Message::Pong);
    assert_eq!(respond(&mut store, Message::Pong), Message::Pong);
    assert_eq!(respond(&mut store, Message::NotFound), Message::NotFound);
    let v = Message::Value { value: vec![4, 5] };
    assert_eq!(respond(&mut store, v.clone()), v);
}

#[test]
fn read_step_reassembles_a_message() {
    let wire = wire_bytes(&Message::Get { key: "k".to_string() });
    let mut dec = Decoder::new();
    assert!(matches!(read_step(&mut dec, &wire[..3]), Ok(None)));
    match read_step(&mut dec, &wire[3..]) {
        Ok(Some(m)) => assert_eq!(m, Message::Get { key: "k".to_string() }),
        other => panic!("unexpected {:?}", other),
    }
}

#[test]
fn read_step_reports_closed_frame_and_protocol_errors() {
    let mut dec = Decoder::new();
    assert!(matches!(read_step(&mut dec, &[]), Err(NetError::ConnectionClosed)));
    let mut dec = Decoder::with_max_len(2);
    assert!(matches!(
        read_step(&mut dec, &[0, 0, 0, 3]),
        Err(NetError::Frame(FrameError::TooLarge(3)))
    ));
    let mut dec = Decoder::new();
    let bad = Frame::new(vec![0x42]).encode();
    assert!(matches!(
        read_step(&mut dec, &bad),
        Err(NetError::Protocol(ProtocolError::UnknownTag(0x42)))
    ));
}

#[test]
fn read_step_keeps_only_the_first_message_of_a_chunk() {
    let mut chunk = wire_bytes(&Message::Ping);
    chunk.extend(wire_bytes(&Message::NotFound));
    let mut dec = Decoder::new();
    match read_step(&mut dec, &chunk) {
        Ok(Some(m)) => assert_eq!(m, Message::Ping),
        other => panic!("unexpected {:?}", other),
    }
}

#[test]
fn wire_bytes_frames_the_encoded_message() {
    assert_eq!(wire_bytes(&Message::Ping), vec![0, 0, 0, 1, 1]);
}

#[test]
fn client_reply_handling() {
    assert!(expect_pong(Message::Pong).is_ok());
    assert!(matches!(expect_pong(Message::Ping), Err(NetError::UnexpectedReply)));
    assert!(matches!(expect_pong(Message::NotFound), Err(NetError::UnexpectedReply)));
    assert_eq!(expect_value(Message::Value { value: b"world".to_vec() }).unwrap(), Some(b"world".to_vec()));
    assert_eq!(expect_value(Message::NotFound).unwrap(), None);
    assert!(matches!(expect_value(Message::Pong), Err(NetError::UnexpectedReply)));
}

#[test]
fn errors_convert_into_net_errors() {
    assert!(matches!(NetError::from(FrameError::UnexpectedEof), NetError::Frame(FrameError::UnexpectedEof)));
    assert!(matches!(NetError::from(ProtocolError::Empty), NetError::Protocol(ProtocolError::Empty)));
    let io = std::io::Error::new(std::io::ErrorKind::Other, "x");
    assert!(matches!(NetError::from(io), NetError::Io(_)));
}

#[test]
fn read_step_reassembles_across_any_number_of_reads() {
    let msg = Message::Put { key: "alpha".to_string(), value: b"beta".to_vec() };
    let wire = wire_bytes(&msg);
    for size in 1..=wire.len() {
        let mut dec = Decoder::new();
        let chunks: Vec<&[u8]> = wire.chunks(size).collect();
        for (i, chunk) in chunks.iter().enumerate() {
            let got = read_step(&mut dec, chunk).unwrap();
            if i + 1 < chunks.len() {
                assert!(got.is_none(), "size {} chunk {}", size, i);
            } else {
                assert_eq!(got, Some(msg.clone()));
            }
        }
    }
}

#[test]
fn error_texts() {
    assert_eq!(
        FrameError::TooLarge(5000).to_string(),
        "frame length 5000 exceeds max 16777216"
    );
    assert_eq!(FrameError::UnexpectedEof.to_string(), "stream ended before frame completed");
    assert_eq!(ProtocolError::Empty.to_string(), "empty message body");
    assert_eq!(ProtocolError::UnknownTag(0x0e).to_string(), "unknown message tag 0x0e");
    assert_eq!(ProtocolError::UnknownTag(0xEE).to_string(), "unknown message tag 0xee");
    assert_eq!(ProtocolError::Truncated.to_string(), "message body truncated");
    assert_eq!(ProtocolError::InvalidUtf8.to_string(), "key bytes are not valid utf-8");
    assert_eq!(
        NetError::Frame(FrameError::TooLarge(0)).to_string(),
        "frame error: frame length 0 exceeds max 16777216"
    );
    assert_eq!(
        NetError::Protocol(ProtocolError::Truncated).to_string(),
        "protocol error: message body truncated"
    );
    assert_eq!(NetError::ConnectionClosed.to_string(), "connection closed before reply");
    assert_eq!(NetError::UnexpectedReply.to_string(), "unexpected reply");
    let io = std::io::Error::new(std::io::ErrorKind::Other, "boom");
    assert_eq!(NetError::Io(io).to_string(), "io error: boom");
}

#[test]
fn after_read_serves_stops_or_fails() {
    assert_eq!(after_read(Ok(Message::Ping)).unwrap(), Some(Message::Ping));
    assert_eq!(after_read(Err(NetError::ConnectionClosed)).unwrap(), None);
    assert!(matches!(
        after_read(Err(NetError::Protocol(ProtocolError::Empty))),
        Err(NetError::Protocol(ProtocolError::Empty))
    ));
}
