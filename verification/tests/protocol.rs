use semaphore::protocol::{TAG_GET, TAG_SET};
use semaphore::{Frame, Message, ProtocolError};

#[test]
fn ping_pong_roundtrip() {
    assert_eq!(Message::decode(&Message::Ping.encode()).unwrap(), Message::Ping);
    assert_eq!(Message::decode(&Message::Pong.encode()).unwrap(), Message::Pong);
}

#[test]
fn set_get_value_not_found_roundtrip() {
    let set = Message::Put {
        key: "k".to_string(),
        value: b"v".to_vec(),
    };
    assert_eq!(Message::decode(&set.encode()).unwrap(), set);

    let get = Message::Get { key: "k".to_string() };
    assert_eq!(Message::decode(&get.encode()).unwrap(), get);

    let value = Message::Value { value: b"v".to_vec() };
    assert_eq!(Message::decode(&value.encode()).unwrap(), value);

    assert_eq!(Message::decode(&Message::NotFound.encode()).unwrap(), Message::NotFound);
}

#[test]
fn empty_body_errors() {
    let frame = Frame::new(vec![]);
    assert_eq!(Message::decode(&frame).unwrap_err(), ProtocolError::Empty);
}

#[test]
fn unknown_tag_errors() {
    let frame = Frame::new(vec![0xEE]);
    assert_eq!(Message::decode(&frame).unwrap_err(), ProtocolError::UnknownTag(0xEE));
}

#[test]
fn truncated_body_errors_cleanly() {
    // TAG_SET with a key length claiming 10 bytes but none present.
    let frame = Frame::new(vec![TAG_SET, 0x00, 0x0A]);
    assert_eq!(Message::decode(&frame).unwrap_err(), ProtocolError::Truncated);
}

#[test]
fn invalid_utf8_key_errors_cleanly() {
    let mut body = vec![TAG_GET];
    body.extend_from_slice(&2u16.to_be_bytes());
    body.extend_from_slice(&[0xFF, 0xFE]);
    let frame = Frame::new(body);
    assert_eq!(Message::decode(&frame).unwrap_err(), ProtocolError::InvalidUtf8);
}

#[test]
fn encode_layout_is_exact() {
    let set = Message::Put { key: "ké".to_string(), value: vec![1, 2] };
    assert_eq!(
        set.encode().payload,
        vec![3, 0, 3, b'k', 0xC3, 0xA9, 0, 0, 0, 2, 1, 2]
    );
    assert_eq!(Message::Ping.encode().payload, vec![1]);
    assert_eq!(Message::Pong.encode().payload, vec![2]);
    assert_eq!(Message::Get { key: String::new() }.encode().payload, vec![4, 0, 0]);
    assert_eq!(Message::Value { value: vec![] }.encode().payload, vec![5, 0, 0, 0, 0]);
    assert_eq!(Message::NotFound.encode().payload, vec![6]);
}

#[test]
fn multibyte_key_roundtrips_through_utf8_check() {
    let get = Message::Get { key: "clé→日本".to_string() };
    let frame = get.encode();
    assert_eq!(Message::decode(&frame).unwrap(), get);
}

#[test]
fn truncated_value_errors() {
    // A key that is complete, then a value length of 4 with only 1 byte.
    let frame = Frame::new(vec![TAG_SET, 0, 1, b'a', 0, 0, 0, 4, 9]);
    assert_eq!(Message::decode(&frame).unwrap_err(), ProtocolError::Truncated);
    // A value length field cut short.
    let frame = Frame::new(vec![5, 0, 0]);
    assert_eq!(Message::decode(&frame).unwrap_err(), ProtocolError::Truncated);
    // A key length field cut short.
    let frame = Frame::new(vec![TAG_GET, 0]);
    assert_eq!(Message::decode(&frame).unwrap_err(), ProtocolError::Truncated);
}

#[test]
fn trailing_bytes_after_a_message_are_ignored() {
    let frame = Frame::new(vec![1, 99, 98]);
    assert_eq!(Message::decode(&frame).unwrap(), Message::Ping);
    let frame = Frame::new(vec![TAG_GET, 0, 1, b'x', 0xFF]);
    assert_eq!(Message::decode(&frame).unwrap(), Message::Get { key: "x".to_string() });
}

#[test]
fn overlong_key_length_wraps_on_encode() {
    // A 65536-byte key has its 16-bit length field written as 0.
    let key = "a".repeat(65536);
    let frame = Message::Get { key }.encode();
    assert_eq!(&frame.payload[..3], &[4, 0, 0]);
    assert_eq!(frame.payload.len(), 3 + 65536);
    assert_eq!(Message::decode(&frame).unwrap(), Message::Get { key: String::new() });
}
