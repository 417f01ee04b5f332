use semaphore::{Decoder, Frame, FrameError, MAX_FRAME_LEN};

#[test]
fn roundtrip_empty() {
    let frame = Frame::new(vec![]);
    let encoded = frame.encode();
    assert_eq!(encoded, vec![0, 0, 0, 0]);
    let mut dec = Decoder::new();
    let frames = dec.push(&encoded).unwrap();
    assert_eq!(frames, vec![frame]);
}

#[test]
fn roundtrip_small() {
    let frame = Frame::new(b"hello".to_vec());
    let encoded = frame.encode();
    let mut dec = Decoder::new();
    let frames = dec.push(&encoded).unwrap();
    assert_eq!(frames, vec![frame]);
}

#[test]
fn roundtrip_large() {
    let payload = vec![0xABu8; 500_000];
    let frame = Frame::new(payload);
    let encoded = frame.encode();
    let mut dec = Decoder::new();
    let frames = dec.push(&encoded).unwrap();
    assert_eq!(frames, vec![frame]);
}

#[test]
fn streaming_reassembly_one_byte_at_a_time() {
    let frame = Frame::new(b"streamed payload".to_vec());
    let encoded = frame.encode();
    let mut dec = Decoder::new();
    let mut got = Vec::new();
    for b in &encoded {
        got.extend(dec.push(&[*b]).unwrap());
    }
    assert_eq!(got, vec![frame]);
}

#[test]
fn multiple_frames_in_one_chunk() {
    let f1 = Frame::new(b"one".to_vec());
    let f2 = Frame::new(b"two".to_vec());
    let mut combined = f1.encode();
    combined.extend(f2.encode());
    let mut dec = Decoder::new();
    let frames = dec.push(&combined).unwrap();
    assert_eq!(frames, vec![f1, f2]);
}

#[test]
fn oversize_length_prefix_rejected_without_allocating() {
    let mut dec = Decoder::with_max_len(1024);
    let huge_len: u32 = 0xFFFF_FFFF;
    let err = dec.push(&huge_len.to_be_bytes()).unwrap_err();
    assert_eq!(err, FrameError::TooLarge(huge_len));
}

#[test]
fn decoder_recovers_after_oversize_rejection() {
    let mut dec = Decoder::with_max_len(1024);
    let huge_len: u32 = 5000;
    assert!(dec.push(&huge_len.to_be_bytes()).is_err());
    let frame = Frame::new(b"ok".to_vec());
    let frames = dec.push(&frame.encode()).unwrap();
    assert_eq!(frames, vec![frame]);
}

#[test]
fn encode_writes_big_endian_length_then_payload() {
    let frame = Frame::new(vec![7u8; 0x0102]);
    let encoded = frame.encode();
    assert_eq!(&encoded[..4], &[0, 0, 1, 2]);
    assert_eq!(encoded.len(), 4 + 0x0102);
    assert!(encoded[4..].iter().all(|b| *b == 7));
}

#[test]
fn every_split_of_a_stream_gives_the_same_frames() {
    let payloads: Vec<Vec<u8>> = vec![b"alpha".to_vec(), vec![], b"z".to_vec(), vec![9u8; 300]];
    let mut stream = Vec::new();
    for p in &payloads {
        stream.extend(Frame::new(p.clone()).encode());
    }
    let expected: Vec<Frame> = payloads.iter().map(|p| Frame::new(p.clone())).collect();
    for cut in 0..=stream.len() {
        let mut dec = Decoder::new();
        let mut got = dec.push(&stream[..cut]).unwrap();
        got.extend(dec.push(&stream[cut..]).unwrap());
        assert_eq!(got, expected, "cut at {}", cut);
    }
}

#[test]
fn partial_frame_yields_nothing_until_complete() {
    let encoded = Frame::new(b"abcdef".to_vec()).encode();
    let mut dec = Decoder::new();
    assert_eq!(dec.push(&encoded[..2]).unwrap(), vec![]);
    assert_eq!(dec.push(&encoded[2..7]).unwrap(), vec![]);
    assert_eq!(dec.push(&[]).unwrap(), vec![]);
    assert_eq!(dec.push(&encoded[7..]).unwrap(), vec![Frame::new(b"abcdef".to_vec())]);
}

#[test]
fn oversize_error_drops_frames_completed_earlier_in_the_same_chunk() {
    let mut dec = Decoder::with_max_len(4);
    let mut chunk = Frame::new(b"ok".to_vec()).encode();
    chunk.extend_from_slice(&5u32.to_be_bytes());
    chunk.extend_from_slice(b"hello");
    assert_eq!(dec.push(&chunk), Err(FrameError::TooLarge(5)));
    assert_eq!(dec.push(&Frame::new(b"abcd".to_vec()).encode()).unwrap(), vec![Frame::new(b"abcd".to_vec())]);
}

#[test]
fn length_at_the_limit_is_accepted() {
    let mut dec = Decoder::with_max_len(3);
    let frames = dec.push(&Frame::new(b"abc".to_vec()).encode()).unwrap();
    assert_eq!(frames, vec![Frame::new(b"abc".to_vec())]);
    assert_eq!(dec.push(&4u32.to_be_bytes()), Err(FrameError::TooLarge(4)));
}

#[test]
fn default_decoder_uses_the_standard_limit() {
    let mut dec = Decoder::default();
    assert_eq!(MAX_FRAME_LEN, 16 * 1024 * 1024);
    assert_eq!(dec.push(&MAX_FRAME_LEN.to_be_bytes()).unwrap(), vec![]);
    let mut dec = Decoder::default();
    assert_eq!(
        dec.push(&(MAX_FRAME_LEN + 1).to_be_bytes()),
        Err(FrameError::TooLarge(MAX_FRAME_LEN + 1))
    );
}
