use concensus::frame::{
    encode_frame, length_prefix, next_rebind_delay, FrameReader, INITIAL_REBIND_DELAY_MS,
    MAX_MESSAGE_SIZE, MAX_REBIND_DELAY_MS,
};

#[test]
fn a_frame_starts_with_its_length() {
    assert_eq!(length_prefix(0x0102_0304), vec![1, 2, 3, 4]);
    assert_eq!(encode_frame(&vec![7, 8]), vec![0, 0, 0, 2, 7, 8]);
}

#[test]
fn frames_are_read_as_they_were_written() {
    let payloads: Vec<Vec<u8>> = vec![b"hello".to_vec(), vec![], b"world!".to_vec()];
    let mut stream = Vec::new();
    for p in &payloads {
        stream.extend(encode_frame(p));
    }
    let mut reader = FrameReader::new();
    assert_eq!(reader.feed(&stream), payloads);
    assert!(!reader.broken);
    assert!(reader.pending.is_empty());
}

#[test]
fn a_stream_may_come_in_any_pieces() {
    let payloads: Vec<Vec<u8>> = vec![b"hello".to_vec(), b"x".to_vec(), vec![]];
    let mut stream = Vec::new();
    for p in &payloads {
        stream.extend(encode_frame(p));
    }
    for size in 1..stream.len() {
        let mut reader = FrameReader::new();
        let mut got = Vec::new();
        for piece in stream.chunks(size) {
            got.extend(reader.feed(piece));
        }
        assert_eq!(got, payloads, "pieces of {size}");
    }
}

#[test]
fn an_oversized_frame_breaks_the_stream() {
    let mut reader = FrameReader::new();
    let mut stream = encode_frame(&b"ok".to_vec());
    stream.extend(length_prefix(MAX_MESSAGE_SIZE + 1));
    assert_eq!(reader.feed(&stream), vec![b"ok".to_vec()]);
    assert!(reader.broken);
    assert!(reader.feed(&encode_frame(&b"late".to_vec())).is_empty());
}

#[test]
fn the_largest_frame_is_no_break() {
    let mut reader = FrameReader::new();
    assert!(reader.feed(&length_prefix(MAX_MESSAGE_SIZE)).is_empty());
    assert!(!reader.broken);
    let payload = vec![1u8; MAX_MESSAGE_SIZE];
    let got = reader.feed(&payload);
    assert_eq!(got.len(), 1);
    assert_eq!(got[0].len(), MAX_MESSAGE_SIZE);
}

#[test]
fn rebind_delays_double_up_to_a_limit() {
    let mut delay = INITIAL_REBIND_DELAY_MS;
    let mut seen = vec![delay];
    for _ in 0..8 {
        delay = next_rebind_delay(delay);
        seen.push(delay);
    }
    assert_eq!(
        seen,
        vec![100, 200, 400, 800, 1600, 3200, 5000, 5000, 5000]
    );
    assert_eq!(next_rebind_delay(1 << 40), MAX_REBIND_DELAY_MS);
}
