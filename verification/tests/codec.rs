use pure_poison::hdlc::Hdlc;

fn encode_payload(payload: &[u8]) -> Vec<u8> {
    Hdlc::new().encode(payload)
}

fn decode_chunk(decoder: &mut Hdlc, chunk: &[u8]) -> Vec<u8> {
    let mut buf = chunk.to_vec();
    let len = buf.len();
    let n = decoder.decode(&mut buf, len);
    buf.truncate(n);
    buf
}

fn assert_round_trip(payload: &[u8]) {
    let frame = encode_payload(payload);
    let mut decoder = Hdlc::new();
    assert_eq!(decode_chunk(&mut decoder, &frame), payload.to_vec());
}

#[test]
fn round_trip_plain_bytes() {
    assert_round_trip(b"announce propagation");
    assert_round_trip(&[0x00, 0x01, 0xfe, 0xff, 0x20, 0x5e, 0x5d]);
}

#[test]
fn round_trip_with_delimiter_and_escape_bytes() {
    assert_round_trip(&[0x7e]);
    assert_round_trip(&[0x7d]);
    assert_round_trip(&[0x7e, 0x7d, 0x7e, 0x7d]);
    assert_round_trip(&[0x01, 0x7e, 0x02, 0x7d, 0x03]);
    assert_round_trip(&[0x7e, 0x00, 0x00, 0x7d]);
}

#[test]
fn round_trip_empty_payload() {
    let frame = encode_payload(&[]);
    assert_eq!(frame, vec![0x7e, 0x7e]);
    let mut decoder = Hdlc::new();
    assert_eq!(decode_chunk(&mut decoder, &frame), Vec::<u8>::new());
}

#[test]
fn escape_correctness_exact_frames() {
    assert_eq!(encode_payload(&[0x7e]), vec![0x7e, 0x7d, 0x5e, 0x7e]);
    assert_eq!(encode_payload(&[0x7d]), vec![0x7e, 0x7d, 0x5d, 0x7e]);
}

#[test]
fn chunking_invariance_every_split_point() {
    let payload = [0x10u8, 0x7e, 0x20, 0x7d, 0x30, 0x7e, 0x7d, 0x40];
    let frame = encode_payload(&payload);
    for split in 0..=frame.len() {
        let mut decoder = Hdlc::new();
        let mut decoded = decode_chunk(&mut decoder, &frame[..split]);
        decoded.extend_from_slice(&decode_chunk(&mut decoder, &frame[split..]));
        assert_eq!(decoded, payload.to_vec(), "split at {split}");
    }
}

#[test]
fn chunking_invariance_three_chunks() {
    let payload = [0x7eu8, 0x7d, 0x00, 0xaa];
    let frame = encode_payload(&payload);
    for first in 0..=frame.len() {
        for second in first..=frame.len() {
            let mut decoder = Hdlc::new();
            let mut decoded = decode_chunk(&mut decoder, &frame[..first]);
            decoded.extend_from_slice(&decode_chunk(&mut decoder, &frame[first..second]));
            decoded.extend_from_slice(&decode_chunk(&mut decoder, &frame[second..]));
            assert_eq!(decoded, payload.to_vec(), "splits at {first} and {second}");
        }
    }
}

#[test]
fn escape_state_survives_chunk_boundary() {
    // The opening delimiter and the escape byte arrive in one read, the
    // masked literal and the closing delimiter in the next.
    let mut decoder = Hdlc::new();
    assert_eq!(decode_chunk(&mut decoder, &[0x7e, 0x7d]), Vec::<u8>::new());
    assert_eq!(decode_chunk(&mut decoder, &[0x5e, 0x7e]), vec![0x7e]);
}

#[test]
fn noise_before_opening_delimiter_is_discarded() {
    let payload = [0x42u8, 0x43];
    let frame = encode_payload(&payload);
    let mut noisy = vec![0x01, 0x02, 0x03];
    noisy.extend_from_slice(&frame);
    let mut decoder = Hdlc::new();
    assert_eq!(decode_chunk(&mut decoder, &noisy), payload.to_vec());
}

#[test]
fn bytes_after_closing_delimiter_are_dropped() {
    let payload = [0x42u8];
    let mut chunk = encode_payload(&payload);
    chunk.extend_from_slice(&[0x99, 0x98, 0x97]);
    let mut decoder = Hdlc::new();
    assert_eq!(decode_chunk(&mut decoder, &chunk), payload.to_vec());
    // The decoder is idle again: a following complete frame decodes fresh.
    let second = encode_payload(&[0x07, 0x08]);
    assert_eq!(decode_chunk(&mut decoder, &second), vec![0x07, 0x08]);
}

#[test]
fn decode_reports_payload_at_buffer_front() {
    let payload = [0x11u8, 0x7e, 0x22];
    let frame = encode_payload(&payload);
    let mut buf = frame.clone();
    buf.extend_from_slice(&[0u8; 16]);
    let mut decoder = Hdlc::new();
    let n = decoder.decode(&mut buf, frame.len());
    assert_eq!(n, payload.len());
    assert_eq!(&buf[..n], &payload);
    assert_eq!(buf.len(), frame.len() + 16);
}
