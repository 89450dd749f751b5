use grpc_web_client::frame::{encode, DecodePhase, DecodeState};

#[test]
fn encode_data_frame_header_and_payload() {
    assert_eq!(encode(b"hi", false), vec![0, 0, 0, 0, 2, b'h', b'i']);
}

#[test]
fn encode_terminal_frame_sets_flag() {
    assert_eq!(encode(b"a:b\r\n", true), vec![0x80, 0, 0, 0, 5, b'a', b':', b'b', b'\r', b'\n']);
}

#[test]
fn encode_empty_payload() {
    assert_eq!(encode(b"", false), vec![0, 0, 0, 0, 0]);
}

#[test]
fn encode_length_is_big_endian() {
    let payload = vec![7u8; 0x0102_03];
    let framed = encode(&payload, false);
    assert_eq!(&framed[..5], &[0, 0, 1, 2, 3]);
    assert_eq!(framed.len(), 5 + 0x0102_03);
    assert_eq!(&framed[5..], &payload[..]);
}

#[test]
fn decode_step_whole_frame() {
    let mut state = DecodeState::new();
    let (frames, unfinished) = state.decode_step(&[0, 0, 0, 0, 2, b'h', b'i']);
    assert_eq!(frames.len(), 1);
    assert!(!frames[0].is_terminal);
    assert_eq!(frames[0].payload, b"hi".to_vec());
    assert!(!unfinished);
    assert_eq!(state.phase(), DecodePhase::AwaitingHeader);
}

#[test]
fn decode_step_two_frames_in_wire_order() {
    let mut wire = encode(b"one", false);
    wire.extend(encode(b"three", true));
    let mut state = DecodeState::new();
    let (frames, unfinished) = state.decode_step(&wire);
    assert_eq!(frames.len(), 2);
    assert_eq!(frames[0].payload, b"one".to_vec());
    assert!(!frames[0].is_terminal);
    assert_eq!(frames[1].payload, b"three".to_vec());
    assert!(frames[1].is_terminal);
    assert!(!unfinished);
}

#[test]
fn decode_step_partial_header_is_kept() {
    let mut state = DecodeState::new();
    let (frames, unfinished) = state.decode_step(&[0, 0, 0]);
    assert!(frames.is_empty());
    assert!(unfinished);
    assert_eq!(state.phase(), DecodePhase::AwaitingHeader);
    let (frames, unfinished) = state.decode_step(&[0, 1, b'x']);
    assert_eq!(frames.len(), 1);
    assert_eq!(frames[0].payload, b"x".to_vec());
    assert!(!unfinished);
}

#[test]
fn decode_step_partial_payload_reports_remaining() {
    let mut state = DecodeState::new();
    let (frames, unfinished) = state.decode_step(&[0x80, 0, 0, 0, 4, b'a']);
    assert!(frames.is_empty());
    assert!(unfinished);
    assert!(state.is_mid_frame());
    assert_eq!(state.phase(), DecodePhase::AwaitingPayload { is_terminal: true, remaining: 3 });
    let (frames, _) = state.decode_step(b"bc");
    assert!(frames.is_empty());
    assert_eq!(state.phase(), DecodePhase::AwaitingPayload { is_terminal: true, remaining: 1 });
    let (frames, unfinished) = state.decode_step(b"d");
    assert_eq!(frames.len(), 1);
    assert!(frames[0].is_terminal);
    assert_eq!(frames[0].payload, b"abcd".to_vec());
    assert!(!unfinished);
    assert!(!state.is_mid_frame());
}

#[test]
fn decode_step_empty_payload_frame() {
    let mut state = DecodeState::new();
    let (frames, unfinished) = state.decode_step(&[0, 0, 0, 0, 0]);
    assert_eq!(frames.len(), 1);
    assert!(frames[0].payload.is_empty());
    assert!(!unfinished);
}

#[test]
fn decode_step_reserved_flag_bits_are_ignored() {
    let mut state = DecodeState::new();
    let (frames, _) = state.decode_step(&[0x7f, 0, 0, 0, 1, b'x', 0xff, 0, 0, 0, 1, b'y']);
    assert_eq!(frames.len(), 2);
    assert!(!frames[0].is_terminal);
    assert!(frames[1].is_terminal);
}

#[test]
fn decode_step_byte_by_byte_gives_the_same_frames() {
    let mut wire = encode(b"hello", false);
    wire.extend(encode(b"", false));
    wire.extend(encode(b"k: v\r\n", true));
    let (whole, _) = DecodeState::new().decode_step(&wire);
    let mut state = DecodeState::new();
    let mut collected = Vec::new();
    for byte in &wire {
        let (frames, _) = state.decode_step(&[*byte]);
        collected.extend(frames);
    }
    assert_eq!(collected.len(), whole.len());
    for (a, b) in collected.iter().zip(whole.iter()) {
        assert_eq!(a.is_terminal, b.is_terminal);
        assert_eq!(a.payload, b.payload);
    }
    assert!(!state.is_mid_frame());
}

#[test]
fn decode_step_empty_chunk_changes_nothing() {
    let mut state = DecodeState::new();
    state.decode_step(&[0, 0]);
    let (frames, unfinished) = state.decode_step(&[]);
    assert!(frames.is_empty());
    assert!(unfinished);
}
