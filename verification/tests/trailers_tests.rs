use grpc_web_client::trailers::{try_parse, Metadata, TrailerParse};

fn parsed(buffer: &[u8]) -> (Metadata, usize) {
    match try_parse(buffer) {
        TrailerParse::Parsed(metadata, consumed) => (metadata, consumed),
        other => panic!("not parsed: {:?}", other),
    }
}

#[test]
fn status_and_message_block() {
    let payload = b"grpc-status: 2\r\ngrpc-message: boom\r\n";
    let (metadata, consumed) = parsed(payload);
    assert_eq!(consumed, payload.len());
    assert_eq!(metadata.len(), 2);
    assert_eq!(metadata.get(b"grpc-status"), Some(&b"2".to_vec()));
    assert_eq!(metadata.get(b"grpc-message"), Some(&b"boom".to_vec()));
    assert_eq!(metadata.get(b"grpc-encoding"), None);
    assert_eq!(metadata.key_at(0), &b"grpc-status".to_vec());
    assert_eq!(metadata.value_at(1), &b"boom".to_vec());
}

#[test]
fn parse_accepts_bare_line_feeds() {
    let (metadata, consumed) = parsed(b"grpc-status:0\ngrpc-message:ok\n");
    assert_eq!(consumed, 30);
    assert_eq!(metadata.get(b"grpc-status"), Some(&b"0".to_vec()));
    assert_eq!(metadata.get(b"grpc-message"), Some(&b"ok".to_vec()));
}

#[test]
fn parse_lowers_keys_and_trims_values() {
    let (metadata, _) = parsed(b"Grpc-Status: \t 0 \t\r\nX-Key:a b\r\n");
    assert_eq!(metadata.key_at(0), &b"grpc-status".to_vec());
    assert_eq!(metadata.value_at(0), &b"0".to_vec());
    assert_eq!(metadata.key_at(1), &b"x-key".to_vec());
    assert_eq!(metadata.value_at(1), &b"a b".to_vec());
}

#[test]
fn parse_splits_at_the_first_colon() {
    let (metadata, _) = parsed(b"grpc-message: a: b:c\r\n");
    assert_eq!(metadata.get(b"grpc-message"), Some(&b"a: b:c".to_vec()));
}

#[test]
fn parse_keeps_an_empty_value() {
    let (metadata, _) = parsed(b"grpc-message:\r\n");
    assert_eq!(metadata.get(b"grpc-message"), Some(&b"".to_vec()));
}

#[test]
fn parse_later_line_replaces_earlier_on_lookup() {
    let (metadata, _) = parsed(b"k: 1\r\nk: 2\r\n");
    assert_eq!(metadata.len(), 2);
    assert_eq!(metadata.get(b"k"), Some(&b"2".to_vec()));
}

#[test]
fn parse_empty_buffer_is_incomplete() {
    assert!(matches!(try_parse(b""), TrailerParse::Incomplete));
}

#[test]
fn parse_unterminated_line_is_incomplete() {
    assert!(matches!(try_parse(b"grpc-status: 0"), TrailerParse::Incomplete));
    assert!(matches!(try_parse(b"grpc-status: 0\r"), TrailerParse::Incomplete));
    assert!(matches!(try_parse(b"grpc-status: 0\r\ngrpc-mess"), TrailerParse::Incomplete));
}

#[test]
fn parse_is_resumable_with_more_bytes() {
    let whole = b"grpc-status: 0\r\ngrpc-message: fine\r\n";
    for cut in 0..whole.len() {
        match try_parse(&whole[..cut]) {
            TrailerParse::Malformed { .. } => panic!("prefix {} is malformed", cut),
            TrailerParse::Incomplete => {}
            TrailerParse::Parsed(_, consumed) => assert_eq!(consumed, cut),
        }
    }
    let (metadata, _) = parsed(whole);
    assert_eq!(metadata.get(b"grpc-message"), Some(&b"fine".to_vec()));
}

#[test]
fn parse_line_without_colon_is_malformed() {
    assert!(matches!(try_parse(b"grpc-status 0\r\n"), TrailerParse::Malformed { offset: 0 }));
    assert!(matches!(
        try_parse(b"grpc-status: 0\r\nboom\r\n"),
        TrailerParse::Malformed { offset: 16 }
    ));
}

#[test]
fn parse_empty_line_is_malformed() {
    assert!(matches!(try_parse(b"\r\n"), TrailerParse::Malformed { offset: 0 }));
    assert!(matches!(try_parse(b"a: b\n\n"), TrailerParse::Malformed { offset: 5 }));
}

#[test]
fn parse_malformed_line_comes_before_an_unfinished_one() {
    assert!(matches!(try_parse(b"boom\r\ngrpc-st"), TrailerParse::Malformed { offset: 0 }));
}

#[test]
fn metadata_encode_writes_one_line_per_pair() {
    let mut metadata = Metadata::new();
    assert!(metadata.is_empty());
    metadata.push(b"grpc-status".to_vec(), b"0".to_vec());
    metadata.push(b"grpc-message".to_vec(), b"all good".to_vec());
    assert!(!metadata.is_empty());
    assert_eq!(metadata.encode(), b"grpc-status: 0\r\ngrpc-message: all good\r\n".to_vec());
}

#[test]
fn metadata_round_trip() {
    let mut metadata = Metadata::new();
    metadata.push(b"grpc-status".to_vec(), b"13".to_vec());
    metadata.push(b"grpc-message".to_vec(), b"a: b".to_vec());
    metadata.push(b"empty".to_vec(), b"".to_vec());
    let block = metadata.encode();
    let (back, consumed) = parsed(&block);
    assert_eq!(consumed, block.len());
    assert_eq!(back.len(), 3);
    for i in 0..3 {
        assert_eq!(back.key_at(i), metadata.key_at(i));
        assert_eq!(back.value_at(i), metadata.value_at(i));
    }
}
