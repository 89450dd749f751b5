use grpc_web_client::base64;
use grpc_web_client::body::{decode_body, decode_chunks, encode_body, BodyAdapter};
use grpc_web_client::frame;
use grpc_web_client::trailers::Metadata;
use grpc_web_client::{ClientError, Encoding};

fn status_ok() -> Metadata {
    let mut trailers = Metadata::new();
    trailers.push(b"grpc-status".to_vec(), b"0".to_vec());
    trailers
}

fn sample_body(encoding: Encoding) -> Vec<u8> {
    let messages = vec![b"hi".to_vec(), b"there".to_vec()];
    encode_body(encoding, &messages, Some(&status_ok())).unwrap()
}

fn drain(encoding: Encoding, chunks: &[&[u8]]) -> Result<(Vec<Vec<u8>>, Metadata), ClientError> {
    let mut adapter = BodyAdapter::new(encoding);
    let mut messages = Vec::new();
    for chunk in chunks {
        messages.extend(adapter.push_chunk(chunk)?);
    }
    let trailers = adapter.finish()?;
    Ok((messages, trailers))
}

fn assert_sample_result(result: Result<(Vec<Vec<u8>>, Metadata), ClientError>) {
    let (messages, trailers) = result.unwrap();
    assert_eq!(messages, vec![b"hi".to_vec(), b"there".to_vec()]);
    assert_eq!(trailers.len(), 1);
    assert_eq!(trailers.get(b"grpc-status"), Some(&b"0".to_vec()));
}

#[test]
fn two_messages_and_status_in_one_shot() {
    let body = sample_body(Encoding::Identity);
    let mut expected = vec![0, 0, 0, 0, 2, b'h', b'i', 0, 0, 0, 0, 5];
    expected.extend_from_slice(b"there");
    expected.extend_from_slice(&[0x80, 0, 0, 0, 16]);
    expected.extend_from_slice(b"grpc-status: 0\r\n");
    assert_eq!(body, expected);
    assert_sample_result(decode_body(Encoding::Identity, &body));
}

#[test]
fn two_messages_and_status_in_one_byte_chunks() {
    let body = sample_body(Encoding::Identity);
    let chunks: Vec<&[u8]> = body.chunks(1).collect();
    assert_sample_result(drain(Encoding::Identity, &chunks));
}

#[test]
fn two_messages_and_status_as_base64() {
    let body = sample_body(Encoding::Base64);
    assert_eq!(body.len() % 4, 0);
    assert!(body
        .iter()
        .all(|c| c.is_ascii_alphanumeric() || *c == b'+' || *c == b'/' || *c == b'='));
    assert_eq!(base64::decode(&body), Ok(sample_body(Encoding::Identity)));
    assert_sample_result(decode_body(Encoding::Base64, &body));
    let chunks: Vec<&[u8]> = body.chunks(1).collect();
    assert_sample_result(drain(Encoding::Base64, &chunks));
}

#[test]
fn round_trip_both_encodings() {
    let messages = vec![b"".to_vec(), vec![0u8, 255, 128, 10, 13], vec![7u8; 1000]];
    let mut trailers = Metadata::new();
    trailers.push(b"grpc-status".to_vec(), b"2".to_vec());
    trailers.push(b"grpc-message".to_vec(), b"boom".to_vec());
    for encoding in [Encoding::Identity, Encoding::Base64] {
        let body = encode_body(encoding, &messages, Some(&trailers)).unwrap();
        let (got, back) = decode_body(encoding, &body).unwrap();
        assert_eq!(got, messages);
        assert_eq!(back.len(), 2);
        assert_eq!(back.get(b"grpc-status"), Some(&b"2".to_vec()));
        assert_eq!(back.get(b"grpc-message"), Some(&b"boom".to_vec()));
    }
}

#[test]
fn chunk_boundaries_do_not_matter() {
    for encoding in [Encoding::Identity, Encoding::Base64] {
        let body = sample_body(encoding);
        for size in 1..=body.len() {
            let chunks: Vec<&[u8]> = body.chunks(size).collect();
            assert_sample_result(drain(encoding, &chunks));
        }
        for cut in 0..=body.len() {
            assert_sample_result(drain(encoding, &[&body[..cut], &body[cut..]]));
        }
    }
}

#[test]
fn terminal_frame_is_never_a_message() {
    let body = encode_body(Encoding::Identity, &Vec::new(), Some(&status_ok())).unwrap();
    let mut adapter = BodyAdapter::new(Encoding::Identity);
    assert_eq!(adapter.push_chunk(&body), Ok(Vec::<Vec<u8>>::new()));
    let trailers = adapter.finish().unwrap();
    assert_eq!(trailers.get(b"grpc-status"), Some(&b"0".to_vec()));
}

#[test]
fn no_terminal_frame_is_an_error() {
    let messages = vec![b"hi".to_vec(), b"there".to_vec()];
    for encoding in [Encoding::Identity, Encoding::Base64] {
        let body = encode_body(encoding, &messages, None).unwrap();
        assert_eq!(decode_body(encoding, &body).err(), Some(ClientError::MissingTrailers));
        let chunks: Vec<&[u8]> = body.chunks(1).collect();
        assert_eq!(drain(encoding, &chunks).err(), Some(ClientError::MissingTrailers));
        let mut adapter = BodyAdapter::new(encoding);
        assert_eq!(adapter.push_chunk(&body), Ok(messages.clone()));
        assert_eq!(adapter.finish().err(), Some(ClientError::MissingTrailers));
    }
}

#[test]
fn empty_stream_has_no_trailers() {
    assert_eq!(decode_body(Encoding::Identity, b"").err(), Some(ClientError::MissingTrailers));
    assert_eq!(decode_body(Encoding::Base64, b"").err(), Some(ClientError::MissingTrailers));
}

#[test]
fn truncated_frame_is_incomplete_not_malformed() {
    let body = sample_body(Encoding::Identity);
    for cut in 1..body.len() {
        let at_boundary = cut == 7 || cut == 17;
        let mut adapter = BodyAdapter::new(Encoding::Identity);
        assert!(adapter.push_chunk(&body[..cut]).is_ok());
        let expected = if at_boundary {
            ClientError::MissingTrailers
        } else {
            ClientError::UnexpectedEof
        };
        assert_eq!(adapter.finish().err(), Some(expected));
    }
}

#[test]
fn truncated_frame_under_base64() {
    let data = frame::encode(b"hello", false);
    let text = base64::encode(&data[..7]);
    assert_eq!(decode_body(Encoding::Base64, &text).err(), Some(ClientError::UnexpectedEof));
}

#[test]
fn base64_length_mismatch_fails_at_the_end_only() {
    let body = sample_body(Encoding::Base64);
    let cut = body.len() - 2;
    let mut adapter = BodyAdapter::new(Encoding::Base64);
    for c in &body[..cut] {
        assert!(adapter.push_chunk(&[*c]).is_ok());
    }
    assert_eq!(adapter.finish().err(), Some(ClientError::Encoding));
    assert_eq!(decode_body(Encoding::Base64, &body[..cut]).err(), Some(ClientError::Encoding));
}

#[test]
fn invalid_base64_character_ends_the_body() {
    let mut adapter = BodyAdapter::new(Encoding::Base64);
    assert_eq!(adapter.push_chunk(b"AAAA"), Ok(Vec::<Vec<u8>>::new()));
    assert_eq!(adapter.push_chunk(b"A*AA"), Err(ClientError::Encoding));
    assert_eq!(adapter.push_chunk(b"AAAA"), Err(ClientError::Encoding));
    assert_eq!(adapter.finish().err(), Some(ClientError::Encoding));
}

#[test]
fn frame_after_the_terminal_frame_is_refused() {
    let mut body = sample_body(Encoding::Identity);
    body.extend(frame::encode(b"late", false));
    assert_eq!(decode_body(Encoding::Identity, &body).err(), Some(ClientError::FrameDecode));
    let mut adapter = BodyAdapter::new(Encoding::Identity);
    assert!(adapter.push_chunk(&sample_body(Encoding::Identity)).is_ok());
    assert_eq!(adapter.push_chunk(&frame::encode(b"", true)), Err(ClientError::FrameDecode));
    assert_eq!(adapter.push_chunk(b""), Err(ClientError::FrameDecode));
    assert_eq!(adapter.finish().err(), Some(ClientError::FrameDecode));
}

#[test]
fn malformed_trailers_surface_at_the_end() {
    let mut body = frame::encode(b"hi", false);
    body.extend(frame::encode(b"grpc-status 0\r\n", true));
    let mut adapter = BodyAdapter::new(Encoding::Identity);
    assert_eq!(adapter.push_chunk(&body), Ok(vec![b"hi".to_vec()]));
    assert_eq!(adapter.finish().err(), Some(ClientError::HttpParseError));
}

#[test]
fn incomplete_trailers_surface_at_the_end() {
    let body = frame::encode(b"grpc-status: 0", true);
    assert_eq!(
        decode_body(Encoding::Identity, &body).err(),
        Some(ClientError::HttpIncompleteParseError)
    );
    let empty = frame::encode(b"", true);
    assert_eq!(
        decode_body(Encoding::Identity, &empty).err(),
        Some(ClientError::HttpIncompleteParseError)
    );
}

#[test]
fn encode_body_without_trailers_is_frames_only() {
    let messages = vec![b"a".to_vec(), b"bc".to_vec()];
    assert_eq!(
        encode_body(Encoding::Identity, &messages, None),
        Ok(vec![0, 0, 0, 0, 1, b'a', 0, 0, 0, 0, 2, b'b', b'c'])
    );
    assert_eq!(
        encode_body(Encoding::Base64, &messages, None),
        Ok(base64::encode(&[0, 0, 0, 0, 1, b'a', 0, 0, 0, 0, 2, b'b', b'c']))
    );
}

#[test]
fn adapter_reports_its_encoding() {
    assert_eq!(BodyAdapter::new(Encoding::Base64).encoding(), Encoding::Base64);
    assert_eq!(BodyAdapter::new(Encoding::Identity).encoding(), Encoding::Identity);
}

#[test]
fn decode_chunks_is_the_same_for_every_partition() {
    for encoding in [Encoding::Identity, Encoding::Base64] {
        let body = sample_body(encoding);
        for size in 1..=body.len() {
            let chunks: Vec<Vec<u8>> = body.chunks(size).map(|c| c.to_vec()).collect();
            assert_sample_result(decode_chunks(encoding, &chunks));
        }
        assert_eq!(
            decode_chunks(encoding, &Vec::new()).err(),
            Some(ClientError::MissingTrailers)
        );
    }
}
