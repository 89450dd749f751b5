use grpc_web_client::base64::{decode, encode, Base64Decoder, Base64Encoder};
use grpc_web_client::ClientError;

#[test]
fn encode_known_vectors() {
    assert_eq!(encode(b""), b"".to_vec());
    assert_eq!(encode(b"f"), b"Zg==".to_vec());
    assert_eq!(encode(b"fo"), b"Zm8=".to_vec());
    assert_eq!(encode(b"foo"), b"Zm9v".to_vec());
    assert_eq!(encode(b"foob"), b"Zm9vYg==".to_vec());
    assert_eq!(encode(b"fooba"), b"Zm9vYmE=".to_vec());
    assert_eq!(encode(b"foobar"), b"Zm9vYmFy".to_vec());
}

#[test]
fn encode_uses_the_whole_alphabet() {
    assert_eq!(encode(&[0xfb, 0xff, 0xbf]), b"+/+/".to_vec());
    assert_eq!(encode(&[0, 0, 0]), b"AAAA".to_vec());
    assert_eq!(encode(&[0xff, 0xff, 0xff]), b"////".to_vec());
}

#[test]
fn decode_known_vectors() {
    assert_eq!(decode(b""), Ok(b"".to_vec()));
    assert_eq!(decode(b"Zg=="), Ok(b"f".to_vec()));
    assert_eq!(decode(b"Zm8="), Ok(b"fo".to_vec()));
    assert_eq!(decode(b"Zm9v"), Ok(b"foo".to_vec()));
    assert_eq!(decode(b"Zm9vYmFy"), Ok(b"foobar".to_vec()));
    assert_eq!(decode(b"+/+/"), Ok(vec![0xfb, 0xff, 0xbf]));
}

#[test]
fn decode_round_trips_every_byte() {
    let data: Vec<u8> = (0..=255u8).collect();
    for len in 0..data.len() {
        assert_eq!(decode(&encode(&data[..len])), Ok(data[..len].to_vec()));
    }
}

#[test]
fn decode_rejects_text_that_is_no_whole_group() {
    assert_eq!(decode(b"Zm9"), Err(ClientError::Encoding));
    assert_eq!(decode(b"Zm9vY"), Err(ClientError::Encoding));
}

#[test]
fn decode_rejects_characters_outside_the_alphabet() {
    assert_eq!(decode(b"Zm9*"), Err(ClientError::Encoding));
    assert_eq!(decode(b"Zm 9"), Err(ClientError::Encoding));
    assert_eq!(decode(b"Zm9v\n\n\n\n"), Err(ClientError::Encoding));
}

#[test]
fn decode_rejects_misplaced_padding() {
    assert_eq!(decode(b"=m9v"), Err(ClientError::Encoding));
    assert_eq!(decode(b"Z=9v"), Err(ClientError::Encoding));
    assert_eq!(decode(b"Zm=v"), Err(ClientError::Encoding));
    assert_eq!(decode(b"===="), Err(ClientError::Encoding));
}

#[test]
fn decode_rejects_stray_bits_before_padding() {
    assert_eq!(decode(b"Zh=="), Err(ClientError::Encoding));
    assert_eq!(decode(b"Zm9="), Err(ClientError::Encoding));
}

#[test]
fn decode_reads_a_padded_group_in_the_middle() {
    assert_eq!(decode(b"Zg==Zm8="), Ok(b"ffo".to_vec()));
}

#[test]
fn encoder_emits_whole_groups_only() {
    let mut encoder = Base64Encoder::new();
    assert_eq!(encoder.push(b"f"), b"".to_vec());
    assert_eq!(encoder.push(b"o"), b"".to_vec());
    assert_eq!(encoder.push(b"ob"), b"Zm9v".to_vec());
    assert_eq!(encoder.push(b"ar"), b"YmFy".to_vec());
    assert_eq!(encoder.finish(), b"".to_vec());
}

#[test]
fn encoder_pads_at_the_end_only() {
    let mut encoder = Base64Encoder::new();
    assert_eq!(encoder.push(b"foob"), b"Zm9v".to_vec());
    assert_eq!(encoder.finish(), b"Yg==".to_vec());
    assert_eq!(encoder.finish(), b"".to_vec());
}

#[test]
fn encoder_chunking_is_invisible() {
    let data: Vec<u8> = (0..100u8).collect();
    for cut in 0..data.len() {
        let mut encoder = Base64Encoder::new();
        let mut text = encoder.push(&data[..cut]);
        text.extend(encoder.push(&data[cut..]));
        text.extend(encoder.finish());
        assert_eq!(text, encode(&data));
    }
}

#[test]
fn decoder_keeps_a_partial_group() {
    let mut decoder = Base64Decoder::new();
    assert_eq!(decoder.push(b"Zm9"), Ok(b"".to_vec()));
    assert_eq!(decoder.finish(), Err(ClientError::Encoding));
    assert_eq!(decoder.push(b"vYg"), Ok(b"foo".to_vec()));
    assert_eq!(decoder.push(b"=="), Ok(b"b".to_vec()));
    assert_eq!(decoder.finish(), Ok(()));
}

#[test]
fn decoder_one_character_at_a_time() {
    let text = encode(b"any carnal pleasure");
    let mut decoder = Base64Decoder::new();
    let mut out = Vec::new();
    for c in &text {
        out.extend(decoder.push(&[*c]).unwrap());
    }
    assert_eq!(decoder.finish(), Ok(()));
    assert_eq!(out, b"any carnal pleasure".to_vec());
}

#[test]
fn decoder_is_unchanged_by_a_refused_chunk() {
    let mut decoder = Base64Decoder::new();
    assert_eq!(decoder.push(b"Zm"), Ok(b"".to_vec()));
    assert_eq!(decoder.push(b"9*"), Err(ClientError::Encoding));
    assert_eq!(decoder.push(b"9v"), Ok(b"foo".to_vec()));
    assert_eq!(decoder.finish(), Ok(()));
}
