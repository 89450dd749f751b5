use grpc_web_client::body::decode_body;
use grpc_web_client::client::ResponseHead;
use grpc_web_client::errors::Missing;
use grpc_web_client::headers::{checked_status, HeaderSet};
use grpc_web_client::{Client, ClientError, CredentialsMode, Encoding, RequestMode};

fn pairs(items: &[(&str, &str)]) -> Vec<(String, String)> {
    items.iter().map(|(k, v)| (k.to_string(), v.to_string())).collect()
}

#[test]
fn new_client_has_the_defaults() {
    let client = Client::new("http://127.0.0.1:8080".to_string());
    assert_eq!(client.encoding(), Encoding::Identity);
    let init = client.post_init();
    assert_eq!(init.method, "POST");
    assert_eq!(init.mode, RequestMode::Cors);
    assert_eq!(init.credentials, CredentialsMode::SameOrigin);
}

#[test]
fn request_uri_puts_the_base_first() {
    let client = Client::new("http://127.0.0.1:8080".to_string());
    assert_eq!(
        client.request_uri("/helloworld.Greeter/SayHello"),
        "http://127.0.0.1:8080/helloworld.Greeter/SayHello"
    );
    assert_eq!(Client::new(String::new()).request_uri("/x"), "/x");
}

#[test]
fn request_headers_carry_the_protocol_headers() {
    let client = Client::new(String::new());
    let mut caller = HeaderSet::new();
    caller.append("te", "trailers").unwrap();
    let headers = client.request_headers(&caller).unwrap();
    assert_eq!(headers.len(), 4);
    assert_eq!(headers.get("te"), Some(&b"trailers".to_vec()));
    assert_eq!(headers.get("x-user-agent"), Some(&b"grpc-web-rust/0.1".to_vec()));
    assert_eq!(headers.get("x-grpc-web"), Some(&b"1".to_vec()));
    assert_eq!(headers.get("content-type"), Some(&b"application/grpc-web+proto".to_vec()));
    assert_eq!(headers.name_at(0), &b"te".to_vec());
    assert_eq!(headers.name_at(3), &b"content-type".to_vec());
}

#[test]
fn request_headers_protocol_values_win() {
    let client = Client::new(String::new()).with_encoding(Encoding::Base64);
    let mut caller = HeaderSet::new();
    caller.append("Content-Type", "application/grpc").unwrap();
    caller.append("X-Grpc-Web", "0").unwrap();
    caller.append("x-user-agent", "someone-else").unwrap();
    caller.append("authorization", "Bearer abc").unwrap();
    let headers = client.request_headers(&caller).unwrap();
    assert_eq!(headers.len(), 4);
    assert_eq!(headers.get("Content-Type"), Some(&b"application/grpc-web-text+proto".to_vec()));
    assert_eq!(headers.get("x-grpc-web"), Some(&b"1".to_vec()));
    assert_eq!(headers.get("x-user-agent"), Some(&b"grpc-web-rust/0.1".to_vec()));
    assert_eq!(headers.get("authorization"), Some(&b"Bearer abc".to_vec()));
}

#[test]
fn request_headers_last_of_a_name_is_left() {
    let client = Client::new(String::new());
    let mut caller = HeaderSet::new();
    caller.append("accept", "one").unwrap();
    caller.append("other", "x").unwrap();
    caller.append("accept", "two").unwrap();
    let headers = client.request_headers(&caller).unwrap();
    assert_eq!(headers.len(), 5);
    assert_eq!(headers.get("accept"), Some(&b"two".to_vec()));
    assert_eq!(headers.name_at(0), &b"other".to_vec());
    assert_eq!(headers.name_at(1), &b"accept".to_vec());
}

#[test]
fn request_headers_refuse_a_value_that_is_no_visible_ascii() {
    let client = Client::new(String::new());
    let mut caller = HeaderSet::new();
    caller.append("x-name", "caf\u{e9}").unwrap();
    assert_eq!(client.request_headers(&caller).err(), Some(ClientError::HeaderToStrError));
}

#[test]
fn request_body_frames_each_message() {
    let client = Client::new(String::new());
    let messages = vec![b"hi".to_vec(), b"there".to_vec()];
    let body = client.request_body(&messages).unwrap();
    let mut expected = vec![0, 0, 0, 0, 2, b'h', b'i', 0, 0, 0, 0, 5];
    expected.extend_from_slice(b"there");
    assert_eq!(body, expected);
    assert_eq!(client.wrap_body(&expected), expected);
    let text = Client::new(String::new()).with_encoding(Encoding::Base64);
    assert_eq!(text.request_body(&messages).unwrap(), text.wrap_body(&expected));
    assert_eq!(text.wrap_body(b"foobar"), b"Zm9vYmFy".to_vec());
}

#[test]
fn header_set_lowers_names() {
    let mut set = HeaderSet::new();
    assert_eq!(set.append("Content-Type", "text/plain"), Ok(()));
    assert_eq!(set.len(), 1);
    assert_eq!(set.name_at(0), &b"content-type".to_vec());
    assert_eq!(set.value_at(0), &b"text/plain".to_vec());
    assert_eq!(set.get("CONTENT-TYPE"), Some(&b"text/plain".to_vec()));
    assert_eq!(set.get("content-length"), None);
}

#[test]
fn header_set_refuses_bad_names() {
    let mut set = HeaderSet::new();
    assert_eq!(set.append("", "x"), Err(ClientError::InvalidHeaderName));
    assert_eq!(set.append("a b", "x"), Err(ClientError::InvalidHeaderName));
    assert_eq!(set.append("a:b", "x"), Err(ClientError::InvalidHeaderName));
    assert_eq!(set.append("caf\u{e9}", "x"), Err(ClientError::InvalidHeaderName));
    assert_eq!(set.set("a(b", "x"), Err(ClientError::InvalidHeaderName));
    assert_eq!(set.append(&"a".repeat(65536), "x"), Err(ClientError::InvalidHeaderName));
    assert_eq!(set.len(), 0);
    assert_eq!(set.append(&"a".repeat(65535), "x"), Ok(()));
    assert_eq!(set.append("!#$%&'*+-.^_`|~09azAZ", "x"), Ok(()));
    assert_eq!(set.name_at(1), &b"!#$%&'*+-.^_`|~09azaz".to_vec());
}

#[test]
fn header_set_refuses_bad_values() {
    let mut set = HeaderSet::new();
    assert_eq!(set.append("x", "a\nb"), Err(ClientError::InvalidHeaderValue));
    assert_eq!(set.append("x", "a\u{7f}"), Err(ClientError::InvalidHeaderValue));
    assert_eq!(set.append("x", "\u{0}"), Err(ClientError::InvalidHeaderValue));
    assert_eq!(set.append("a b", "a\nb"), Err(ClientError::InvalidHeaderName));
    assert_eq!(set.len(), 0);
    assert_eq!(set.append("x", "a\tb caf\u{e9}"), Ok(()));
    assert_eq!(set.value_at(0), &"a\tb caf\u{e9}".as_bytes().to_vec());
    assert_eq!(set.append("x", ""), Ok(()));
}

#[test]
fn header_set_set_replaces_every_pair_of_the_name() {
    let mut set = HeaderSet::new();
    set.append("a", "1").unwrap();
    set.append("b", "2").unwrap();
    set.append("A", "3").unwrap();
    assert_eq!(set.get("a"), Some(&b"1".to_vec()));
    assert_eq!(set.set("a", "4"), Ok(()));
    assert_eq!(set.len(), 2);
    assert_eq!(set.name_at(0), &b"b".to_vec());
    assert_eq!(set.name_at(1), &b"a".to_vec());
    assert_eq!(set.get("a"), Some(&b"4".to_vec()));
}

#[test]
fn status_codes_are_checked() {
    assert_eq!(checked_status(99), None);
    assert_eq!(checked_status(100), Some(100));
    assert_eq!(checked_status(200), Some(200));
    assert_eq!(checked_status(999), Some(999));
    assert_eq!(checked_status(1000), None);
    assert_eq!(checked_status(0), None);
}

#[test]
fn response_head_copies_headers_and_picks_the_encoding() {
    let head = ResponseHead::new(
        200,
        &pairs(&[("Content-Type", "application/grpc-web-text+proto"), ("Date", "today")]),
    )
    .unwrap();
    assert_eq!(head.status, 200);
    assert_eq!(head.encoding, Encoding::Base64);
    assert_eq!(head.headers.len(), 2);
    assert_eq!(head.headers.name_at(0), &b"content-type".to_vec());
    assert_eq!(head.headers.get("date"), Some(&b"today".to_vec()));
    assert_eq!(head.body().encoding(), Encoding::Base64);
}

#[test]
fn response_head_defaults_to_no_text_encoding() {
    let head = ResponseHead::new(200, &pairs(&[])).unwrap();
    assert_eq!(head.encoding, Encoding::Identity);
    let head = ResponseHead::new(200, &pairs(&[("content-type", "application/grpc-web+proto")]))
        .unwrap();
    assert_eq!(head.encoding, Encoding::Identity);
    let head = ResponseHead::new(200, &pairs(&[("content-type", "text/html")])).unwrap();
    assert_eq!(head.encoding, Encoding::Identity);
    let head = ResponseHead::new(404, &pairs(&[("content-type", "application/grpc-web-text")]))
        .unwrap();
    assert_eq!(head.encoding, Encoding::Base64);
    assert_eq!(head.status, 404);
}

#[test]
fn response_head_first_content_type_decides() {
    let head = ResponseHead::new(
        200,
        &pairs(&[
            ("content-type", "application/grpc-web-text"),
            ("content-type", "application/grpc-web"),
        ]),
    )
    .unwrap();
    assert_eq!(head.encoding, Encoding::Base64);
    assert_eq!(head.headers.len(), 2);
}

#[test]
fn response_head_refuses_a_bad_status() {
    let bad = ResponseHead::new(0, &pairs(&[("bad name", "x")]));
    assert_eq!(
        bad.err(),
        Some(ClientError::UnexpectedOptionNone(Missing::ResponseBuilderHeaders))
    );
    assert_eq!(
        ResponseHead::new(1000, &pairs(&[])).err(),
        Some(ClientError::UnexpectedOptionNone(Missing::ResponseBuilderHeaders))
    );
}

#[test]
fn response_head_refuses_the_first_bad_pair() {
    assert_eq!(
        ResponseHead::new(200, &pairs(&[("ok", "fine"), ("bad name", "a\nb"), ("x", "\n")])).err(),
        Some(ClientError::InvalidHeaderName)
    );
    assert_eq!(
        ResponseHead::new(200, &pairs(&[("ok", "a\nb"), ("bad name", "x")])).err(),
        Some(ClientError::InvalidHeaderValue)
    );
}

#[test]
fn content_types_of_the_encodings() {
    assert_eq!(Encoding::Identity.to_content_type(), "application/grpc-web+proto");
    assert_eq!(Encoding::Base64.to_content_type(), "application/grpc-web-text+proto");
    assert_eq!(Encoding::from_content_type(None), Encoding::Identity);
    assert_eq!(
        Encoding::from_content_type(Some(b"application/grpc-web-text")),
        Encoding::Base64
    );
    assert_eq!(
        Encoding::from_content_type(Some(b"application/grpc-web-text+proto")),
        Encoding::Base64
    );
    assert_eq!(
        Encoding::from_content_type(Some(b"application/grpc-web-text+thrift")),
        Encoding::Identity
    );
    assert_eq!(
        Encoding::from_content_type(Some(b"Application/grpc-web-text")),
        Encoding::Identity
    );
    assert_eq!(Encoding::from_content_type(Some(b"application/grpc-web")), Encoding::Identity);
    assert_eq!(Encoding::from_content_type(Some(b"")), Encoding::Identity);
}

#[test]
fn whole_exchange_in_plain_values() {
    let client = Client::new("https://api.test".to_string()).with_encoding(Encoding::Base64);
    let body = client.request_body(&vec![b"ping".to_vec()]).unwrap();
    assert_eq!(body, b"AAAAAARwaW5n".to_vec());
    let head =
        ResponseHead::new(200, &pairs(&[("content-type", "application/grpc-web-text+proto")]))
            .unwrap();
    let mut trailers = grpc_web_client::trailers::Metadata::new();
    trailers.push(b"grpc-status".to_vec(), b"0".to_vec());
    let response =
        grpc_web_client::body::encode_body(head.encoding, &vec![b"pong".to_vec()], Some(&trailers))
            .unwrap();
    let (messages, back) = decode_body(head.encoding, &response).unwrap();
    assert_eq!(messages, vec![b"pong".to_vec()]);
    assert_eq!(back.get(b"grpc-status"), Some(&b"0".to_vec()));
}

#[test]
fn error_messages() {
    assert_eq!(ClientError::MissingTrailers.message(), "stream ended without trailer");
    assert_eq!(
        ClientError::HttpIncompleteParseError.message(),
        "Could not parse the complete HTTP headers"
    );
    assert_eq!(
        ClientError::UnexpectedOptionNone(Missing::Window).message(),
        "Could not get window"
    );
    assert_eq!(
        ClientError::UnexpectedOptionNone(Missing::ResponseBody).message(),
        "Fetch response has no body"
    );
    assert_eq!(Missing::HeaderName.message(), "Header name is not a string");
    assert_eq!(ClientError::InvalidHeaderName.message(), "invalid HTTP header name");
    assert_eq!(ClientError::InvalidHeaderValue.message(), "failed to parse header value");
    assert_eq!(ClientError::HeaderToStrError.message(), "failed to convert header to a str");
    assert_ne!(ClientError::FrameDecode.message(), ClientError::UnexpectedEof.message());
    assert_ne!(ClientError::Encoding.message(), ClientError::Transport.message());
}

#[test]
fn header_set_takes_opaque_values() {
    let mut set = HeaderSet::new();
    assert_eq!(set.append_opaque("X-Bin", &[0xff, 0x80, b'a']), Ok(()));
    assert_eq!(set.name_at(0), &b"x-bin".to_vec());
    assert_eq!(set.value_at(0), &vec![0xff, 0x80, b'a']);
    assert_eq!(set.append_opaque("x-bin", &[b'a', 0x7f]), Err(ClientError::InvalidHeaderValue));
    assert_eq!(set.append_opaque("x bin", &[b'a']), Err(ClientError::InvalidHeaderName));
    assert_eq!(set.len(), 1);
    let client = Client::new(String::new());
    assert_eq!(client.request_headers(&set).err(), Some(ClientError::HeaderToStrError));
}

#[test]
fn header_names_follow_the_table_of_http() {
    let mut set = HeaderSet::new();
    assert_eq!(set.append("a\"b", "x"), Ok(()));
    for bad in ["a(b", "a)b", "a,b", "a/b", "a;b", "a<b", "a=b", "a>b", "a?b", "a@b", "a[b", "a\\b", "a]b", "a{b", "a}b", "a\u{7f}b", "a\tb"] {
        assert_eq!(set.append(bad, "x"), Err(ClientError::InvalidHeaderName), "{}", bad);
    }
    assert_eq!(set.len(), 1);
}

#[test]
fn client_clone_keeps_everything() {
    let client = Client::new("http://h".to_string()).with_encoding(Encoding::Base64);
    let copy = client.clone();
    assert_eq!(copy.encoding(), Encoding::Base64);
    assert_eq!(copy.request_uri("/p"), "http://h/p");
}

#[test]
fn request_puts_the_call_together() {
    let client = Client::new("http://127.0.0.1:8080".to_string()).with_encoding(Encoding::Base64);
    let mut caller = HeaderSet::new();
    caller.append("te", "trailers").unwrap();
    let request = client.request("/echo.Echo/UnaryEcho", &caller, b"foobar").unwrap();
    assert_eq!(request.uri, "http://127.0.0.1:8080/echo.Echo/UnaryEcho");
    assert_eq!(request.init.method, "POST");
    assert_eq!(request.init.mode, RequestMode::Cors);
    assert_eq!(request.init.credentials, CredentialsMode::SameOrigin);
    assert_eq!(request.body, b"Zm9vYmFy".to_vec());
    assert_eq!(request.headers.len(), 4);
    assert_eq!(
        request.headers.get("content-type"),
        Some(&b"application/grpc-web-text+proto".to_vec())
    );
    assert_eq!(request.headers.get("x-grpc-web"), Some(&b"1".to_vec()));
}

#[test]
fn request_stops_before_anything_is_sent() {
    let client = Client::new(String::new());
    let mut caller = HeaderSet::new();
    caller.append_opaque("x-bin", &[0xc3]).unwrap();
    assert_eq!(client.request("/p", &caller, b"").err(), Some(ClientError::HeaderToStrError));
}
