//! The transport client: what one call sends, and what it makes of the
//! head of the response. The fetch itself is the host's.

use vstd::prelude::*;
use vstd::string::StringExecFns;
use vstd::utf8::encode_utf8;
use crate::body::{body_bytes, body_fits, byte_views, encode_body, start, wire, BodyAdapter};
use crate::base64::encode as base64_encode;
use crate::encoding::{declares_base64, Encoding};
use crate::errors::{ClientError, Missing};
use crate::headers::{
    checked_status, first_value, is_header_name, is_header_value, is_status, is_visible,
    is_visible_byte, lemma_with_set, with_set, without, HeaderSet,
};
use crate::trailers::{lower_seq, EntryView};

verus! {

/// Which credentials the host sends with the request.
#[derive(Clone, Copy, Debug, PartialEq, Eq, Structural)]
pub enum CredentialsMode {
    Omit,
    SameOrigin,
    Include,
}

/// How the host treats a request to another origin.
#[derive(Clone, Copy, Debug, PartialEq, Eq, Structural)]
pub enum RequestMode {
    SameOrigin,
    NoCors,
    Cors,
    Navigate,
}

/// What the host is told about a request besides its headers and body.
#[derive(Clone, Copy, Debug)]
pub struct FetchInit {
    pub method: &'static str,
    pub mode: RequestMode,
    pub credentials: CredentialsMode,
}

/// One request as the host is to send it.
#[derive(Debug)]
pub struct FetchRequest {
    pub uri: String,
    pub init: FetchInit,
    pub headers: HeaderSet,
    pub body: Vec<u8>,
}

/// A client for one service endpoint.
#[derive(Debug)]
pub struct Client {
    base_uri: String,
    credentials: CredentialsMode,
    mode: RequestMode,
    encoding: Encoding,
}

/// The mathematical content of a [`Client`].
pub ghost struct ClientView {
    pub base_uri: Seq<char>,
    pub credentials: CredentialsMode,
    pub mode: RequestMode,
    pub encoding: Encoding,
}

impl Clone for Client {
    fn clone(&self) -> (client: Self)
        ensures
            client@ == self@,
    {
        Client {
            base_uri: self.base_uri.clone(),
            credentials: self.credentials,
            mode: self.mode,
            encoding: self.encoding,
        }
    }
}

impl View for Client {
    type V = ClientView;

    closed spec fn view(&self) -> ClientView {
        ClientView {
            base_uri: self.base_uri@,
            credentials: self.credentials,
            mode: self.mode,
            encoding: self.encoding,
        }
    }
}

/// The head of a response: its status, its headers, and the encoding that
/// its content type declares for the body.
#[derive(Debug)]
pub struct ResponseHead {
    pub status: u16,
    pub headers: HeaderSet,
    pub encoding: Encoding,
}

/// The characters of the content type for `encoding`.
pub open spec fn content_type(encoding: Encoding) -> Seq<char> {
    match encoding {
        Encoding::Base64 => "application/grpc-web-text+proto"@,
        Encoding::Identity => "application/grpc-web+proto"@,
    }
}

/// The caller's headers as the host holds them once each was set in turn:
/// of several pairs with one name the last is left.
pub open spec fn merged(caller: Seq<EntryView>) -> Seq<EntryView>
    decreases caller.len(),
{
    if caller.len() == 0 {
        Seq::empty()
    } else {
        without(merged(caller.drop_last()), caller.last().0).push(caller.last())
    }
}

/// `es` with the three headers that the protocol asks for set behind them,
/// so that they replace what the caller gave under these names.
pub open spec fn with_protocol_headers(es: Seq<EntryView>, encoding: Encoding) -> Seq<EntryView> {
    with_set(
        with_set(
            with_set(es, encode_utf8("x-user-agent"@), encode_utf8("grpc-web-rust/0.1"@)),
            encode_utf8("x-grpc-web"@),
            encode_utf8("1"@),
        ),
        encode_utf8("content-type"@),
        encode_utf8(content_type(encoding)),
    )
}

/// Whether every value of `es` is visible ASCII.
pub open spec fn all_visible(es: Seq<EntryView>) -> bool {
    forall|i: int| 0 <= i < es.len() ==> is_visible((#[trigger] es[i]).1)
}

/// The header pairs of a response, checked in order: the first name that is
/// no header name, or the first value that is no header value, is the
/// error; else the pairs with their names in lower case.
pub open spec fn collected(pairs: Seq<EntryView>) -> Result<Seq<EntryView>, ClientError>
    decreases pairs.len(),
{
    if pairs.len() == 0 {
        Ok(Seq::empty())
    } else {
        match collected(pairs.drop_last()) {
            Err(e) => Err(e),
            Ok(es) => if !is_header_name(pairs.last().0) {
                Err(ClientError::InvalidHeaderName)
            } else if !is_header_value(pairs.last().1) {
                Err(ClientError::InvalidHeaderValue)
            } else {
                Ok(es.push((lower_seq(pairs.last().0), pairs.last().1)))
            },
        }
    }
}

/// The encoding that the content type among `headers` declares.
pub open spec fn declared_encoding(headers: Seq<EntryView>) -> Encoding {
    match first_value(headers, lower_seq(encode_utf8("content-type"@))) {
        Some(value) => if declares_base64(value) {
            Encoding::Base64
        } else {
            Encoding::Identity
        },
        None => Encoding::Identity,
    }
}

/// The bytes of pairs of strings.
pub open spec fn string_pairs(pairs: Seq<(String, String)>) -> Seq<EntryView> {
    Seq::new(pairs.len(), |i: int| (encode_utf8(pairs[i].0@), encode_utf8(pairs[i].1@)))
}

/// An error among the first pairs is the error of them all.
pub proof fn lemma_collected_prefix(pairs: Seq<EntryView>, k: int)
    requires
        0 <= k <= pairs.len(),
        collected(pairs.take(k)) is Err,
    ensures
        collected(pairs) == collected(pairs.take(k)),
    decreases pairs.len() - k,
{
    if k < pairs.len() {
        assert(pairs.take(k + 1).drop_last() == pairs.take(k));
        lemma_collected_prefix(pairs, k + 1);
    } else {
        assert(pairs.take(k) == pairs);
    }
}

/// The bytes of the names and values that the protocol asks for.
proof fn lemma_protocol_strings()
    ensures
        is_header_name(encode_utf8("x-user-agent"@)),
        is_header_name(encode_utf8("x-grpc-web"@)),
        is_header_name(encode_utf8("content-type"@)),
        is_header_value(encode_utf8("grpc-web-rust/0.1"@)),
        is_header_value(encode_utf8("1"@)),
        is_header_value(encode_utf8("application/grpc-web-text+proto"@)),
        is_header_value(encode_utf8("application/grpc-web+proto"@)),
        lower_seq(encode_utf8("x-user-agent"@)) == encode_utf8("x-user-agent"@),
        lower_seq(encode_utf8("x-grpc-web"@)) == encode_utf8("x-grpc-web"@),
        lower_seq(encode_utf8("content-type"@)) == encode_utf8("content-type"@),
        encode_utf8("x-user-agent"@) != encode_utf8("x-grpc-web"@),
        encode_utf8("x-user-agent"@) != encode_utf8("content-type"@),
        encode_utf8("x-grpc-web"@) != encode_utf8("content-type"@),
{
    reveal_strlit("x-user-agent");
    reveal_strlit("x-grpc-web");
    reveal_strlit("content-type");
    reveal_strlit("grpc-web-rust/0.1");
    reveal_strlit("1");
    reveal_strlit("application/grpc-web-text+proto");
    reveal_strlit("application/grpc-web+proto");
    vstd::utf8::is_ascii_chars_encode_utf8("x-user-agent"@);
    vstd::utf8::is_ascii_chars_encode_utf8("x-grpc-web"@);
    vstd::utf8::is_ascii_chars_encode_utf8("content-type"@);
    vstd::utf8::is_ascii_chars_encode_utf8("grpc-web-rust/0.1"@);
    vstd::utf8::is_ascii_chars_encode_utf8("1"@);
    vstd::utf8::is_ascii_chars_encode_utf8("application/grpc-web-text+proto"@);
    vstd::utf8::is_ascii_chars_encode_utf8("application/grpc-web+proto"@);
    assert(lower_seq(encode_utf8("x-user-agent"@)) =~= encode_utf8("x-user-agent"@));
    assert(lower_seq(encode_utf8("x-grpc-web"@)) =~= encode_utf8("x-grpc-web"@));
    assert(lower_seq(encode_utf8("content-type"@)) =~= encode_utf8("content-type"@));
    assert(encode_utf8("x-user-agent"@)[0] != encode_utf8("content-type"@)[0]);
    assert(encode_utf8("x-grpc-web"@)[0] != encode_utf8("content-type"@)[0]);
}

/// The protocol's headers win: whatever the caller gave under these three
/// names, the request carries the protocol's values.
pub proof fn lemma_protocol_headers_win(es: Seq<EntryView>, encoding: Encoding)
    ensures
        first_value(with_protocol_headers(es, encoding), encode_utf8("x-user-agent"@)) == Some(
            encode_utf8("grpc-web-rust/0.1"@),
        ),
        first_value(with_protocol_headers(es, encoding), encode_utf8("x-grpc-web"@)) == Some(
            encode_utf8("1"@),
        ),
        first_value(with_protocol_headers(es, encoding), encode_utf8("content-type"@)) == Some(
            encode_utf8(content_type(encoding)),
        ),
{
    lemma_protocol_strings();
    let agent = encode_utf8("x-user-agent"@);
    let marker = encode_utf8("x-grpc-web"@);
    let ctype = encode_utf8("content-type"@);
    let e1 = with_set(es, agent, encode_utf8("grpc-web-rust/0.1"@));
    let e2 = with_set(e1, marker, encode_utf8("1"@));
    lemma_with_set(es, agent, encode_utf8("grpc-web-rust/0.1"@), agent);
    lemma_with_set(e1, marker, encode_utf8("1"@), agent);
    lemma_with_set(e2, ctype, encode_utf8(content_type(encoding)), agent);
    lemma_with_set(e2, ctype, encode_utf8(content_type(encoding)), marker);
}

/// Whether every byte of `value` is visible ASCII.
fn is_visible_bytes(value: &[u8]) -> (visible: bool)
    ensures
        visible == is_visible(value@),
{
    let mut i: usize = 0;
    while i < value.len()
        invariant
            i <= value.len(),
            forall|j: int| 0 <= j < i ==> is_visible_byte(#[trigger] value@[j]),
        decreases value.len() - i,
    {
        let c: u8 = value[i];
        if !(c >= 32 && c < 127 || c == 9) {
            return false;
        }
        i = i + 1;
    }
    true
}

impl Client {
    /// A client for the service at `base_uri`, with the host's defaults:
    /// credentials for the same origin only, cross-origin requests allowed,
    /// and a body that is not text encoded.
    pub fn new(base_uri: String) -> (client: Self)
        ensures
            client@ == (ClientView {
                base_uri: base_uri@,
                credentials: CredentialsMode::SameOrigin,
                mode: RequestMode::Cors,
                encoding: Encoding::Identity,
            }),
    {
        Client {
            base_uri,
            credentials: CredentialsMode::SameOrigin,
            mode: RequestMode::Cors,
            encoding: Encoding::Identity,
        }
    }

    /// The same client with another encoding for its bodies.
    pub fn with_encoding(self, encoding: Encoding) -> (client: Self)
        ensures
            client@ == (ClientView { encoding, ..self@ }),
    {
        Client {
            base_uri: self.base_uri,
            credentials: self.credentials,
            mode: self.mode,
            encoding,
        }
    }

    /// The encoding of the bodies this client sends.
    pub fn encoding(&self) -> (encoding: Encoding)
        ensures
            encoding == self@.encoding,
    {
        self.encoding
    }

    /// The address of a call: the base address with the call's path behind it.
    pub fn request_uri(&self, path: &str) -> (uri: String)
        ensures
            uri@ == self@.base_uri + path@,
    {
        let mut uri: String = self.base_uri.clone();
        uri.append(path);
        uri
    }

    /// What the host is told about the request: it is a POST, with this
    /// client's mode and credentials.
    pub fn post_init(&self) -> (init: FetchInit)
        ensures
            init.method@ == "POST"@,
            init.mode == self@.mode,
            init.credentials == self@.credentials,
    {
        FetchInit { method: "POST", mode: self.mode, credentials: self.credentials }
    }

    /// The headers of the request: the caller's, each set in turn, and then
    /// the protocol's own, which replace the caller's where the names meet.
    /// A caller's value that is not visible ASCII stops the call.
    pub fn request_headers(&self, caller: &HeaderSet) -> (out: Result<HeaderSet, ClientError>)
        ensures
            match out {
                Ok(headers) => all_visible(caller@) && headers@ == with_protocol_headers(
                    merged(caller@),
                    self@.encoding,
                ) && (caller.wf() ==> headers.wf()),
                Err(e) => e == ClientError::HeaderToStrError && !all_visible(caller@),
            },
    {
        let mut headers = HeaderSet::new();
        let mut i: usize = 0;
        assert(caller@.take(0) == Seq::<EntryView>::empty());
        while i < caller.len()
            invariant
                i <= caller@.len(),
                headers@ == merged(caller@.take(i as int)),
                all_visible(caller@.take(i as int)),
                caller.wf() ==> headers.wf(),
            decreases caller@.len() - i,
        {
            let ghost upto = caller@.take(i + 1);
            assert(upto.drop_last() == caller@.take(i as int));
            assert(upto.last() == caller@[i as int]);
            let value: &Vec<u8> = caller.value_at(i);
            if !is_visible_bytes(value.as_slice()) {
                return Err(ClientError::HeaderToStrError);
            }
            headers.replace(caller.name_at(i).clone(), value.clone());
            assert forall|j: int| 0 <= j < upto.len() implies is_visible((#[trigger] upto[j]).1) by {
                if j < i {
                    assert(caller@.take(i as int)[j] == upto[j]);
                }
            }
            i = i + 1;
        }
        assert(caller@.take(caller@.len() as int) == caller@);
        proof {
            lemma_protocol_strings();
        }
        match headers.set("x-user-agent", "grpc-web-rust/0.1") {
            Ok(_) => {},
            Err(e) => { return Err(e); },
        }
        match headers.set("x-grpc-web", "1") {
            Ok(_) => {},
            Err(e) => { return Err(e); },
        }
        match headers.set("content-type", self.encoding.to_content_type()) {
            Ok(_) => {},
            Err(e) => { return Err(e); },
        }
        Ok(headers)
    }

    /// Everything the host needs to send one call: the address, the
    /// request's kind, the headers and the body. `framed` holds the caller's
    /// messages, each in its frame. Nothing is sent where a header of the
    /// caller's cannot be sent as text.
    pub fn request(&self, path: &str, caller: &HeaderSet, framed: &[u8]) -> (out: Result<
        FetchRequest,
        ClientError,
    >)
        ensures
            match out {
                Ok(request) => all_visible(caller@) && request.uri@ == self@.base_uri + path@
                    && request.init.method@ == "POST"@ && request.init.mode == self@.mode
                    && request.init.credentials == self@.credentials && request.headers@
                    == with_protocol_headers(merged(caller@), self@.encoding) && request.body@
                    == wire(self@.encoding, framed@) && (caller.wf() ==> request.headers.wf()),
                Err(e) => e == ClientError::HeaderToStrError && !all_visible(caller@),
            },
    {
        let headers: HeaderSet = match self.request_headers(caller) {
            Ok(headers) => headers,
            Err(e) => { return Err(e); },
        };
        Ok(
            FetchRequest {
                uri: self.request_uri(path),
                init: self.post_init(),
                headers,
                body: self.wrap_body(framed),
            },
        )
    }

    /// The body of the request: one data frame for each message, in this
    /// client's encoding. A message too long for a frame is refused.
    pub fn request_body(&self, messages: &Vec<Vec<u8>>) -> (out: Result<Vec<u8>, ClientError>)
        ensures
            match out {
                Ok(body) => body_fits(byte_views(messages@), None) && body@ == body_bytes(
                    self@.encoding,
                    byte_views(messages@),
                    None,
                ),
                Err(e) => e == ClientError::TryFromIntError && !body_fits(
                    byte_views(messages@),
                    None,
                ),
            },
    {
        encode_body(self.encoding, messages, None)
    }

    /// The body of the request where the caller's messages stand in frames
    /// already: the frames in this client's encoding.
    pub fn wrap_body(&self, framed: &[u8]) -> (body: Vec<u8>)
        ensures
            body@ == wire(self@.encoding, framed@),
    {
        match self.encoding {
            Encoding::Identity => vstd::slice::slice_to_vec(framed),
            Encoding::Base64 => base64_encode(framed),
        }
    }
}

impl ResponseHead {
    /// Makes the head of a response from what the host hands over. A status
    /// that is no status code leaves no response to put headers in; then the
    /// first pair whose name, or else whose value, could not stand in an
    /// HTTP message stops the call. The encoding is the one that the
    /// response's content type declares.
    pub fn new(status: u16, pairs: &Vec<(String, String)>) -> (out: Result<Self, ClientError>)
        ensures
            match out {
                Ok(head) => is_status(status) && head.status == status && collected(
                    string_pairs(pairs@),
                ) == Ok::<Seq<EntryView>, ClientError>(head.headers@) && head.encoding
                    == declared_encoding(head.headers@) && head.headers.wf(),
                Err(e) => if !is_status(status) {
                    e == ClientError::UnexpectedOptionNone(Missing::ResponseBuilderHeaders)
                } else {
                    collected(string_pairs(pairs@)) == Err::<Seq<EntryView>, ClientError>(e)
                },
            },
    {
        let code: u16 = match checked_status(status) {
            Some(code) => code,
            None => {
                return Err(ClientError::UnexpectedOptionNone(Missing::ResponseBuilderHeaders));
            },
        };
        let ghost sp = string_pairs(pairs@);
        let mut headers = HeaderSet::new();
        let mut i: usize = 0;
        assert(sp.take(0) == Seq::<EntryView>::empty());
        while i < pairs.len()
            invariant
                i <= pairs.len(),
                is_status(status),
                sp == string_pairs(pairs@),
                collected(sp.take(i as int)) == Ok::<Seq<EntryView>, ClientError>(headers@),
                headers.wf(),
            decreases pairs.len() - i,
        {
            let ghost upto = sp.take(i + 1);
            assert(upto.drop_last() == sp.take(i as int));
            assert(upto.last() == sp[i as int]);
            let name: &str = pairs[i].0.as_str();
            let value: &str = pairs[i].1.as_str();
            assert(sp[i as int] == (encode_utf8(name@), encode_utf8(value@)));
            match headers.append(name, value) {
                Ok(_) => {},
                Err(e) => {
                    proof {
                        assert(collected(upto) == Err::<Seq<EntryView>, ClientError>(e));
                        lemma_collected_prefix(sp, i + 1);
                    }
                    return Err(e);
                },
            }
            i = i + 1;
        }
        assert(sp.take(pairs.len() as int) == sp);
        let encoding: Encoding = match headers.get("content-type") {
            Some(value) => Encoding::from_content_type(Some(value.as_slice())),
            None => Encoding::Identity,
        };
        Ok(ResponseHead { status: code, headers, encoding })
    }

    /// The adapter for the body of this response, before its first chunk.
    pub fn body(&self) -> (adapter: BodyAdapter)
        ensures
            adapter@ == start(self.encoding),
    {
        BodyAdapter::new(self.encoding)
    }
}

} // verus!
