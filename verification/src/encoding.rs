//! The text encoding of a body, chosen once for a call and named in its
//! content type.

use vstd::prelude::*;
use crate::trailers::bytes_eq;

verus! {

/// How the frames of a body are wrapped on the wire.
#[derive(Clone, Copy, Debug, PartialEq, Eq, Structural)]
pub enum Encoding {
    /// As base64 text.
    Base64,
    /// As they are: bytes pass through unchanged.
    Identity,
}

/// The bytes of a string of ASCII characters.
pub open spec fn ascii(s: Seq<char>) -> Seq<u8> {
    Seq::new(s.len(), |i: int| s[i] as u8)
}

/// Whether `value` is a content type that declares a base64 body.
pub open spec fn declares_base64(value: Seq<u8>) -> bool {
    value == ascii("application/grpc-web-text+proto"@) || value == ascii(
        "application/grpc-web-text"@,
    )
}

impl Encoding {
    /// The content type that declares this encoding.
    pub fn to_content_type(self) -> (content_type: &'static str)
        ensures
            content_type@ == match self {
                Encoding::Base64 => "application/grpc-web-text+proto"@,
                Encoding::Identity => "application/grpc-web+proto"@,
            },
    {
        match self {
            Encoding::Base64 => "application/grpc-web-text+proto",
            Encoding::Identity => "application/grpc-web+proto",
        }
    }

    /// The encoding that a content type declares: base64 for the two text
    /// content types, identity where the header is absent or says anything else.
    pub fn from_content_type(value: Option<&[u8]>) -> (encoding: Encoding)
        ensures
            encoding == if value is Some && declares_base64(value->Some_0@) {
                Encoding::Base64
            } else {
                Encoding::Identity
            },
    {
        match value {
            Some(bytes) => {
                let text_proto: &'static str = "application/grpc-web-text+proto";
                let text: &'static str = "application/grpc-web-text";
                proof {
                    reveal_strlit("application/grpc-web-text+proto");
                    reveal_strlit("application/grpc-web-text");
                    vstd::string::is_ascii_spec_bytes(text_proto);
                    vstd::string::is_ascii_spec_bytes(text);
                    assert(vstd::string::is_ascii(text_proto));
                    assert(vstd::string::is_ascii(text));
                }
                if bytes_eq(bytes, text_proto.as_bytes()) || bytes_eq(bytes, text.as_bytes()) {
                    Encoding::Base64
                } else {
                    Encoding::Identity
                }
            },
            None => Encoding::Identity,
        }
    }
}

} // verus!
