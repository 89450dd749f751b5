//! A gRPC-Web client core: the length-prefixed frame codec, the base64 text
//! filter, the trailer block parser, the body adapter that turns one
//! chunked byte stream into messages and trailers, and what a transport
//! client sends and accepts around them.

pub mod base64;
pub mod body;
pub mod client;
pub mod encoding;
pub mod errors;
pub mod frame;
pub mod headers;
pub mod server;
pub mod trailers;

pub use client::{Client, CredentialsMode, RequestMode};
pub use encoding::Encoding;
pub use errors::ClientError;
pub use server::{MyEcho, MyGreeter};
