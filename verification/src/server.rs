//! What the reference services answer: a greeter and an echo.

use vstd::prelude::*;
use vstd::string::StringExecFns;

verus! {

/// How long the echo service waits between the two replies of a stream, in
/// milliseconds.
pub const STREAM_PAUSE_MILLIS: u64 = 1000;

/// The greeter service.
#[derive(Default)]
pub struct MyGreeter {}

/// The echo service.
#[derive(Default)]
pub struct MyEcho;

/// One step of a streamed answer.
#[derive(Debug)]
pub enum EchoStep {
    /// Send this message.
    Send(String),
    /// Wait this long.
    Pause { millis: u64 },
}

/// A call that the service does not offer.
#[derive(Clone, Copy, Debug, PartialEq, Eq, Structural)]
pub enum Unimplemented {
    ClientStreaming,
    BidirectionalStreaming,
}

impl Unimplemented {
    /// The text sent with the refusal.
    pub fn message(&self) -> (text: &'static str)
        ensures
            text@ == "Not yet implemented"@,
    {
        "Not yet implemented"
    }
}

impl MyGreeter {
    /// The greeting for `name`.
    pub fn say_hello(&self, name: &str) -> (message: String)
        ensures
            message@ == "Hello "@ + name@ + "!"@,
    {
        let mut message: String = String::from_str("Hello ");
        message.append(name);
        message.append("!");
        message
    }
}

impl MyEcho {
    /// The answer to a single message: the message itself.
    pub fn unary_echo(&self, message: String) -> (reply: String)
        ensures
            reply@ == message@,
    {
        message
    }

    /// The answer to a message on a stream: the message, a pause, and the
    /// message once more.
    pub fn server_streaming_echo(&self, message: &str) -> (steps: Vec<EchoStep>)
        ensures
            steps@.len() == 3,
            steps@[0] matches EchoStep::Send(first) && first@ == message@,
            steps@[1] == (EchoStep::Pause { millis: STREAM_PAUSE_MILLIS }),
            steps@[2] matches EchoStep::Send(second) && second@ == message@,
    {
        let mut steps: Vec<EchoStep> = Vec::new();
        steps.push(EchoStep::Send(String::from_str(message)));
        steps.push(EchoStep::Pause { millis: STREAM_PAUSE_MILLIS });
        steps.push(EchoStep::Send(String::from_str(message)));
        steps
    }

    /// A stream of messages from the client is not offered.
    pub fn client_streaming_echo(&self) -> (out: Result<String, Unimplemented>)
        ensures
            out == Err::<String, Unimplemented>(Unimplemented::ClientStreaming),
    {
        Err(Unimplemented::ClientStreaming)
    }

    /// Streams in both directions are not offered.
    pub fn bidirectional_streaming_echo(&self) -> (out: Result<Vec<EchoStep>, Unimplemented>)
        ensures
            out == Err::<Vec<EchoStep>, Unimplemented>(Unimplemented::BidirectionalStreaming),
    {
        Err(Unimplemented::BidirectionalStreaming)
    }
}

} // verus!
