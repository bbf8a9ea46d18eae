//! Error type.

use vstd::prelude::*;
use vstd::string::to_string_from_display_ensures;

use tokio_tungstenite::tungstenite;
use tokio_tungstenite::tungstenite::Error as WsError;

verus! {

#[verifier::external_type_specification]
#[verifier::external_body]
pub struct ExIoError(std::io::Error);

#[verifier::external_type_specification]
#[verifier::external_body]
pub struct ExWebSocketError(WsError);

/// Result alias used throughout the crate.
pub type Result<T> = std::result::Result<T, Error>;

/// Something went wrong starting or running the server.
#[derive(Debug)]
#[non_exhaustive]
pub enum Error {
    /// The listener could not be bound or accepted a connection badly.
    Io(std::io::Error),
    /// The WebSocket handshake or transport failed.
    WebSocket(Box<tungstenite::Error>),
    /// The client sent something that is not this protocol.
    Protocol(String),
    /// The token did not validate. The message is sent to the client, so keep it short
    /// and free of secrets.
    Unauthenticated(String),
    /// The configuration cannot run: a queue of no frames, or a heartbeat every zero
    /// seconds.
    Config(String),
}

/// `text` is `e` as text: a prefix naming the kind, then the detail; for an outside
/// error, the detail is that error's own `Display` text.
pub open spec fn describes(e: &Error, text: Seq<char>) -> bool {
    match e {
        Error::Protocol(s) => text == "protocol: "@ + s@,
        Error::Unauthenticated(s) => text == "unauthenticated: "@ + s@,
        Error::Config(s) => text == "config: "@ + s@,
        Error::Io(e) => exists|detail: String|
            to_string_from_display_ensures::<std::io::Error>(e, detail) && text == "io: "@
                + detail@,
        Error::WebSocket(e) => exists|detail: String|
            to_string_from_display_ensures::<tungstenite::Error>(&**e, detail) && text
                == "websocket: "@ + detail@,
    }
}

impl Error {
    /// The error as text, as [`describes`] says.
    pub fn to_string(&self) -> (text: String)
        ensures
            describes(self, text@),
    {
        match self {
            Error::Io(e) => {
                let mut t = String::from_str("io: ");
                let detail = e.to_string();
                t.append(detail.as_str());
                t
            },
            Error::WebSocket(e) => {
                let mut t = String::from_str("websocket: ");
                let inner: &tungstenite::Error = &**e;
                let detail = inner.to_string();
                t.append(detail.as_str());
                t
            },
            Error::Protocol(s) => {
                let mut t = String::from_str("protocol: ");
                t.append(s.as_str());
                t
            },
            Error::Unauthenticated(s) => {
                let mut t = String::from_str("unauthenticated: ");
                t.append(s.as_str());
                t
            },
            Error::Config(s) => {
                let mut t = String::from_str("config: ");
                t.append(s.as_str());
                t
            },
        }
    }
}

impl From<tungstenite::Error> for Error {
    fn from(e: tungstenite::Error) -> (r: Error)
        ensures
            r == Error::WebSocket(Box::new(e)),
    {
        Error::WebSocket(Box::new(e))
    }
}

impl vstd::std_specs::convert::FromSpecImpl<tungstenite::Error> for Error {
    open spec fn obeys_from_spec() -> bool {
        true
    }

    open spec fn from_spec(e: tungstenite::Error) -> Error {
        Error::WebSocket(Box::new(e))
    }
}

impl From<std::io::Error> for Error {
    fn from(e: std::io::Error) -> (r: Error)
        ensures
            r == Error::Io(e),
    {
        Error::Io(e)
    }
}

impl vstd::std_specs::convert::FromSpecImpl<std::io::Error> for Error {
    open spec fn obeys_from_spec() -> bool {
        true
    }

    open spec fn from_spec(e: std::io::Error) -> Error {
        Error::Io(e)
    }
}

} // verus!
