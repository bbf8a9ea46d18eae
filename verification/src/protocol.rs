//! The wire protocol: JSON text frames, tagged by `type`.
//!
//! Channels are opaque strings chosen by the application. Payloads are opaque JSON: the
//! server embeds whatever the publisher hands it, verbatim, and never re-parses it.
//! Every subscriber to a channel receives byte-identical frames, serialised once.
//!
//! The full exchange is documented in `docs/protocol.md`. A frame's text is specified
//! by [`frame_text`]: the same object `serde_json` would write for the message, in the
//! same field order, with `rejected` and `channels` left out where the protocol says so.

use vstd::prelude::*;

use tokio_tungstenite::tungstenite::protocol::frame::Utf8Bytes;
use tokio_tungstenite::tungstenite::Message;
use serde_json::value::RawValue;

use crate::json::{decimal, json_string_literal, push_decimal, quote};

verus! {

#[verifier::external_type_specification]
#[verifier::external_body]
pub struct ExUtf8Bytes(Utf8Bytes);

#[verifier::external_type_specification]
#[verifier::external_body]
pub struct ExMessage(Message);

#[verifier::external_type_specification]
#[verifier::external_body]
pub struct ExRawValue(RawValue);

/// The text held by a `Utf8Bytes` buffer.
pub uninterp spec fn utf8_text(bytes: Utf8Bytes) -> Seq<char>;

/// What `serde_json::value::RawValue::from_string` makes of `text`: the text of the
/// JSON value it holds, or `None` when `text` is not one JSON value.
pub uninterp spec fn raw_json_value(text: Seq<char>) -> Option<Seq<char>>;

/// `Utf8Bytes::from(String)`: takes over the string's buffer; its text is the string's.
#[verifier::external_body]
fn utf8_from_string(text: String) -> (bytes: Utf8Bytes)
    ensures
        utf8_text(bytes) == text@,
{
    Utf8Bytes::from(text)
}

/// `Utf8Bytes::as_str`: the buffer's text.
#[verifier::external_body]
fn utf8_as_str(bytes: &Utf8Bytes) -> (text: &str)
    ensures
        text@ == utf8_text(*bytes),
{
    bytes.as_str()
}

/// `Utf8Bytes::clone`: another handle on the same buffer, so the same text.
#[verifier::external_body]
fn utf8_clone(bytes: &Utf8Bytes) -> (copy: Utf8Bytes)
    ensures
        utf8_text(copy) == utf8_text(*bytes),
{
    bytes.clone()
}

/// The text a WebSocket message carries, if it is a text message.
pub uninterp spec fn message_text(m: Message) -> Option<Seq<char>>;

/// The JSON text a `RawValue` holds (`RawValue::get`).
pub uninterp spec fn raw_text(raw: Box<RawValue>) -> Seq<char>;

/// `Message::Text`: a text message over the buffer, carrying its text.
#[verifier::external_body]
fn text_message(bytes: Utf8Bytes) -> (m: Message)
    ensures
        message_text(m) == Some(utf8_text(bytes)),
{
    Message::Text(bytes)
}

/// `serde_json::value::RawValue::from_string`, and the text of the value it accepted.
#[verifier::external_body]
fn parse_raw_value(text: String) -> (value: Option<String>)
    ensures
        match value {
            Some(v) => raw_json_value(text@) == Some(v@),
            None => raw_json_value(text@) is None,
        },
{
    match serde_json::value::RawValue::from_string(text) {
        Ok(raw) => Some(String::from(Box::<str>::from(raw))),
        Err(_) => None,
    }
}

/// `Box<str>::from(Box<RawValue>)`: the value's text, taken over without a copy.
/// `serde_json` makes a `RawValue` only of text that holds exactly one JSON value with
/// no whitespace around it (`from_string` checks and trims, `to_raw_value` writes
/// compact JSON), so `RawValue::from_string` would accept that text as it is.
#[verifier::external_body]
fn raw_value_text(raw: Box<RawValue>) -> (text: String)
    ensures
        text@ == raw_text(raw),
        raw_json_value(text@) == Some(text@),
{
    String::from(Box::<str>::from(raw))
}

/// A JSON value held as its text, checked once when it was made.
#[derive(Debug)]
pub struct RawJson {
    text: String,
}

impl View for RawJson {
    type V = Seq<char>;

    closed spec fn view(&self) -> Seq<char> {
        self.text@
    }
}

impl Clone for RawJson {
    fn clone(&self) -> (copy: Self)
        ensures
            copy@ == self@,
    {
        RawJson { text: self.text.clone() }
    }
}

impl RawJson {
    /// The JSON value in `text`, or `None` if `text` is not exactly one JSON value.
    pub fn from_string(text: String) -> (value: Option<RawJson>)
        ensures
            match value {
                Some(v) => raw_json_value(text@) == Some(v@),
                None => raw_json_value(text@) is None,
            },
    {
        match parse_raw_value(text) {
            Some(t) => Some(RawJson { text: t }),
            None => None,
        }
    }

    /// The JSON value `serde_json` already holds, without checking it again.
    pub fn from_raw(raw: Box<RawValue>) -> (value: RawJson)
        ensures
            value@ == raw_text(raw),
            raw_json_value(value@) == Some(value@),
    {
        RawJson { text: raw_value_text(raw) }
    }

    /// The JSON text.
    pub fn get(&self) -> (text: &str)
        ensures
            text@ == self@,
    {
        self.text.as_str()
    }
}

/// What a client may send.
#[derive(Debug, Clone, PartialEq, Eq)]
#[non_exhaustive]
pub enum ClientMessage {
    /// The first message on a connection: present a token.
    Auth {
        /// Opaque token, interpreted by the server's [`TokenValidator`](crate::TokenValidator).
        token: String,
    },
    /// Subscribe to channels. Unknown or unauthorised channels are reported, not fatal.
    Subscribe {
        /// Channel names.
        channels: Vec<String>,
    },
    /// Stop receiving these channels.
    Unsubscribe {
        /// Channel names.
        channels: Vec<String>,
    },
    /// Application-level ping. Answered with `pong`, and counts as liveness.
    Ping {
        /// Echoed back unchanged; zero if absent.
        timestamp: u64,
    },
}

/// What the server sends. Built by [`ServerMessage::to_frame`] into a shared text frame.
#[derive(Debug, Clone)]
#[non_exhaustive]
pub enum ServerMessage<'a> {
    /// The token was accepted. Sent before anything else.
    Authenticated {
        /// Who the token identified.
        subject: &'a str,
    },
    /// Which of the requested channels are now active.
    Subscribed {
        /// Channels the client now receives.
        channels: &'a [String],
        /// Channels it asked for and was refused, with a reason each. Left out of the
        /// frame when empty.
        rejected: Vec<Rejected<'a>>,
    },
    /// Which channels were removed.
    Unsubscribed {
        /// Channels no longer received.
        channels: &'a [String],
    },
    /// A published message.
    Data {
        /// The channel it was published on.
        channel: &'a str,
        /// The publisher's JSON, verbatim.
        payload: &'a RawJson,
    },
    /// A snapshot of a channel's current state, sent after `subscribed`.
    Snapshot {
        /// The channel.
        channel: &'a str,
        /// The snapshot JSON, verbatim.
        payload: &'a RawJson,
    },
    /// The server's upstream lost data.
    Resync {
        /// Affected channels; empty means every channel, and is left out of the frame.
        channels: Vec<&'a str>,
    },
    /// Reply to a client `ping`.
    Pong {
        /// The client's timestamp, echoed.
        timestamp: u64,
    },
    /// Something the client sent was wrong.
    Error {
        /// Short machine-readable code.
        code: &'static str,
        /// Human-readable detail.
        message: String,
    },
}

/// A channel the client asked for and did not get.
#[derive(Debug, Clone)]
pub struct Rejected<'a> {
    /// The channel.
    pub channel: &'a str,
    /// Why: `unauthorized`, `limit`, or `invalid`.
    pub reason: &'static str,
}

/// `,`-separated JSON string literals of `items`.
pub open spec fn literal_list(items: Seq<Seq<char>>) -> Seq<char>
    decreases items.len(),
{
    if items.len() == 0 {
        Seq::empty()
    } else if items.len() == 1 {
        json_string_literal(items[0])
    } else {
        literal_list(items.drop_last()) + ","@ + json_string_literal(items.last())
    }
}

/// A JSON array of string literals.
pub open spec fn string_array(items: Seq<Seq<char>>) -> Seq<char> {
    "["@ + literal_list(items) + "]"@
}

/// One `rejected` entry, for a channel and a reason.
pub open spec fn rejected_object(r: (Seq<char>, Seq<char>)) -> Seq<char> {
    "{\"channel\":"@ + json_string_literal(r.0) + ",\"reason\":"@ + json_string_literal(r.1)
        + "}"@
}

/// `,`-separated `rejected` entries.
pub open spec fn rejected_list(items: Seq<(Seq<char>, Seq<char>)>) -> Seq<char>
    decreases items.len(),
{
    if items.len() == 0 {
        Seq::empty()
    } else if items.len() == 1 {
        rejected_object(items[0])
    } else {
        rejected_list(items.drop_last()) + ","@ + rejected_object(items.last())
    }
}

/// The texts of a slice of owned strings.
pub open spec fn texts(items: Seq<String>) -> Seq<Seq<char>> {
    items.map_values(|s: String| s@)
}

/// The texts of a list of borrowed strings.
pub open spec fn str_texts(items: Seq<&str>) -> Seq<Seq<char>> {
    items.map_values(|s: &str| s@)
}

/// The channel and reason of each rejection.
pub open spec fn rejection_texts(items: Seq<Rejected>) -> Seq<(Seq<char>, Seq<char>)> {
    items.map_values(|r: Rejected| (r.channel@, r.reason@))
}

/// The text of an `authenticated` frame.
pub open spec fn authenticated_text(subject: Seq<char>) -> Seq<char> {
    "{\"type\":\"authenticated\",\"subject\":"@ + json_string_literal(subject) + "}"@
}

/// The text of a `subscribed` frame; `rejected` is left out when empty.
pub open spec fn subscribed_text(
    channels: Seq<Seq<char>>,
    rejected: Seq<(Seq<char>, Seq<char>)>,
) -> Seq<char> {
    if rejected.len() == 0 {
        "{\"type\":\"subscribed\",\"channels\":"@ + string_array(channels) + "}"@
    } else {
        "{\"type\":\"subscribed\",\"channels\":"@ + string_array(channels) + ",\"rejected\":["@
            + rejected_list(rejected) + "]}"@
    }
}

/// The text of an `unsubscribed` frame.
pub open spec fn unsubscribed_text(channels: Seq<Seq<char>>) -> Seq<char> {
    "{\"type\":\"unsubscribed\",\"channels\":"@ + string_array(channels) + "}"@
}

/// The text of a `data` frame: the payload is embedded verbatim.
pub open spec fn data_text(channel: Seq<char>, payload: Seq<char>) -> Seq<char> {
    "{\"type\":\"data\",\"channel\":"@ + json_string_literal(channel) + ",\"payload\":"@ + payload
        + "}"@
}

/// The text of a `snapshot` frame: the payload is embedded verbatim.
pub open spec fn snapshot_text(channel: Seq<char>, payload: Seq<char>) -> Seq<char> {
    "{\"type\":\"snapshot\",\"channel\":"@ + json_string_literal(channel) + ",\"payload\":"@
        + payload + "}"@
}

/// The text of a `resync` frame for `channels`; the list is left out when empty.
pub open spec fn resync_text(channels: Seq<Seq<char>>) -> Seq<char> {
    if channels.len() == 0 {
        "{\"type\":\"resync\"}"@
    } else {
        "{\"type\":\"resync\",\"channels\":"@ + string_array(channels) + "}"@
    }
}

/// The text of a `pong` frame.
pub open spec fn pong_text(timestamp: u64) -> Seq<char> {
    "{\"type\":\"pong\",\"timestamp\":"@ + decimal(timestamp as nat) + "}"@
}

/// The text of an `error` frame.
pub open spec fn error_text(code: Seq<char>, message: Seq<char>) -> Seq<char> {
    "{\"type\":\"error\",\"code\":"@ + json_string_literal(code) + ",\"message\":"@
        + json_string_literal(message) + "}"@
}

/// The JSON text of a server message, as it goes on the wire.
pub open spec fn frame_text(m: ServerMessage) -> Seq<char> {
    match m {
        ServerMessage::Authenticated { subject } => authenticated_text(subject@),
        ServerMessage::Subscribed { channels, rejected } => subscribed_text(
            texts(channels@),
            rejection_texts(rejected@),
        ),
        ServerMessage::Unsubscribed { channels } => unsubscribed_text(texts(channels@)),
        ServerMessage::Data { channel, payload } => data_text(channel@, payload@),
        ServerMessage::Snapshot { channel, payload } => snapshot_text(channel@, payload@),
        ServerMessage::Resync { channels } => resync_text(str_texts(channels@)),
        ServerMessage::Pong { timestamp } => pong_text(timestamp),
        ServerMessage::Error { code, message } => error_text(code@, message@),
    }
}

fn push_literal_list(out: &mut String, items: &[String])
    ensures
        final(out)@ == old(out)@ + literal_list(texts(items@)),
{
    let ghost start = out@;
    let n = items.len();
    let mut i: usize = 0;
    while i < n
        invariant
            n == items@.len(),
            i <= n,
            out@ == start + literal_list(texts(items@.subrange(0, i as int))),
        decreases n - i,
    {
        let ghost prev = items@.subrange(0, i as int);
        let ghost next = items@.subrange(0, i + 1);
        assert(texts(next).drop_last() =~= texts(prev));
        assert(texts(next).last() == items@[i as int]@);
        if i > 0 {
            out.append(",");
        }
        let q = quote(items[i].as_str());
        out.append(q.as_str());
        i = i + 1;
        proof {
            if i == 1 {
                assert(texts(next).len() == 1);
                assert(literal_list(texts(prev)) =~= Seq::<char>::empty());
            }
        }
        assert(out@ =~= start + literal_list(texts(next)));
    }
    assert(items@.subrange(0, n as int) =~= items@);
}

fn push_str_list(out: &mut String, items: &Vec<&str>)
    ensures
        final(out)@ == old(out)@ + literal_list(str_texts(items@)),
{
    let ghost start = out@;
    let n = items.len();
    let mut i: usize = 0;
    while i < n
        invariant
            n == items@.len(),
            i <= n,
            out@ == start + literal_list(str_texts(items@.subrange(0, i as int))),
        decreases n - i,
    {
        let ghost prev = items@.subrange(0, i as int);
        let ghost next = items@.subrange(0, i + 1);
        assert(str_texts(next).drop_last() =~= str_texts(prev));
        assert(str_texts(next).last() == items@[i as int]@);
        if i > 0 {
            out.append(",");
        }
        let q = quote(items[i]);
        out.append(q.as_str());
        i = i + 1;
        proof {
            if i == 1 {
                assert(str_texts(next).len() == 1);
                assert(literal_list(str_texts(prev)) =~= Seq::<char>::empty());
            }
        }
        assert(out@ =~= start + literal_list(str_texts(next)));
    }
    assert(items@.subrange(0, n as int) =~= items@);
}

fn push_rejected_list(out: &mut String, items: &Vec<Rejected>)
    ensures
        final(out)@ == old(out)@ + rejected_list(rejection_texts(items@)),
{
    let ghost start = out@;
    let n = items.len();
    let mut i: usize = 0;
    while i < n
        invariant
            n == items@.len(),
            i <= n,
            out@ == start + rejected_list(rejection_texts(items@.subrange(0, i as int))),
        decreases n - i,
    {
        let ghost prev = rejection_texts(items@.subrange(0, i as int));
        let ghost next = rejection_texts(items@.subrange(0, i + 1));
        assert(next.drop_last() =~= prev);
        assert(next.last() == (items@[i as int].channel@, items@[i as int].reason@));
        if i > 0 {
            out.append(",");
        }
        let r = &items[i];
        out.append("{\"channel\":");
        let c = quote(r.channel);
        out.append(c.as_str());
        out.append(",\"reason\":");
        let q = quote(r.reason);
        out.append(q.as_str());
        out.append("}");
        i = i + 1;
        proof {
            if i == 1 {
                assert(next.len() == 1);
                assert(rejected_list(prev) =~= Seq::<char>::empty());
            }
        }
        assert(out@ =~= start + rejected_list(next));
    }
    assert(items@.subrange(0, n as int) =~= items@);
}

impl ServerMessage<'_> {
    /// Serialise once into a frame that can be sent to any number of connections.
    pub fn to_frame(&self) -> (frame: Frame)
        ensures
            frame@ == frame_text(*self),
    {
        let mut out = String::new();
        match self {
            ServerMessage::Authenticated { subject } => {
                out.append("{\"type\":\"authenticated\",\"subject\":");
                let q = quote(subject);
                out.append(q.as_str());
                out.append("}");
            },
            ServerMessage::Subscribed { channels, rejected } => {
                out.append("{\"type\":\"subscribed\",\"channels\":");
                out.append("[");
                push_literal_list(&mut out, channels);
                out.append("]");
                if rejected.len() > 0 {
                    out.append(",\"rejected\":[");
                    push_rejected_list(&mut out, rejected);
                    out.append("]}");
                } else {
                    out.append("}");
                }
            },
            ServerMessage::Unsubscribed { channels } => {
                out.append("{\"type\":\"unsubscribed\",\"channels\":");
                out.append("[");
                push_literal_list(&mut out, channels);
                out.append("]");
                out.append("}");
            },
            ServerMessage::Data { channel, payload } => {
                out.append("{\"type\":\"data\",\"channel\":");
                let q = quote(channel);
                out.append(q.as_str());
                out.append(",\"payload\":");
                out.append(payload.get());
                out.append("}");
            },
            ServerMessage::Snapshot { channel, payload } => {
                out.append("{\"type\":\"snapshot\",\"channel\":");
                let q = quote(channel);
                out.append(q.as_str());
                out.append(",\"payload\":");
                out.append(payload.get());
                out.append("}");
            },
            ServerMessage::Resync { channels } => {
                if channels.len() > 0 {
                    out.append("{\"type\":\"resync\",\"channels\":");
                    out.append("[");
                    push_str_list(&mut out, channels);
                    out.append("]");
                    out.append("}");
                } else {
                    out.append("{\"type\":\"resync\"}");
                }
            },
            ServerMessage::Pong { timestamp } => {
                out.append("{\"type\":\"pong\",\"timestamp\":");
                push_decimal(&mut out, *timestamp);
                out.append("}");
            },
            ServerMessage::Error { code, message } => {
                out.append("{\"type\":\"error\",\"code\":");
                let c = quote(code);
                out.append(c.as_str());
                out.append(",\"message\":");
                let q = quote(message.as_str());
                out.append(q.as_str());
                out.append("}");
            },
        }
        assert(out@ =~= frame_text(*self));
        Frame::from_text(out)
    }
}

/// A serialised server message, cheap to clone and share between connections.
///
/// It holds the buffer type the WebSocket sink takes, so sending one to a subscriber
/// is a reference-count bump rather than a copy of the JSON.
#[derive(Debug, PartialEq, Eq)]
pub struct Frame {
    bytes: Utf8Bytes,
}

impl View for Frame {
    type V = Seq<char>;

    closed spec fn view(&self) -> Seq<char> {
        utf8_text(self.bytes)
    }
}

impl Clone for Frame {
    fn clone(&self) -> (copy: Self)
        ensures
            copy@ == self@,
    {
        Frame { bytes: utf8_clone(&self.bytes) }
    }
}

impl Frame {
    /// A frame holding `text`, taking over its buffer.
    pub fn from_text(text: String) -> (frame: Frame)
        ensures
            frame@ == text@,
    {
        Frame { bytes: utf8_from_string(text) }
    }

    /// The JSON text.
    pub fn as_str(&self) -> (text: &str)
        ensures
            text@ == self@,
    {
        utf8_as_str(&self.bytes)
    }

    /// The frame as a text message, sharing this frame's buffer.
    pub fn to_message(&self) -> (m: Message)
        ensures
            message_text(m) == Some(self@),
    {
        text_message(utf8_clone(&self.bytes))
    }
}

/// `part` occurs in `whole` as a run of consecutive characters.
pub open spec fn occurs_in(part: Seq<char>, whole: Seq<char>) -> bool {
    exists|k: int| 0 <= k && k + part.len() <= whole.len() && #[trigger] whole.subrange(k, k + part.len()) == part
}

proof fn lemma_occurs_in_extended(part: Seq<char>, whole: Seq<char>, before: Seq<char>, after: Seq<char>)
    requires
        occurs_in(part, whole),
    ensures
        occurs_in(part, before + whole + after),
{
    let k = choose|k: int| 0 <= k && k + part.len() <= whole.len() && #[trigger] whole.subrange(k, k + part.len()) == part;
    let big = before + whole + after;
    let k2 = before.len() + k;
    assert(big.subrange(k2, k2 + part.len()) =~= whole.subrange(k, k + part.len()));
}

proof fn lemma_occurs_in_itself(part: Seq<char>)
    ensures
        occurs_in(part, part),
{
    let k: int = 0;
    assert(part.subrange(k, k + part.len()) =~= part);
}

proof fn lemma_literal_list_names_each(items: Seq<Seq<char>>, i: int)
    requires
        0 <= i < items.len(),
    ensures
        occurs_in(json_string_literal(items[i]), literal_list(items)),
    decreases items.len(),
{
    let lit = json_string_literal(items[i]);
    if items.len() == 1 {
        lemma_occurs_in_itself(lit);
    } else if i == items.len() - 1 {
        lemma_occurs_in_itself(lit);
        lemma_occurs_in_extended(lit, lit, literal_list(items.drop_last()) + ","@, Seq::empty());
        assert(literal_list(items) =~= literal_list(items.drop_last()) + ","@ + lit + Seq::<char>::empty());
    } else {
        lemma_literal_list_names_each(items.drop_last(), i);
        assert(items.drop_last()[i] == items[i]);
        lemma_occurs_in_extended(lit, literal_list(items.drop_last()), Seq::empty(), ","@ + json_string_literal(items.last()));
        assert(literal_list(items) =~= Seq::<char>::empty() + literal_list(items.drop_last()) + (","@ + json_string_literal(items.last())));
    }
}

/// A `resync` frame for a non-empty list of channels names every one of them, as a
/// JSON string: only the empty list, which means every channel, leaves them out.
pub proof fn law_resync_names_every_channel(channels: Seq<Seq<char>>, i: int)
    requires
        0 <= i < channels.len(),
    ensures
        occurs_in(json_string_literal(channels[i]), resync_text(channels)),
{
    let lit = json_string_literal(channels[i]);
    lemma_literal_list_names_each(channels, i);
    let before = "{\"type\":\"resync\",\"channels\":"@ + "["@;
    let after = "]"@ + "}"@;
    lemma_occurs_in_extended(lit, literal_list(channels), before, after);
    assert(resync_text(channels) =~= before + literal_list(channels) + after);
}

/// Every `subscribed` ack starts with the list of channels, an empty list included;
/// only `rejected` may be left out.
pub proof fn law_subscribed_always_lists_channels(
    channels: Seq<Seq<char>>,
    rejected: Seq<(Seq<char>, Seq<char>)>,
)
    ensures
        ({
            let head = "{\"type\":\"subscribed\",\"channels\":"@ + string_array(channels);
            &&& subscribed_text(channels, rejected).len() >= head.len()
            &&& subscribed_text(channels, rejected).subrange(0, head.len() as int) == head
        }),
{
    let head = "{\"type\":\"subscribed\",\"channels\":"@ + string_array(channels);
    if rejected.len() == 0 {
        assert(subscribed_text(channels, rejected) =~= head + "}"@);
    } else {
        assert(subscribed_text(channels, rejected) =~= head + (",\"rejected\":["@ + rejected_list(rejected) + "]}"@));
    }
    assert(subscribed_text(channels, rejected).subrange(0, head.len() as int) =~= head);
}

} // verus!
