//! The per-connection state machine: what the server does with each thing a client
//! sends, and with each event of a connection's life.
//!
//! The loops that wait on sockets, queues and timers live in `app/`; they hand each
//! event to the functions here and carry out what comes back.

use vstd::prelude::*;
use vstd::utf8::encode_utf8;
use vstd::string::StringSliceAdditionalSpecFns;

use std::time::Duration;

use tokio_tungstenite::tungstenite::Error as WsError;

use crate::auth::{Authorizer, Claims, TokenValidator};
use crate::error::{describes, Error};
use crate::protocol::{
    error_text, pong_text, snapshot_text, subscribed_text, texts, unsubscribed_text,
    ClientMessage, Frame, RawJson, Rejected, ServerMessage,
};
use crate::registry::{
    after_delivery, after_each, subscribe_plan, unsubscribe_plan, ConnView, ConnectionId, Delivery,
    Metrics, Registry,
};
use crate::snapshot::SnapshotSource;

verus! {

/// How long a `Duration` is, in nanoseconds: what `Duration::as_nanos` reports.
pub uninterp spec fn duration_nanos(d: Duration) -> nat;

/// `Duration::from_secs`: a duration of `secs` whole seconds.
pub assume_specification[ core::time::Duration::from_secs ](secs: u64) -> (d: Duration)
    ensures
        duration_nanos(d) == secs * 1_000_000_000,
;

/// `Duration::clone`: `Duration` is `Copy`, so the clone is the same duration.
pub assume_specification[ <core::time::Duration as Clone>::clone ](d: &Duration) -> (r: Duration)
    ensures
        r == *d,
;

/// `Duration::is_zero`: whether the duration spans no time.
pub assume_specification[ core::time::Duration::is_zero ](d: &Duration) -> (r: bool)
    ensures
        r == (duration_nanos(*d) == 0),
;

/// Tunables.
#[derive(Debug, Clone)]
pub struct Config {
    /// Refuse new connections beyond this many.
    pub max_connections: usize,
    /// Largest inbound WebSocket message accepted; larger ones close the connection.
    pub max_message_size: usize,
    /// Channels one connection may hold.
    pub max_subscriptions: usize,
    /// Longest channel name accepted, in bytes; longer ones are rejected as `invalid`.
    pub max_channel_len: usize,
    /// Frames queued per connection before drops begin.
    pub send_queue: usize,
    /// Consecutive drops after which a connection is closed as too slow.
    pub max_consecutive_drops: u64,
    /// How long a client has to complete the handshake and send `auth`.
    pub auth_timeout: Duration,
    /// How often the server pings.
    pub heartbeat_interval: Duration,
    /// Silence after which a connection is closed.
    pub heartbeat_timeout: Duration,
}

impl Default for Config {
    fn default() -> (c: Config)
        ensures
            c.max_connections == 10_000,
            c.max_message_size == 64 * 1024,
            c.max_subscriptions == 256,
            c.max_channel_len == 256,
            c.send_queue == 256,
            c.max_consecutive_drops == 1_000,
            duration_nanos(c.auth_timeout) == 10 * 1_000_000_000,
            duration_nanos(c.heartbeat_interval) == 30 * 1_000_000_000,
            duration_nanos(c.heartbeat_timeout) == 90 * 1_000_000_000,
    {
        Config {
            max_connections: 10_000,
            max_message_size: 64 * 1024,
            max_subscriptions: 256,
            max_channel_len: 256,
            send_queue: 256,
            max_consecutive_drops: 1_000,
            auth_timeout: Duration::from_secs(10),
            heartbeat_interval: Duration::from_secs(30),
            heartbeat_timeout: Duration::from_secs(90),
        }
    }
}

/// What is wrong with a configuration whose queue holds `send_queue` frames and whose
/// heartbeat interval is zero or not, if anything: a queue of no frames, or else a
/// heartbeat every zero seconds.
pub open spec fn config_problem(send_queue: usize, heartbeat_is_zero: bool) -> Option<Seq<char>> {
    if send_queue == 0 {
        Some("send_queue must be at least 1"@)
    } else if heartbeat_is_zero {
        Some("heartbeat_interval must not be zero"@)
    } else {
        None
    }
}

/// `r` is the verdict on `problem`: `Ok` for none, `Error::Config` with its text else.
pub open spec fn verdict(r: Result<(), Error>, problem: Option<Seq<char>>) -> bool {
    match problem {
        None => r is Ok,
        Some(m) => (r matches Err(Error::Config(s)) && s@ == m),
    }
}

/// The verdict on a configuration, given its queue size and whether its heartbeat
/// interval is zero.
pub fn check_config(send_queue: usize, heartbeat_is_zero: bool) -> (r: Result<(), Error>)
    ensures
        verdict(r, config_problem(send_queue, heartbeat_is_zero)),
{
    if send_queue == 0 {
        Err(Error::Config(String::from_str("send_queue must be at least 1")))
    } else if heartbeat_is_zero {
        Err(Error::Config(String::from_str("heartbeat_interval must not be zero")))
    } else {
        Ok(())
    }
}

impl Config {
    /// Refuses a configuration the server cannot run with, as [`check_config`] says:
    /// a queue of no frames, or a heartbeat every zero seconds.
    pub fn validate(&self) -> (r: Result<(), Error>)
        ensures
            verdict(r, config_problem(self.send_queue, duration_nanos(self.heartbeat_interval) == 0)),
    {
        check_config(self.send_queue, self.heartbeat_interval.is_zero())
    }
}

/// The length of `s` in bytes of UTF-8, as `str::len` reports it.
pub open spec fn byte_len(s: Seq<char>) -> usize {
    encode_utf8(s).len() as usize
}

/// How a `subscribe` request's channels divide, given whether the authoriser allowed
/// each (`allow[i]` for `req[i]`): names longer than `max_len` bytes are invalid and
/// the authoriser is not asked about them; the rest are allowed or unauthorised.
pub open spec fn classify(req: Seq<Seq<char>>, max_len: nat, allow: Seq<bool>) -> (Seq<
    Seq<char>,
>, Seq<Seq<char>>, Seq<Seq<char>>)
    decreases req.len(),
{
    if req.len() == 0 {
        (Seq::empty(), Seq::empty(), Seq::empty())
    } else {
        let (invalid, allowed, refused) = classify(req.drop_last(), max_len, allow);
        let ch = req.last();
        if byte_len(ch) > max_len {
            (invalid.push(ch), allowed, refused)
        } else if allow[req.len() - 1] {
            (invalid, allowed.push(ch), refused)
        } else {
            (invalid, allowed, refused.push(ch))
        }
    }
}

/// Each channel with the same reason.
pub open spec fn tagged(channels: Seq<Seq<char>>, reason: Seq<char>) -> Seq<
    (Seq<char>, Seq<char>),
> {
    channels.map_values(|c: Seq<char>| (c, reason))
}

/// One `snapshot` frame per newly added channel whose source had one (`snaps[i]` for
/// `added[i]`), in order.
pub open spec fn snapshot_frames(added: Seq<Seq<char>>, snaps: Seq<Option<Seq<char>>>) -> Seq<
    Seq<char>,
>
    decreases added.len(),
{
    if added.len() == 0 {
        Seq::empty()
    } else {
        let earlier = snapshot_frames(added.drop_last(), snaps.drop_last());
        match snaps[added.len() - 1] {
            Some(p) => earlier.push(snapshot_text(added.last(), p)),
            None => earlier,
        }
    }
}

/// The texts of some frames.
pub open spec fn frame_texts(frames: Seq<Frame>) -> Seq<Seq<char>> {
    frames.map_values(|f: Frame| f@)
}

/// The requested channels that a connection holding `held` receives, each once, in
/// request order.
pub open spec fn now_active(req: Seq<Seq<char>>, held: Set<Seq<char>>) -> Seq<Seq<char>>
    decreases req.len(),
{
    if req.len() == 0 {
        Seq::empty()
    } else {
        let prev = now_active(req.drop_last(), held);
        let ch = req.last();
        if held.contains(ch) && !prev.contains(ch) {
            prev.push(ch)
        } else {
            prev
        }
    }
}

/// `answer` is an answer the authoriser gives when asked whether `claims` may
/// subscribe to `channel`.
pub open spec fn authorizer_said<A: Authorizer + ?Sized>(
    authorizer: &A,
    claims: &Claims,
    channel: Seq<char>,
    answer: bool,
) -> bool {
    exists|t: &str| t@ == channel && call_ensures(A::may_subscribe, (authorizer, claims, t), answer)
}

/// `answer` is the payload of an answer the snapshot source gives when asked for
/// `channel`'s snapshot.
pub open spec fn snapshot_said<S: SnapshotSource + ?Sized>(
    snapshots: &S,
    channel: Seq<char>,
    answer: Option<Seq<char>>,
) -> bool {
    exists|t: &str, o: Option<RawJson>|
        t@ == channel && call_ensures(S::snapshot, (snapshots, t), o) && answer == match o {
            Some(p) => Some(p@),
            None => None,
        }
}

/// What handling a `subscribe` for `req` does, given the authoriser's answers `allow`
/// (`allow[i]` for `req[i]`, asked of every channel not too long) and the snapshot
/// source's answers `snaps` (`snaps[j]` for the `j`-th channel added): the registry
/// gains the channels that were allowed and fit under the limit; the client gets a
/// `subscribed` frame listing the requested channels it now receives, with every other
/// requested channel rejected as `invalid`, `unauthorized` or `limit`, followed by a
/// `snapshot` frame for each added channel that has one.
pub open spec fn subscribe_handled<A: Authorizer + ?Sized, S: SnapshotSource + ?Sized>(
    old: Map<u64, ConnView>,
    new: Map<u64, ConnView>,
    id: u64,
    req: Seq<Seq<char>>,
    config: Config,
    authorizer: &A,
    claims: &Claims,
    snapshots: &S,
    allow: Seq<bool>,
    snaps: Seq<Option<Seq<char>>>,
    out: Seq<Seq<char>>,
) -> bool {
    let (invalid, allowed, refused) = classify(req, config.max_channel_len as nat, allow);
    let (added, over) = if old.contains_key(id) {
        subscribe_plan(old[id].channels, allowed, config.max_subscriptions as nat)
    } else {
        (Seq::empty(), Seq::empty())
    };
    let held = if old.contains_key(id) {
        old[id].channels + added.to_set()
    } else {
        Set::empty()
    };
    &&& new == (if old.contains_key(id) {
        old.insert(id, ConnView { channels: held, ..old[id] })
    } else {
        old
    })
    &&& allow.len() == req.len()
    &&& forall|i: int|
        0 <= i < req.len() && byte_len(req[i]) <= config.max_channel_len ==> #[trigger]
            authorizer_said(authorizer, claims, req[i], allow[i])
    &&& snaps.len() == added.len()
    &&& forall|j: int|
        0 <= j < added.len() ==> #[trigger] snapshot_said(snapshots, added[j], snaps[j])
    &&& out == seq![
        subscribed_text(
            now_active(req, held),
            tagged(invalid, "invalid"@) + tagged(refused, "unauthorized"@) + tagged(
                over,
                "limit"@,
            ),
        ),
    ] + snapshot_frames(added, snaps)
}

/// What handling one client message does to the registry (`old` to `new`) for
/// connection `id` authenticated as `claims`, and the frames `out` it produces for
/// that connection.
pub open spec fn handled<A: Authorizer + ?Sized, S: SnapshotSource + ?Sized>(
    old: Map<u64, ConnView>,
    new: Map<u64, ConnView>,
    id: u64,
    message: Result<ClientMessage, String>,
    config: Config,
    authorizer: &A,
    claims: &Claims,
    snapshots: &S,
    out: Seq<Seq<char>>,
) -> bool {
    match message {
        Err(e) => new == old && out == seq![error_text("invalid_message"@, e@)],
        Ok(ClientMessage::Auth { .. }) => new == old && out == seq![
            error_text(
                "already_authenticated"@,
                "auth is accepted only as the first message"@,
            ),
        ],
        Ok(ClientMessage::Ping { timestamp }) => new == old && out == seq![pong_text(timestamp)],
        Ok(ClientMessage::Unsubscribe { channels }) => if old.contains_key(id) {
            let plan = unsubscribe_plan(old[id].channels, texts(channels@));
            &&& new == old.insert(
                id,
                ConnView { channels: old[id].channels.difference(plan.to_set()), ..old[id] },
            )
            &&& out == seq![unsubscribed_text(plan)]
        } else {
            new == old && out == seq![unsubscribed_text(Seq::empty())]
        },
        Ok(ClientMessage::Subscribe { channels }) => exists|
            allow: Seq<bool>,
            snaps: Seq<Option<Seq<char>>>,
        |
            subscribe_handled(
                old,
                new,
                id,
                texts(channels@),
                config,
                authorizer,
                claims,
                snapshots,
                allow,
                snaps,
                out,
            ),
    }
}

fn push_rejections<'a>(
    rejected: &mut Vec<Rejected<'a>>,
    channels: &'a Vec<String>,
    reason: &'static str,
)
    ensures
        crate::protocol::rejection_texts(final(rejected)@) == crate::protocol::rejection_texts(
            old(rejected)@,
        ) + tagged(texts(channels@), reason@),
{
    let ghost start = crate::protocol::rejection_texts(rejected@);
    let n = channels.len();
    let mut i: usize = 0;
    while i < n
        invariant
            n == channels@.len(),
            i <= n,
            crate::protocol::rejection_texts(rejected@) == start + tagged(
                texts(channels@).subrange(0, i as int),
                reason@,
            ),
        decreases n - i,
    {
        let ghost before = crate::protocol::rejection_texts(rejected@);
        rejected.push(Rejected { channel: channels[i].as_str(), reason });
        assert(crate::protocol::rejection_texts(rejected@) =~= before.push(
            (channels@[i as int]@, reason@),
        ));
        assert(texts(channels@).subrange(0, i + 1) =~= texts(channels@).subrange(0, i as int).push(
            channels@[i as int]@,
        ));
        assert(tagged(texts(channels@).subrange(0, i + 1), reason@) =~= tagged(
            texts(channels@).subrange(0, i as int),
            reason@,
        ).push((channels@[i as int]@, reason@)));
        assert(crate::protocol::rejection_texts(rejected@) =~= start + tagged(
            texts(channels@).subrange(0, i + 1),
            reason@,
        ));
        i = i + 1;
    }
    assert(texts(channels@).subrange(0, n as int) =~= texts(channels@));
}

/// Handles one client message for connection `id`: updates its subscriptions and
/// returns the frames to send it, in order, as [`handled`] says.
///
/// The message is what the client's text frame held, or why it held no client
/// message. The authoriser is asked about each channel of a `subscribe` that is not
/// too long, and the snapshot source about each channel that was added.
pub fn handle<A: Authorizer + ?Sized, S: SnapshotSource + ?Sized>(
    message: Result<ClientMessage, String>,
    id: ConnectionId,
    claims: &Claims,
    registry: &mut Registry,
    config: &Config,
    authorizer: &A,
    snapshots: &S,
) -> (frames: Vec<Frame>)
    ensures
        final(registry)@.next_id == old(registry)@.next_id,
        final(registry).metrics_of() == old(registry).metrics_of(),
        handled(
            old(registry)@.conns,
            final(registry)@.conns,
            id@,
            message,
            *config,
            authorizer,
            claims,
            snapshots,
            frame_texts(frames@),
        ),
{
    let mut frames: Vec<Frame> = Vec::new();
    match message {
        Err(e) => {
            let f = ServerMessage::Error { code: "invalid_message", message: e }.to_frame();
            frames.push(f);
            assert(frame_texts(frames@) =~= seq![f@]);
        },
        Ok(ClientMessage::Auth { .. }) => {
            let f = ServerMessage::Error {
                code: "already_authenticated",
                message: String::from_str("auth is accepted only as the first message"),
            }.to_frame();
            frames.push(f);
            assert(frame_texts(frames@) =~= seq![f@]);
        },
        Ok(ClientMessage::Ping { timestamp }) => {
            let f = ServerMessage::Pong { timestamp }.to_frame();
            frames.push(f);
            assert(frame_texts(frames@) =~= seq![f@]);
        },
        Ok(ClientMessage::Unsubscribe { channels }) => {
            let removed = registry.unsubscribe(id, channels);
            let f = ServerMessage::Unsubscribed { channels: removed.as_slice() }.to_frame();
            frames.push(f);
            assert(frame_texts(frames@) =~= seq![f@]);
            assert(!old(registry)@.conns.contains_key(id@) ==> texts(removed@) =~= Seq::<
                Seq<char>,
            >::empty());
        },
        Ok(ClientMessage::Subscribe { channels }) => {
            let ghost req = texts(channels@);
            let mut invalid: Vec<String> = Vec::new();
            let mut allowed: Vec<String> = Vec::new();
            let mut refused: Vec<String> = Vec::new();
            let ghost mut allow: Seq<bool> = Seq::empty();
            let n = channels.len();
            let mut i: usize = 0;
            while i < n
                invariant
                    n == channels@.len(),
                    req == texts(channels@),
                    i <= n,
                    allow.len() == i,
                    (texts(invalid@), texts(allowed@), texts(refused@)) == classify(
                        req.subrange(0, i as int),
                        config.max_channel_len as nat,
                        allow,
                    ),
                    forall|k: int|
                        0 <= k < i && byte_len(req[k]) <= config.max_channel_len ==> #[trigger]
                            authorizer_said(authorizer, claims, req[k], allow[k]),
                decreases n - i,
            {
                let ghost ch = req[i as int];
                let ghost before = allow;
                let ghost (iv, ok, no) = (texts(invalid@), texts(allowed@), texts(refused@));
                assert(ch == channels@[i as int]@);
                let name = channels[i].as_str();
                assert(name@ == ch);
                let blen = name.len();
                assert(blen == byte_len(ch));
                if blen > config.max_channel_len {
                    invalid.push(channels[i].clone());
                    proof {
                        allow = allow.push(false);
                        assert(texts(invalid@) =~= iv.push(ch));
                    }
                } else {
                    let ok_here = authorizer.may_subscribe(claims, name);
                    assert(authorizer_said(authorizer, claims, ch, ok_here));
                    if ok_here {
                        allowed.push(channels[i].clone());
                        assert(texts(allowed@) =~= ok.push(ch));
                    } else {
                        refused.push(channels[i].clone());
                        assert(texts(refused@) =~= no.push(ch));
                    }
                    proof {
                        allow = allow.push(ok_here);
                    }
                }
                proof {
                    assert(req.subrange(0, i + 1).drop_last() =~= req.subrange(0, i as int));
                    assert(req.subrange(0, i + 1).last() == ch);
                    lemma_classify_prefix(
                        req.subrange(0, i as int),
                        config.max_channel_len as nat,
                        before,
                        allow,
                    );
                    assert(allow[i as int] == allow.last());
                    let c = classify(req.subrange(0, i + 1), config.max_channel_len as nat, allow);
                    assert(classify(req.subrange(0, i as int), config.max_channel_len as nat, allow) == (iv, ok, no));
                    assert(c == (texts(invalid@), texts(allowed@), texts(refused@)));
                    assert forall|k: int|
                        0 <= k < i + 1 && byte_len(req[k]) <= config.max_channel_len implies #[trigger]
                            authorizer_said(authorizer, claims, req[k], allow[k]) by {
                        if k < i {
                            assert(allow[k] == before[k]);
                        }
                    }
                }
                i = i + 1;
            }
            assert(req.subrange(0, n as int) =~= req);
            let (added, over) = registry.subscribe(id, allowed, config.max_subscriptions);
            let ghost held = if old(registry)@.conns.contains_key(id@) {
                registry@.conns[id@].channels
            } else {
                Set::<Seq<char>>::empty()
            };
            let mut active: Vec<String> = Vec::new();
            let mut k: usize = 0;
            while k < n
                invariant
                    n == channels@.len(),
                    req == texts(channels@),
                    k <= n,
                    held == (if registry@.conns.contains_key(id@) {
                        registry@.conns[id@].channels
                    } else {
                        Set::<Seq<char>>::empty()
                    }),
                    texts(active@) == now_active(req.subrange(0, k as int), held),
                decreases n - k,
            {
                let ghost prev = texts(active@);
                let ghost ch = req[k as int];
                assert(req.subrange(0, k + 1).drop_last() =~= req.subrange(0, k as int));
                assert(req.subrange(0, k + 1).last() == ch);
                if registry.is_subscribed(id, channels[k].as_str()) && !crate::registry::holds(
                    &active,
                    &channels[k],
                ) {
                    active.push(channels[k].clone());
                    assert(texts(active@) =~= prev.push(ch));
                }
                k = k + 1;
            }
            assert(req.subrange(0, n as int) =~= req);
            let mut rejected: Vec<Rejected> = Vec::new();
            push_rejections(&mut rejected, &invalid, "invalid");
            push_rejections(&mut rejected, &refused, "unauthorized");
            push_rejections(&mut rejected, &over, "limit");
            let ack = ServerMessage::Subscribed { channels: active.as_slice(), rejected }.to_frame();
            frames.push(ack);
            assert(frame_texts(frames@) =~= seq![ack@] + snapshot_frames(
                texts(added@).subrange(0, 0),
                Seq::empty(),
            ));
            let ghost mut snaps: Seq<Option<Seq<char>>> = Seq::empty();
            let m = added.len();
            let mut j: usize = 0;
            while j < m
                invariant
                    m == added@.len(),
                    j <= m,
                    snaps.len() == j,
                    frame_texts(frames@) == seq![ack@] + snapshot_frames(
                        texts(added@).subrange(0, j as int),
                        snaps,
                    ),
                    forall|q: int|
                        0 <= q < j ==> #[trigger] snapshot_said(
                            snapshots,
                            texts(added@)[q],
                            snaps[q],
                        ),
                decreases m - j,
            {
                let ghost before = frame_texts(frames@);
                let ghost old_snaps = snaps;
                let name = added[j].as_str();
                let answer = snapshots.snapshot(name);
                let ghost o = answer;
                let ghost said = match o {
                    Some(p) => Some(p@),
                    None => None,
                };
                assert(snapshot_said(snapshots, texts(added@)[j as int], said));
                match answer {
                    Some(payload) => {
                        let f = ServerMessage::Snapshot {
                            channel: added[j].as_str(),
                            payload: &payload,
                        }.to_frame();
                        frames.push(f);
                        assert(frame_texts(frames@) =~= before.push(f@));
                        proof {
                            snaps = snaps.push(Some(payload@));
                        }
                    },
                    None => {
                        proof {
                            snaps = snaps.push(None);
                        }
                    },
                }
                proof {
                    let a = texts(added@).subrange(0, j + 1);
                    assert(a.drop_last() =~= texts(added@).subrange(0, j as int));
                    assert(snaps.drop_last() =~= old_snaps);
                    assert(frame_texts(frames@) =~= seq![ack@] + snapshot_frames(a, snaps));
                    assert(snaps[j as int] == said);
                    assert forall|q: int| 0 <= q < j + 1 implies #[trigger] snapshot_said(
                        snapshots,
                        texts(added@)[q],
                        snaps[q],
                    ) by {
                        if q < j {
                            assert(snaps[q] == old_snaps[q]);
                        }
                    }
                }
                j = j + 1;
            }
            assert(texts(added@).subrange(0, m as int) =~= texts(added@));
            assert(subscribe_handled(
                old(registry)@.conns,
                registry@.conns,
                id@,
                req,
                *config,
                authorizer,
                claims,
                snapshots,
                allow,
                snaps,
                frame_texts(frames@),
            ));
        },
    }
    frames
}

proof fn lemma_classify_prefix(req: Seq<Seq<char>>, max_len: nat, a: Seq<bool>, b: Seq<bool>)
    requires
        forall|k: int| 0 <= k < req.len() ==> a[k] == b[k],
    ensures
        classify(req, max_len, a) == classify(req, max_len, b),
    decreases req.len(),
{
    if req.len() > 0 {
        lemma_classify_prefix(req.drop_last(), max_len, a, b);
    }
}

/// The first thing that happened on a new connection.
pub enum FirstMessage {
    /// A text frame: the client message it held, or why it held none.
    Text(Result<ClientMessage, String>),
    /// A Close frame, or the end of the stream, before anything else.
    Closed,
    /// Some other kind of frame.
    Other,
    /// Nothing within the auth timeout.
    TimedOut,
    /// Reading failed.
    Failed(WsError),
}

/// What authentication makes of the validator's answer: its claims, or its refusal
/// as `Error::Unauthenticated`.
pub open spec fn admitted(validated: Result<Claims, String>) -> Result<Claims, Error> {
    match validated {
        Ok(c) => Ok(c),
        Err(m) => Err(Error::Unauthenticated(m)),
    }
}

/// Decides who a new connection is from the first thing it sent: it must be an `auth`
/// message, and the validator must accept its token.
pub fn authenticate<V: TokenValidator + ?Sized>(first: FirstMessage, validator: &V) -> (r: Result<
    Claims,
    Error,
>)
    ensures
        match first {
            FirstMessage::TimedOut => (r matches Err(Error::Unauthenticated(m)) && m@
                == "auth timeout"@),
            FirstMessage::Closed => (r matches Err(Error::Unauthenticated(m)) && m@
                == "closed before auth"@),
            FirstMessage::Other => (r matches Err(Error::Unauthenticated(m)) && m@
                == "expected an auth message"@),
            FirstMessage::Failed(e) => r == Err::<Claims, Error>(Error::WebSocket(Box::new(e))),
            FirstMessage::Text(Ok(ClientMessage::Auth { token })) => exists|
                t: &str,
                validated: Result<Claims, String>,
            |
                t@ == token@ && call_ensures(V::validate, (validator, t), validated) && r
                    == admitted(validated),
            FirstMessage::Text(_) => (r matches Err(Error::Unauthenticated(m)) && m@
                == "expected an auth message"@),
        },
{
    match first {
        FirstMessage::TimedOut => Err(Error::Unauthenticated(String::from_str("auth timeout"))),
        FirstMessage::Closed => Err(
            Error::Unauthenticated(String::from_str("closed before auth")),
        ),
        FirstMessage::Other => Err(
            Error::Unauthenticated(String::from_str("expected an auth message")),
        ),
        FirstMessage::Failed(e) => Err(Error::WebSocket(Box::new(e))),
        FirstMessage::Text(Ok(ClientMessage::Auth { token })) => {
            let t = token.as_str();
            let validated = validator.validate(t);
            let ghost v = validated;
            let r = match validated {
                Ok(claims) => Ok(claims),
                Err(m) => Err(Error::Unauthenticated(m)),
            };
            assert(r == admitted(v));
            r
        },
        FirstMessage::Text(_) => Err(
            Error::Unauthenticated(String::from_str("expected an auth message")),
        ),
    }
}

/// Whether the first message presents a token, so that the validator decides.
pub open spec fn presents_token(first: FirstMessage) -> bool {
    first matches FirstMessage::Text(Ok(ClientMessage::Auth { .. }))
}

/// Whether the first message presents a token, as [`presents_token`] says.
pub fn is_auth_attempt(first: &FirstMessage) -> (r: bool)
    ensures
        r == presents_token(*first),
{
    match first {
        FirstMessage::Text(Ok(ClientMessage::Auth { .. })) => true,
        _ => false,
    }
}

/// What a client whose authentication failed is told: when the validator refused its
/// token, the validator's own words, verbatim; for any other failure, the error as
/// text.
pub open spec fn refusal_says(e: &Error, by_validator: bool, message: Seq<char>) -> bool {
    match e {
        Error::Unauthenticated(s) => if by_validator {
            message == s@
        } else {
            describes(e, message)
        },
        _ => describes(e, message),
    }
}

/// The `error` frame, with code `unauthenticated`, that a client whose authentication
/// failed with `e` is sent before the connection is closed; `by_validator` says
/// whether the failure was the validator refusing the client's token.
pub fn refusal(e: &Error, by_validator: bool) -> (f: Frame)
    ensures
        exists|message: Seq<char>|
            refusal_says(e, by_validator, message) && f@ == error_text(
                "unauthenticated"@,
                message,
            ),
{
    let message = match e {
        Error::Unauthenticated(s) => if by_validator {
            s.clone()
        } else {
            e.to_string()
        },
        _ => e.to_string(),
    };
    let ghost said = message@;
    let f = ServerMessage::Error { code: "unauthenticated", message }.to_frame();
    assert(refusal_says(e, by_validator, said));
    f
}

/// The connections after `frames` were handed, in order, to connection `id`'s queue,
/// the `i`-th meeting `ds[i]`. Nothing changes if `id` is not open.
pub open spec fn after_sends(
    conns: Map<u64, ConnView>,
    id: u64,
    frames: Seq<Seq<char>>,
    ds: Seq<Delivery>,
) -> Map<u64, ConnView>
    decreases frames.len(),
{
    if frames.len() == 0 {
        conns
    } else {
        let before = after_sends(conns, id, frames.drop_last(), ds);
        if before.contains_key(id) {
            before.insert(id, after_delivery(before[id], frames.last(), ds[frames.len() - 1]))
        } else {
            before
        }
    }
}

proof fn lemma_after_sends_prefix(
    conns: Map<u64, ConnView>,
    id: u64,
    frames: Seq<Seq<char>>,
    a: Seq<Delivery>,
    b: Seq<Delivery>,
)
    requires
        forall|k: int| 0 <= k < frames.len() ==> a[k] == b[k],
    ensures
        after_sends(conns, id, frames, a) == after_sends(conns, id, frames, b),
    decreases frames.len(),
{
    if frames.len() > 0 {
        lemma_after_sends_prefix(conns, id, frames.drop_last(), a, b);
    }
}

/// Hands each of `frames`, in order, to connection `id`'s queue.
fn send_all(registry: &mut Registry, id: ConnectionId, frames: &Vec<Frame>)
    ensures
        final(registry)@.next_id == old(registry)@.next_id,
        exists|ds: Seq<Delivery>|
            ds.len() == frames@.len() && final(registry)@.conns == after_sends(
                old(registry)@.conns,
                id@,
                frame_texts(frames@),
                ds,
            ),
{
    let ghost start = registry@.conns;
    let ghost mut ds: Seq<Delivery> = Seq::empty();
    let n = frames.len();
    let mut i: usize = 0;
    while i < n
        invariant
            n == frames@.len(),
            i <= n,
            registry@.next_id == old(registry)@.next_id,
            start == old(registry)@.conns,
            ds.len() == i,
            registry@.conns == after_sends(start, id@, frame_texts(frames@).subrange(0, i as int), ds),
        decreases n - i,
    {
        let ghost before = registry@.conns;
        let ghost old_ds = ds;
        let queued = registry.send(id, &frames[i]);
        let ghost d = if before.contains_key(id@) {
            choose|d: Delivery|
                {
                    &&& registry@.conns == before.insert(
                        id@,
                        after_delivery(before[id@], frames@[i as int]@, d),
                    )
                    &&& queued == (d == Delivery::Queued)
                }
        } else {
            Delivery::Closed
        };
        proof {
            ds = ds.push(d);
            let fs = frame_texts(frames@).subrange(0, i + 1);
            assert(fs.drop_last() =~= frame_texts(frames@).subrange(0, i as int));
            lemma_after_sends_prefix(start, id@, fs.drop_last(), old_ds, ds);
            assert(registry@.conns == after_sends(start, id@, fs, ds));
        }
        i = i + 1;
    }
    assert(frame_texts(frames@).subrange(0, n as int) =~= frame_texts(frames@));
}

/// Something that happened on an authenticated connection, as its session loop saw it.
pub enum SessionEvent {
    /// The connection's queue produced a frame, or `None` once it is closed.
    Outbound(Option<Frame>),
    /// A text frame arrived: the client message it held, or why it held none.
    Text(Result<ClientMessage, String>),
    /// A Ping frame arrived, with this payload.
    Ping(Vec<u8>),
    /// A Pong frame arrived.
    Pong,
    /// A Binary frame arrived.
    Binary,
    /// A Close frame arrived, or the stream ended.
    Closed,
    /// A raw frame arrived.
    Other,
    /// Reading failed.
    Failed,
    /// The heartbeat ticked. `silent` says whether nothing at all has arrived for
    /// longer than the heartbeat timeout.
    Tick {
        /// Nothing arrived for longer than the heartbeat timeout.
        silent: bool,
    },
}

/// What the session loop does next.
pub enum SessionAction {
    /// Nothing; wait for the next event.
    Continue,
    /// Write this frame to the socket.
    Write(Frame),
    /// Answer a Ping frame with a Pong frame carrying this payload.
    Pong(Vec<u8>),
    /// Send a Ping frame: every conforming client, browsers included, answers it.
    Ping,
    /// Close the socket and end the session.
    Close,
    /// End the session.
    Stop,
    /// End the session with the read error.
    Fail,
}

/// The outcome of one event: what to do, and whether to close the connection
/// afterwards as too slow.
pub struct Step {
    /// What to do.
    pub action: SessionAction,
    /// The session goes on after `action`, but the connection has dropped
    /// `max_consecutive_drops` frames in a row: close it once `action` is done.
    pub too_slow: bool,
}

/// Whether the session goes on after `a`.
pub open spec fn continues(a: SessionAction) -> bool {
    match a {
        SessionAction::Continue | SessionAction::Write(_) | SessionAction::Pong(_)
        | SessionAction::Ping => true,
        _ => false,
    }
}

/// Connection `id`'s streak of drops, 0 for a connection that is not open.
pub open spec fn streak_of(conns: Map<u64, ConnView>, id: u64) -> u64 {
    if conns.contains_key(id) {
        conns[id].streak
    } else {
        0
    }
}

/// The text of the error a Binary frame gets.
pub open spec fn binary_refusal_text() -> Seq<char> {
    error_text("protocol"@, "binary frames are not part of this protocol"@)
}

/// What one event does to the registry (`old` to `new`) and what the session does
/// next, for connection `id`.
pub open spec fn stepped<A: Authorizer + ?Sized, S: SnapshotSource + ?Sized>(
    old: Map<u64, ConnView>,
    new: Map<u64, ConnView>,
    id: u64,
    event: SessionEvent,
    config: Config,
    authorizer: &A,
    claims: &Claims,
    snapshots: &S,
    step: Step,
) -> bool {
    &&& match event {
        SessionEvent::Outbound(Some(f)) => new == old && (step.action matches SessionAction::Write(
            g,
        ) && g@ == f@),
        SessionEvent::Outbound(None) => new == old && step.action is Stop,
        SessionEvent::Text(m) => step.action is Continue && exists|
            mid: Map<u64, ConnView>,
            out: Seq<Seq<char>>,
            ds: Seq<Delivery>,
        |
            {
                &&& handled(old, mid, id, m, config, authorizer, claims, snapshots, out)
                &&& ds.len() == out.len()
                &&& new == after_sends(mid, id, out, ds)
            },
        SessionEvent::Ping(p) => new == old && (step.action matches SessionAction::Pong(q) && q@
            == p@),
        SessionEvent::Pong => new == old && step.action is Continue,
        SessionEvent::Binary => step.action is Continue && exists|ds: Seq<Delivery>|
            ds.len() == 1 && new == after_sends(old, id, seq![binary_refusal_text()], ds),
        SessionEvent::Closed => new == old && step.action is Stop,
        SessionEvent::Other => new == old && step.action is Continue,
        SessionEvent::Failed => new == old && step.action is Fail,
        SessionEvent::Tick { silent } => new == old && if silent {
            step.action is Close
        } else {
            step.action is Ping
        },
    }
    &&& step.too_slow == (continues(step.action) && streak_of(new, id)
        >= config.max_consecutive_drops)
}

/// Handles one event of an authenticated connection's session, as [`stepped`] says.
///
/// A text frame is handled and every frame it produces goes to the connection's own
/// queue, so a reply that cannot be queued counts toward the streak of drops like any
/// other. Any inbound traffic is liveness; the caller tracks when it last saw some.
pub fn session_step<A: Authorizer + ?Sized, S: SnapshotSource + ?Sized>(
    event: SessionEvent,
    id: ConnectionId,
    claims: &Claims,
    registry: &mut Registry,
    config: &Config,
    authorizer: &A,
    snapshots: &S,
) -> (step: Step)
    ensures
        final(registry)@.next_id == old(registry)@.next_id,
        stepped(
            old(registry)@.conns,
            final(registry)@.conns,
            id@,
            event,
            *config,
            authorizer,
            claims,
            snapshots,
            step,
        ),
{
    let ghost start = registry@.conns;
    let ghost ev = event;
    let action = match event {
        SessionEvent::Outbound(Some(frame)) => SessionAction::Write(frame),
        SessionEvent::Outbound(None) => SessionAction::Stop,
        SessionEvent::Text(message) => {
            let ghost m = message;
            let frames = handle(message, id, claims, registry, config, authorizer, snapshots);
            let ghost mid = registry@.conns;
            send_all(registry, id, &frames);
            proof {
                let out = frame_texts(frames@);
                let ds = choose|ds: Seq<Delivery>|
                    ds.len() == frames@.len() && registry@.conns == after_sends(mid, id@, out, ds);
                assert(handled(start, mid, id@, m, *config, authorizer, claims, snapshots, out));
                assert(ds.len() == out.len());
            }
            SessionAction::Continue
        },
        SessionEvent::Ping(payload) => SessionAction::Pong(payload),
        SessionEvent::Pong => SessionAction::Continue,
        SessionEvent::Binary => {
            let f = ServerMessage::Error {
                code: "protocol",
                message: String::from_str("binary frames are not part of this protocol"),
            }.to_frame();
            let mut frames: Vec<Frame> = Vec::new();
            frames.push(f);
            assert(frame_texts(frames@) =~= seq![binary_refusal_text()]);
            send_all(registry, id, &frames);
            SessionAction::Continue
        },
        SessionEvent::Closed => SessionAction::Stop,
        SessionEvent::Other => SessionAction::Continue,
        SessionEvent::Failed => SessionAction::Fail,
        SessionEvent::Tick { silent } => {
            if silent {
                Metrics::add(&registry.metrics().heartbeat_timeouts, 1);
                SessionAction::Close
            } else {
                SessionAction::Ping
            }
        },
    };
    let goes_on = match action {
        SessionAction::Continue | SessionAction::Write(_) | SessionAction::Pong(_)
        | SessionAction::Ping => true,
        _ => false,
    };
    let too_slow = goes_on && registry.streak(id) >= config.max_consecutive_drops;
    Step { action, too_slow }
}

proof fn lemma_classify_shape(req: Seq<Seq<char>>, max_len: nat, allow: Seq<bool>)
    ensures
        ({
            let (invalid, allowed, refused) = classify(req, max_len, allow);
            &&& forall|ch: Seq<char>|
                req.contains(ch) ==> invalid.contains(ch) || allowed.contains(ch)
                    || refused.contains(ch)
            &&& forall|ch: Seq<char>|
                invalid.contains(ch) ==> req.contains(ch) && byte_len(ch) > max_len
            &&& forall|ch: Seq<char>|
                allowed.contains(ch) ==> req.contains(ch) && byte_len(ch) <= max_len
            &&& forall|ch: Seq<char>|
                refused.contains(ch) ==> req.contains(ch) && byte_len(ch) <= max_len
        }),
    decreases req.len(),
{
    if req.len() > 0 {
        let prev = req.drop_last();
        lemma_classify_shape(prev, max_len, allow);
        let ch = req.last();
        assert(req[req.len() - 1] == ch);
        assert forall|c: Seq<char>| prev.contains(c) implies req.contains(c) by {
            let k = choose|k: int| 0 <= k < prev.len() && prev[k] == c;
            assert(req[k] == c);
        }
        assert forall|c: Seq<char>, x: Seq<Seq<char>>| #[trigger] x.push(ch).contains(c) implies x.contains(c)
            || c == ch by {
            let k = choose|k: int| 0 <= k < x.push(ch).len() && x.push(ch)[k] == c;
            if k < x.len() {
                assert(x[k] == c);
            }
        }
        assert forall|c: Seq<char>, x: Seq<Seq<char>>| x.contains(c) implies #[trigger] x.push(
            ch,
        ).contains(c) by {
            let k = choose|k: int| 0 <= k < x.len() && x[k] == c;
            assert(x.push(ch)[k] == c);
        }
        assert forall|x: Seq<Seq<char>>| #[trigger] x.push(ch).contains(ch) by {
            assert(x.push(ch)[x.len() as int] == ch);
        }
        assert forall|c: Seq<char>| req.contains(c) implies prev.contains(c) || c == ch by {
            let k = choose|k: int| 0 <= k < req.len() && req[k] == c;
            if k < prev.len() {
                assert(prev[k] == c);
            }
        }
    }
}

/// A `subscribe` accounts for every channel it names: each is rejected as `invalid`
/// (its name is longer than `max_channel_len` bytes, and only then), rejected as
/// `unauthorized`, added, rejected for the `limit`, or was already held.
pub proof fn law_subscribe_reply_accounts_for_every_channel(
    held: Set<Seq<char>>,
    req: Seq<Seq<char>>,
    config: Config,
    allow: Seq<bool>,
)
    ensures
        ({
            let (invalid, allowed, refused) = classify(req, config.max_channel_len as nat, allow);
            let (added, over) = subscribe_plan(held, allowed, config.max_subscriptions as nat);
            &&& forall|ch: Seq<char>|
                req.contains(ch) ==> invalid.contains(ch) || refused.contains(ch) || added.contains(
                    ch,
                ) || over.contains(ch) || held.contains(ch)
            &&& forall|ch: Seq<char>|
                req.contains(ch) ==> (invalid.contains(ch) <==> byte_len(ch)
                    > config.max_channel_len)
        }),
{
    let (invalid, allowed, refused) = classify(req, config.max_channel_len as nat, allow);
    lemma_classify_shape(req, config.max_channel_len as nat, allow);
    crate::registry::law_subscribe_accounts_for_every_channel(
        held,
        allowed,
        config.max_subscriptions as nat,
    );
}

/// Replies queued for one connection reach it in order, each through
/// [`after_delivery`], and touch no other connection.
pub proof fn law_replies_reach_only_their_connection(
    conns: Map<u64, ConnView>,
    id: u64,
    frames: Seq<Seq<char>>,
    ds: Seq<Delivery>,
)
    requires
        conns.contains_key(id),
    ensures
        after_sends(conns, id, frames, ds) == conns.insert(id, after_each(conns[id], frames, ds)),
    decreases frames.len(),
{
    if frames.len() > 0 {
        law_replies_reach_only_their_connection(conns, id, frames.drop_last(), ds);
        assert(after_sends(conns, id, frames, ds) =~= conns.insert(
            id,
            after_each(conns[id], frames, ds),
        ));
    } else {
        assert(conns.insert(id, conns[id]) =~= conns);
    }
}

/// Only a heartbeat tick that finds the connection silent closes a session for
/// silence: while traffic keeps arriving, so that no tick finds it silent, the session
/// is never closed that way, and each application-level `ping` is answered on the
/// connection's queue while the session goes on.
pub proof fn law_only_silence_closes_for_heartbeat<A: Authorizer + ?Sized, S: SnapshotSource + ?Sized>(
    old: Map<u64, ConnView>,
    new: Map<u64, ConnView>,
    id: u64,
    event: SessionEvent,
    config: Config,
    authorizer: &A,
    claims: &Claims,
    snapshots: &S,
    step: Step,
)
    requires
        stepped(old, new, id, event, config, authorizer, claims, snapshots, step),
    ensures
        step.action is Close ==> (event matches SessionEvent::Tick { silent } && silent),
        (event matches SessionEvent::Tick { silent } && !silent) ==> step.action is Ping,
        (event matches SessionEvent::Text(Ok(ClientMessage::Ping { timestamp }))
            ==> step.action is Continue && exists|ds: Seq<Delivery>|
            ds.len() == 1 && new == after_sends(old, id, seq![pong_text(timestamp)], ds)),
{
    if let SessionEvent::Text(Ok(ClientMessage::Ping { timestamp })) = event {
        let (mid, out, ds) = choose|mid: Map<u64, ConnView>, out: Seq<Seq<char>>, ds: Seq<Delivery>|
            {
                &&& handled(old, mid, id, Ok(ClientMessage::Ping { timestamp }), config, authorizer, claims, snapshots, out)
                &&& ds.len() == out.len()
                &&& new == after_sends(mid, id, out, ds)
            };
        assert(mid == old);
        assert(out == seq![pong_text(timestamp)]);
    }
}

/// The `subscribed` ack lists each requested channel that the connection receives
/// after the call, once, and nothing else, so re-subscribing to a channel already held
/// lists it again.
pub proof fn law_ack_lists_requested_channels_now_active(
    req: Seq<Seq<char>>,
    held: Set<Seq<char>>,
)
    ensures
        now_active(req, held).no_duplicates(),
        forall|ch: Seq<char>|
            #[trigger] now_active(req, held).contains(ch) <==> (req.contains(ch) && held.contains(
                ch,
            )),
    decreases req.len(),
{
    if req.len() > 0 {
        let prev = req.drop_last();
        law_ack_lists_requested_channels_now_active(prev, held);
        let p = now_active(prev, held);
        let ch = req.last();
        assert(req[req.len() - 1] == ch);
        assert forall|c: Seq<char>| req.contains(c) <==> (prev.contains(c) || c == ch) by {
            if req.contains(c) {
                let k = choose|k: int| 0 <= k < req.len() && req[k] == c;
                if k < prev.len() {
                    assert(prev[k] == c);
                }
            }
            if prev.contains(c) {
                let k = choose|k: int| 0 <= k < prev.len() && prev[k] == c;
                assert(req[k] == c);
            }
        }
        if held.contains(ch) && !p.contains(ch) {
            let q = p.push(ch);
            assert forall|c: Seq<char>| q.contains(c) <==> (p.contains(c) || c == ch) by {
                if q.contains(c) {
                    let k = choose|k: int| 0 <= k < q.len() && q[k] == c;
                    if k < p.len() {
                        assert(p[k] == c);
                    }
                }
                if p.contains(c) {
                    let k = choose|k: int| 0 <= k < p.len() && p[k] == c;
                    assert(q[k] == c);
                }
                if c == ch {
                    assert(q[p.len() as int] == c);
                }
            }
        }
    }
}

/// How many of the snapshot source's answers were snapshots.
pub open spec fn snapshots_given(snaps: Seq<Option<Seq<char>>>) -> nat
    decreases snaps.len(),
{
    if snaps.len() == 0 {
        0
    } else {
        snapshots_given(snaps.drop_last()) + if snaps.last() is Some {
            1nat
        } else {
            0nat
        }
    }
}

/// After a `subscribe`, every added channel whose source had a snapshot gets that
/// snapshot, and there is one snapshot frame for each such channel and no other.
pub proof fn law_one_snapshot_per_added_channel_that_has_one(
    added: Seq<Seq<char>>,
    snaps: Seq<Option<Seq<char>>>,
)
    requires
        snaps.len() == added.len(),
    ensures
        snapshot_frames(added, snaps).len() == snapshots_given(snaps),
        forall|j: int|
            0 <= j < added.len() && #[trigger] snaps[j] is Some ==> snapshot_frames(
                added,
                snaps,
            ).contains(snapshot_text(added[j], snaps[j]->0)),
    decreases added.len(),
{
    if added.len() > 0 {
        let a0 = added.drop_last();
        let s0 = snaps.drop_last();
        law_one_snapshot_per_added_channel_that_has_one(a0, s0);
        let earlier = snapshot_frames(a0, s0);
        assert forall|j: int|
            0 <= j < added.len() && #[trigger] snaps[j] is Some implies snapshot_frames(
                added,
                snaps,
            ).contains(snapshot_text(added[j], snaps[j]->0)) by {
            let all = snapshot_frames(added, snaps);
            if j < added.len() - 1 {
                assert(s0[j] == snaps[j]);
                assert(a0[j] == added[j]);
                let k = choose|k: int| 0 <= k < earlier.len() && earlier[k] == snapshot_text(added[j], snaps[j]->0);
                match snaps[added.len() - 1] {
                    Some(p) => assert(all[k] == earlier[k]),
                    None => assert(all[k] == earlier[k]),
                }
            } else {
                assert(all[all.len() - 1] == snapshot_text(added[j], snaps[j]->0));
            }
        }
    }
}

/// The reply to a `subscribe` is the ack followed by exactly one frame per snapshot
/// the source gave for an added channel.
pub proof fn law_subscribe_reply_is_ack_then_snapshots<A: Authorizer + ?Sized, S: SnapshotSource + ?Sized>(
    old: Map<u64, ConnView>,
    new: Map<u64, ConnView>,
    id: u64,
    req: Seq<Seq<char>>,
    config: Config,
    authorizer: &A,
    claims: &Claims,
    snapshots: &S,
    allow: Seq<bool>,
    snaps: Seq<Option<Seq<char>>>,
    out: Seq<Seq<char>>,
)
    requires
        subscribe_handled(old, new, id, req, config, authorizer, claims, snapshots, allow, snaps, out),
    ensures
        out.len() == 1 + snapshots_given(snaps),
{
    let (invalid, allowed, refused) = classify(req, config.max_channel_len as nat, allow);
    let (added, over) = if old.contains_key(id) {
        subscribe_plan(old[id].channels, allowed, config.max_subscriptions as nat)
    } else {
        (Seq::empty(), Seq::empty())
    };
    law_one_snapshot_per_added_channel_that_has_one(added, snaps);
}

/// A connection whose streak of drops has reached the limit is closed as too slow
/// after any step that would let the session go on, however far past the limit the
/// streak is; and only such a connection.
pub proof fn law_a_streak_at_or_past_the_limit_closes<A: Authorizer + ?Sized, S: SnapshotSource + ?Sized>(
    old: Map<u64, ConnView>,
    new: Map<u64, ConnView>,
    id: u64,
    event: SessionEvent,
    config: Config,
    authorizer: &A,
    claims: &Claims,
    snapshots: &S,
    step: Step,
)
    requires
        stepped(old, new, id, event, config, authorizer, claims, snapshots, step),
    ensures
        continues(step.action) && new.contains_key(id) && new[id].streak
            >= config.max_consecutive_drops ==> step.too_slow,
        step.too_slow ==> (new.contains_key(id) && new[id].streak >= config.max_consecutive_drops)
            || config.max_consecutive_drops == 0,
{
}

} // verus!
