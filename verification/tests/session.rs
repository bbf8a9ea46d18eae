//! What the server does with each message and event of a connection.

use std::sync::atomic::Ordering;
use std::sync::Arc;
use std::time::Duration;

use tokio::sync::mpsc;
use ws_fanout::auth::{AllowAll, Claims, StaticToken};
use ws_fanout::error::Error;
use ws_fanout::protocol::{ClientMessage, Frame, RawJson};
use ws_fanout::registry::{ConnectionId, Metrics, Registry};
use ws_fanout::server::{
    authenticate, handle, is_auth_attempt, refusal, session_step, Config, FirstMessage, SessionAction,
    SessionEvent,
};
use ws_fanout::snapshot::{LastValue, NoSnapshots};

fn texts(frames: &[Frame]) -> Vec<String> {
    frames.iter().map(|f| f.as_str().to_string()).collect()
}

fn one(queue: usize) -> (Registry, ConnectionId, mpsc::Receiver<Frame>) {
    let mut reg = Registry::new(Arc::new(Metrics::default()));
    let (tx, rx) = mpsc::channel(queue);
    let id = reg.add("tester".into(), tx);
    (reg, id, rx)
}

fn subscribe(channels: &[&str]) -> Result<ClientMessage, String> {
    Ok(ClientMessage::Subscribe {
        channels: channels.iter().map(|c| c.to_string()).collect(),
    })
}

#[test]
fn ping_is_answered_with_the_same_timestamp() {
    let (mut reg, id, _rx) = one(8);
    let out = handle(
        Ok(ClientMessage::Ping { timestamp: 7 }),
        id,
        &Claims::new("tester"),
        &mut reg,
        &Config::default(),
        &AllowAll,
        &NoSnapshots,
    );
    assert_eq!(texts(&out), [r#"{"type":"pong","timestamp":7}"#]);
}

#[test]
fn a_second_auth_is_refused() {
    let (mut reg, id, _rx) = one(8);
    let out = handle(
        Ok(ClientMessage::Auth { token: "t".into() }),
        id,
        &Claims::new("tester"),
        &mut reg,
        &Config::default(),
        &AllowAll,
        &NoSnapshots,
    );
    assert_eq!(
        texts(&out),
        [r#"{"type":"error","code":"already_authenticated","message":"auth is accepted only as the first message"}"#]
    );
}

#[test]
fn invalid_json_gets_an_error_not_a_disconnect() {
    let (mut reg, id, _rx) = one(8);
    let out = handle(
        Err("key must be a string at line 1 column 2".into()),
        id,
        &Claims::new("tester"),
        &mut reg,
        &Config::default(),
        &AllowAll,
        &NoSnapshots,
    );
    assert_eq!(
        texts(&out),
        [r#"{"type":"error","code":"invalid_message","message":"key must be a string at line 1 column 2"}"#]
    );
    assert_eq!(reg.len(), 1);
}

#[test]
fn authorizer_rejects_per_channel() {
    let (mut reg, id, _rx) = one(8);
    let only_public = |_: &Claims, ch: &str| ch.starts_with("public:");
    let out = handle(
        subscribe(&["public:a", "private:b"]),
        id,
        &Claims::new("tester"),
        &mut reg,
        &Config::default(),
        &only_public,
        &NoSnapshots,
    );
    assert_eq!(
        texts(&out),
        [r#"{"type":"subscribed","channels":["public:a"],"rejected":[{"channel":"private:b","reason":"unauthorized"}]}"#]
    );
    assert_eq!(reg.subscribers("public:a"), 1);
    assert_eq!(reg.subscribers("private:b"), 0);
}

#[test]
fn subscription_limit_is_reported() {
    let (mut reg, id, _rx) = one(8);
    let cfg = Config {
        max_subscriptions: 1,
        ..Default::default()
    };
    let out = handle(
        subscribe(&["a", "b"]),
        id,
        &Claims::new("tester"),
        &mut reg,
        &cfg,
        &AllowAll,
        &NoSnapshots,
    );
    assert_eq!(
        texts(&out),
        [r#"{"type":"subscribed","channels":["a"],"rejected":[{"channel":"b","reason":"limit"}]}"#]
    );
}

#[test]
fn over_long_channel_names_are_invalid() {
    let (mut reg, id, _rx) = one(8);
    let cfg = Config {
        max_channel_len: 3,
        ..Default::default()
    };
    // "été" is three characters but five bytes.
    let out = handle(
        subscribe(&["abc", "abcd", "été"]),
        id,
        &Claims::new("tester"),
        &mut reg,
        &cfg,
        &AllowAll,
        &NoSnapshots,
    );
    assert_eq!(
        texts(&out),
        [r#"{"type":"subscribed","channels":["abc"],"rejected":[{"channel":"abcd","reason":"invalid"},{"channel":"été","reason":"invalid"}]}"#]
    );
}

#[test]
fn rejections_come_invalid_then_unauthorized_then_limit() {
    let (mut reg, id, _rx) = one(8);
    let cfg = Config {
        max_subscriptions: 1,
        max_channel_len: 8,
        ..Default::default()
    };
    let no_secrets = |_: &Claims, ch: &str| !ch.starts_with("secret");
    let out = handle(
        subscribe(&["a", "secret", "b", "much-too-long", "a"]),
        id,
        &Claims::new("tester"),
        &mut reg,
        &cfg,
        &no_secrets,
        &NoSnapshots,
    );
    assert_eq!(
        texts(&out),
        [r#"{"type":"subscribed","channels":["a"],"rejected":[{"channel":"much-too-long","reason":"invalid"},{"channel":"secret","reason":"unauthorized"},{"channel":"b","reason":"limit"}]}"#]
    );
}

#[test]
fn snapshot_follows_the_subscribe_ack() {
    let (mut reg, id, _rx) = one(8);
    let mut snaps = LastValue::new();
    snaps.record(
        "book",
        &RawJson::from_string(r#"{"bids":[[1,2]]}"#.to_string()).unwrap(),
    );
    let out = handle(
        subscribe(&["book", "nothing"]),
        id,
        &Claims::new("tester"),
        &mut reg,
        &Config::default(),
        &AllowAll,
        &snaps,
    );
    assert_eq!(
        texts(&out),
        [
            r#"{"type":"subscribed","channels":["book","nothing"]}"#,
            r#"{"type":"snapshot","channel":"book","payload":{"bids":[[1,2]]}}"#,
        ]
    );
    // A second subscribe adds nothing, so no snapshot is sent again; the ack still
    // lists the channel, which is active.
    let out = handle(
        subscribe(&["book"]),
        id,
        &Claims::new("tester"),
        &mut reg,
        &Config::default(),
        &AllowAll,
        &snaps,
    );
    assert_eq!(texts(&out), [r#"{"type":"subscribed","channels":["book"]}"#]);
}

#[test]
fn unsubscribe_lists_what_was_removed() {
    let (mut reg, id, _rx) = one(8);
    handle(
        subscribe(&["ch"]),
        id,
        &Claims::new("tester"),
        &mut reg,
        &Config::default(),
        &AllowAll,
        &NoSnapshots,
    );
    let out = handle(
        Ok(ClientMessage::Unsubscribe {
            channels: vec!["ch".into(), "never".into(), "ch".into()],
        }),
        id,
        &Claims::new("tester"),
        &mut reg,
        &Config::default(),
        &AllowAll,
        &NoSnapshots,
    );
    assert_eq!(texts(&out), [r#"{"type":"unsubscribed","channels":["ch"]}"#]);
    assert_eq!(reg.subscribers("ch"), 0);
}

fn step(reg: &mut Registry, id: ConnectionId, event: SessionEvent, cfg: &Config) -> ws_fanout::server::Step {
    session_step(event, id, &Claims::new("tester"), reg, cfg, &AllowAll, &NoSnapshots)
}

#[test]
fn replies_go_to_the_connection_queue() {
    let (mut reg, id, mut rx) = one(8);
    let cfg = Config::default();
    let s = step(
        &mut reg,
        id,
        SessionEvent::Text(Ok(ClientMessage::Ping { timestamp: 3 })),
        &cfg,
    );
    assert!(matches!(s.action, SessionAction::Continue));
    assert!(!s.too_slow);
    assert_eq!(rx.try_recv().unwrap().as_str(), r#"{"type":"pong","timestamp":3}"#);
}

#[test]
fn replies_reach_only_their_connection() {
    let (mut reg, id, mut rx) = one(8);
    let (tx2, mut rx2) = mpsc::channel(8);
    let _other = reg.add("other".into(), tx2);
    let cfg = Config::default();
    step(&mut reg, id, SessionEvent::Text(subscribe(&["a"])), &cfg);
    assert_eq!(rx.try_recv().unwrap().as_str(), r#"{"type":"subscribed","channels":["a"]}"#);
    assert!(rx2.try_recv().is_err());
    assert_eq!(reg.subscribers("a"), 1);
}

#[test]
fn outbound_frames_are_written_and_a_closed_queue_ends_the_session() {
    let (mut reg, id, _rx) = one(8);
    let cfg = Config::default();
    let s = step(&mut reg, id, SessionEvent::Outbound(Some(Frame::from_text("x".into()))), &cfg);
    match s.action {
        SessionAction::Write(f) => assert_eq!(f.as_str(), "x"),
        _ => panic!("an outbound frame is written"),
    }
    assert!(matches!(step(&mut reg, id, SessionEvent::Outbound(None), &cfg).action, SessionAction::Stop));
}

#[test]
fn control_frames() {
    let (mut reg, id, mut rx) = one(8);
    let cfg = Config::default();
    match step(&mut reg, id, SessionEvent::Ping(vec![1, 2, 3]), &cfg).action {
        SessionAction::Pong(p) => assert_eq!(p, [1, 2, 3]),
        _ => panic!("a Ping frame is answered with a Pong frame"),
    }
    assert!(matches!(step(&mut reg, id, SessionEvent::Pong, &cfg).action, SessionAction::Continue));
    assert!(matches!(step(&mut reg, id, SessionEvent::Other, &cfg).action, SessionAction::Continue));
    assert!(matches!(step(&mut reg, id, SessionEvent::Closed, &cfg).action, SessionAction::Stop));
    assert!(matches!(step(&mut reg, id, SessionEvent::Failed, &cfg).action, SessionAction::Fail));
    assert!(matches!(step(&mut reg, id, SessionEvent::Binary, &cfg).action, SessionAction::Continue));
    assert_eq!(
        rx.try_recv().unwrap().as_str(),
        r#"{"type":"error","code":"protocol","message":"binary frames are not part of this protocol"}"#
    );
}

#[test]
fn heartbeat_pings_a_live_client_and_closes_a_silent_one() {
    let (mut reg, id, _rx) = one(8);
    let cfg = Config::default();
    assert!(matches!(
        step(&mut reg, id, SessionEvent::Tick { silent: false }, &cfg).action,
        SessionAction::Ping
    ));
    assert_eq!(reg.metrics().heartbeat_timeouts.load(Ordering::Relaxed), 0);
    assert!(matches!(
        step(&mut reg, id, SessionEvent::Tick { silent: true }, &cfg).action,
        SessionAction::Close
    ));
    assert_eq!(reg.metrics().heartbeat_timeouts.load(Ordering::Relaxed), 1);
}

#[test]
fn a_client_that_keeps_dropping_is_closed() {
    let (mut reg, id, _rx) = one(1);
    let cfg = Config {
        max_consecutive_drops: 2,
        ..Default::default()
    };
    reg.subscribe(id, vec!["ch".into()], 10);
    reg.publish("ch", &Frame::from_text("fills the queue".into()));
    reg.publish("ch", &Frame::from_text("dropped".into()));
    let s = step(&mut reg, id, SessionEvent::Pong, &cfg);
    assert!(!s.too_slow, "one drop is not yet too many");
    reg.publish("ch", &Frame::from_text("dropped".into()));
    let s = step(&mut reg, id, SessionEvent::Pong, &cfg);
    assert!(s.too_slow);
}

#[test]
fn authentication_needs_auth_first() {
    let v = StaticToken::new("t", "alice");
    let c = authenticate(
        FirstMessage::Text(Ok(ClientMessage::Auth { token: "t".into() })),
        &v,
    )
    .unwrap();
    assert_eq!(c.subject, "alice");
    let refused = |first: FirstMessage| match authenticate(first, &v) {
        Err(Error::Unauthenticated(m)) => m,
        _ => panic!("expected a refusal"),
    };
    assert_eq!(
        refused(FirstMessage::Text(Ok(ClientMessage::Auth { token: "wrong".into() }))),
        "invalid token"
    );
    assert_eq!(
        refused(FirstMessage::Text(Ok(ClientMessage::Subscribe { channels: vec!["x".into()] }))),
        "expected an auth message"
    );
    assert_eq!(refused(FirstMessage::Text(Err("bad".into()))), "expected an auth message");
    assert_eq!(refused(FirstMessage::Other), "expected an auth message");
    assert_eq!(refused(FirstMessage::Closed), "closed before auth");
    assert_eq!(refused(FirstMessage::TimedOut), "auth timeout");
}

#[test]
fn config_defaults_and_validation() {
    let c = Config::default();
    assert_eq!(c.max_connections, 10_000);
    assert_eq!(c.max_message_size, 64 * 1024);
    assert_eq!(c.max_subscriptions, 256);
    assert_eq!(c.max_channel_len, 256);
    assert_eq!(c.send_queue, 256);
    assert_eq!(c.max_consecutive_drops, 1_000);
    assert_eq!(c.auth_timeout, Duration::from_secs(10));
    assert_eq!(c.heartbeat_interval, Duration::from_secs(30));
    assert_eq!(c.heartbeat_timeout, Duration::from_secs(90));
    assert!(c.validate().is_ok());

    let zero_queue = Config {
        send_queue: 0,
        ..Default::default()
    };
    match zero_queue.validate() {
        Err(Error::Config(m)) => assert_eq!(m, "send_queue must be at least 1"),
        _ => panic!("a zero send_queue is refused"),
    }
    let zero_beat = Config {
        heartbeat_interval: Duration::ZERO,
        ..Default::default()
    };
    match zero_beat.validate() {
        Err(Error::Config(m)) => assert_eq!(m, "heartbeat_interval must not be zero"),
        _ => panic!("a zero heartbeat is refused"),
    }
}

#[test]
fn errors_read_as_kind_then_detail() {
    assert_eq!(
        Error::Unauthenticated("invalid token".into()).to_string(),
        "unauthenticated: invalid token"
    );
    assert_eq!(Error::Protocol("x".into()).to_string(), "protocol: x");
    assert_eq!(Error::Config("y".into()).to_string(), "config: y");
    let io = Error::from(std::io::Error::new(std::io::ErrorKind::Other, "boom"));
    assert_eq!(io.to_string(), "io: boom");
}

#[test]
fn resubscribing_lists_the_channels_now_active() {
    let (mut reg, id, _rx) = one(8);
    let cfg = Config::default();
    let first = handle(subscribe(&["a"]), id, &Claims::new("tester"), &mut reg, &cfg, &AllowAll, &NoSnapshots);
    assert_eq!(texts(&first), [r#"{"type":"subscribed","channels":["a"]}"#]);
    let again = handle(
        subscribe(&["a", "b", "a"]),
        id,
        &Claims::new("tester"),
        &mut reg,
        &cfg,
        &AllowAll,
        &NoSnapshots,
    );
    assert_eq!(texts(&again), [r#"{"type":"subscribed","channels":["a","b"]}"#]);
    assert_eq!(reg.subscribers("a"), 1);
}

#[test]
fn refusals_and_limits_together() {
    let (mut reg, id, _rx) = one(8);
    let cfg = Config {
        max_subscriptions: 1,
        ..Default::default()
    };
    let only_public = |_: &Claims, ch: &str| ch.starts_with("public:");
    let out = handle(
        subscribe(&["private:a", "public:b", "public:c"]),
        id,
        &Claims::new("tester"),
        &mut reg,
        &cfg,
        &only_public,
        &NoSnapshots,
    );
    assert_eq!(
        texts(&out),
        [r#"{"type":"subscribed","channels":["public:b"],"rejected":[{"channel":"private:a","reason":"unauthorized"},{"channel":"public:c","reason":"limit"}]}"#]
    );
    assert_eq!(reg.subscribers("public:b"), 1);
    assert_eq!(reg.subscribers("private:a"), 0);
    assert_eq!(reg.subscribers("public:c"), 0);
}

#[test]
fn a_refused_token_is_answered_in_the_validator_s_words() {
    let v = StaticToken::new("test-token", "tester");
    let first = FirstMessage::Text(Ok(ClientMessage::Auth { token: "wrong".into() }));
    assert!(is_auth_attempt(&first));
    let e = authenticate(first, &v).unwrap_err();
    assert_eq!(
        refusal(&e, true).as_str(),
        r#"{"type":"error","code":"unauthenticated","message":"invalid token"}"#
    );
    assert_eq!(
        refusal(&Error::Protocol("x".into()), false).as_str(),
        r#"{"type":"error","code":"unauthenticated","message":"protocol: x"}"#
    );
    assert!(!is_auth_attempt(&FirstMessage::TimedOut));
    let timeout = authenticate(FirstMessage::TimedOut, &v).unwrap_err();
    assert_eq!(
        refusal(&timeout, false).as_str(),
        r#"{"type":"error","code":"unauthenticated","message":"unauthenticated: auth timeout"}"#
    );
}
