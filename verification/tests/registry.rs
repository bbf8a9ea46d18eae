//! Connections, subscriptions and delivery.

use std::sync::atomic::Ordering;
use std::sync::Arc;

use tokio::sync::mpsc;
use ws_fanout::protocol::{Frame, RawJson};
use ws_fanout::registry::{Metrics, Registry};

fn frame(s: &str) -> Frame {
    Frame::from_text(s.to_string())
}

#[test]
fn publish_reaches_subscribers_only() {
    let mut reg = Registry::new(Arc::new(Metrics::default()));
    let (tx1, mut rx1) = mpsc::channel(8);
    let (tx2, mut rx2) = mpsc::channel(8);
    let a = reg.add("a".into(), tx1);
    let _b = reg.add("b".into(), tx2);

    reg.subscribe(a, vec!["ch".to_string()], 10);
    assert_eq!(reg.subscribers("ch"), 1);
    assert_eq!(reg.publish("ch", &frame("x")), 1);
    assert_eq!(rx1.try_recv().unwrap().as_str(), "x");
    assert!(rx2.try_recv().is_err());
    assert_eq!(reg.publish("other", &frame("y")), 0);
}

#[test]
fn subscription_limit_and_idempotence() {
    let mut reg = Registry::new(Arc::new(Metrics::default()));
    let (tx, _rx) = mpsc::channel(8);
    let id = reg.add("a".into(), tx);

    let (added, over) = reg.subscribe(id, vec!["a".into(), "b".into(), "c".into()], 2);
    assert_eq!(added, ["a", "b"]);
    assert_eq!(over, ["c"]);

    let (added, over) = reg.subscribe(id, vec!["a".into()], 2);
    assert!(
        added.is_empty() && over.is_empty(),
        "re-subscribing is a no-op"
    );

    assert_eq!(reg.unsubscribe(id, vec!["a".into(), "zzz".into()]), ["a"]);
    assert_eq!(reg.subscribers("a"), 0);
}

#[test]
fn remove_cleans_channel_index() {
    let mut reg = Registry::new(Arc::new(Metrics::default()));
    let (tx, _rx) = mpsc::channel(8);
    let id = reg.add("a".into(), tx);
    reg.subscribe(id, vec!["ch".into()], 10);
    reg.remove(id);
    assert_eq!(reg.subscribers("ch"), 0);
    assert_eq!(reg.len(), 0);
    assert_eq!(reg.metrics().connections_active.load(Ordering::Relaxed), 0);
}

#[test]
fn full_queue_drops_and_counts() {
    let mut reg = Registry::new(Arc::new(Metrics::default()));
    let (tx, _rx) = mpsc::channel(1);
    let id = reg.add("slow".into(), tx);
    reg.subscribe(id, vec!["ch".into()], 10);
    assert_eq!(reg.publish("ch", &frame("1")), 1);
    assert_eq!(reg.publish("ch", &frame("2")), 0, "queue of one is full");
    assert_eq!(reg.metrics().frames_dropped.load(Ordering::Relaxed), 1);
}

#[test]
fn streak_counts_drops_since_the_last_frame_that_got_through() {
    let mut reg = Registry::new(Arc::new(Metrics::default()));
    let (tx, mut rx) = mpsc::channel(1);
    let id = reg.add("slow".into(), tx);
    reg.subscribe(id, vec!["ch".into()], 10);
    assert_eq!(reg.publish("ch", &frame("1")), 1);
    assert_eq!(reg.streak(id), 0);
    for _ in 0..3 {
        assert_eq!(reg.publish("ch", &frame("x")), 0);
    }
    assert_eq!(reg.streak(id), 3);
    // A reply on the connection's own queue is a delivery path too.
    assert!(!reg.send(id, &frame("reply")));
    assert_eq!(reg.streak(id), 4);
    // The client reads one frame: the next one gets through and clears the streak.
    assert_eq!(rx.try_recv().unwrap().as_str(), "1");
    assert!(reg.send(id, &frame("2")));
    assert_eq!(reg.streak(id), 0);
    assert_eq!(reg.metrics().frames_dropped.load(Ordering::Relaxed), 4);
    assert_eq!(reg.metrics().frames_sent.load(Ordering::Relaxed), 2);
}

#[test]
fn broadcast_reaches_subscribed_and_unsubscribed_alike() {
    let mut reg = Registry::new(Arc::new(Metrics::default()));
    let (tx1, mut rx1) = mpsc::channel(8);
    let (tx2, mut rx2) = mpsc::channel(8);
    let a = reg.add("a".into(), tx1);
    let _b = reg.add("b".into(), tx2);
    reg.subscribe(a, vec!["ch".into()], 10);
    assert_eq!(reg.broadcast(&frame("all")), 2);
    assert_eq!(rx1.try_recv().unwrap().as_str(), "all");
    assert_eq!(rx2.try_recv().unwrap().as_str(), "all");
    assert_eq!(reg.resync_all(), 2);
    assert_eq!(rx1.try_recv().unwrap().as_str(), r#"{"type":"resync"}"#);
    assert_eq!(rx2.try_recv().unwrap().as_str(), r#"{"type":"resync"}"#);
}

#[test]
fn resync_names_the_channels_to_their_subscribers() {
    let mut reg = Registry::new(Arc::new(Metrics::default()));
    let (tx1, mut rx1) = mpsc::channel(8);
    let (tx2, mut rx2) = mpsc::channel(8);
    let a = reg.add("a".into(), tx1);
    let b = reg.add("b".into(), tx2);
    reg.subscribe(a, vec!["x".into(), "y".into()], 10);
    reg.subscribe(b, vec!["z".into()], 10);
    assert_eq!(reg.resync(&["x", "y"]), 2, "one frame per channel subscribed");
    let text = r#"{"type":"resync","channels":["x","y"]}"#;
    assert_eq!(rx1.try_recv().unwrap().as_str(), text);
    assert_eq!(rx1.try_recv().unwrap().as_str(), text);
    assert!(rx2.try_recv().is_err());
}

#[test]
fn publish_data_builds_one_data_frame_for_every_subscriber() {
    let mut reg = Registry::new(Arc::new(Metrics::default()));
    let (tx1, mut rx1) = mpsc::channel(8);
    let (tx2, mut rx2) = mpsc::channel(8);
    let a = reg.add("a".into(), tx1);
    let b = reg.add("b".into(), tx2);
    reg.subscribe(a, vec!["t".into()], 10);
    reg.subscribe(b, vec!["t".into()], 10);
    let payload = RawJson::from_string(r#"{"last":1.5}"#.to_string()).unwrap();
    assert_eq!(reg.publish_data("t", &payload), 2);
    let text = r#"{"type":"data","channel":"t","payload":{"last":1.5}}"#;
    let fa = rx1.try_recv().unwrap();
    let fb = rx2.try_recv().unwrap();
    assert_eq!(fa.as_str(), text);
    assert_eq!(fa.as_str().as_ptr(), fb.as_str().as_ptr(), "serialised once, shared");
}

#[test]
fn ids_are_fresh_and_removal_is_idempotent() {
    let mut reg = Registry::new(Arc::new(Metrics::default()));
    assert!(reg.is_empty());
    assert!(reg.has_free_id());
    let (tx1, _rx1) = mpsc::channel(1);
    let (tx2, _rx2) = mpsc::channel(1);
    let a = reg.add("a".into(), tx1);
    reg.remove(a);
    let b = reg.add("b".into(), tx2);
    assert_ne!(a, b, "an id is never reused");
    reg.remove(a);
    assert_eq!(reg.len(), 1);
    assert_eq!(reg.metrics().connections_total.load(Ordering::Relaxed), 2);
    assert_eq!(reg.metrics().connections_active.load(Ordering::Relaxed), 1);
}

#[test]
fn a_closed_receiver_is_neither_sent_nor_dropped() {
    let mut reg = Registry::new(Arc::new(Metrics::default()));
    let (tx, rx) = mpsc::channel(1);
    let id = reg.add("gone".into(), tx);
    drop(rx);
    assert!(!reg.send(id, &frame("x")));
    assert_eq!(reg.streak(id), 0);
    assert_eq!(reg.metrics().frames_dropped.load(Ordering::Relaxed), 0);
    assert_eq!(reg.metrics().frames_sent.load(Ordering::Relaxed), 0);
}

#[test]
fn unknown_connections_are_ignored() {
    let mut reg = Registry::new(Arc::new(Metrics::default()));
    let (tx, _rx) = mpsc::channel(1);
    let id = reg.add("a".into(), tx);
    reg.remove(id);
    let (added, over) = reg.subscribe(id, vec!["x".into()], 10);
    assert!(added.is_empty() && over.is_empty());
    assert!(reg.unsubscribe(id, vec!["x".into()]).is_empty());
    assert!(!reg.send(id, &frame("x")));
    assert_eq!(reg.streak(id), 0);
}

#[test]
fn unsubscribe_undoes_subscribe() {
    let mut reg = Registry::new(Arc::new(Metrics::default()));
    let (tx, _rx) = mpsc::channel(8);
    let id = reg.add("a".into(), tx);
    reg.subscribe(id, vec!["kept".into()], 10);
    let (added, _) = reg.subscribe(id, vec!["x".into(), "y".into(), "x".into()], 10);
    assert_eq!(added, ["x", "y"]);
    assert_eq!(reg.unsubscribe(id, vec!["x".into(), "y".into(), "x".into()]), ["x", "y"]);
    assert_eq!(reg.subscribers("kept"), 1);
    assert_eq!(reg.subscribers("x"), 0);
    assert_eq!(reg.subscribers("y"), 0);
}

#[test]
fn publishing_keeps_subscriptions() {
    let mut reg = Registry::new(Arc::new(Metrics::default()));
    let (tx, _rx) = mpsc::channel(1);
    let id = reg.add("a".into(), tx);
    reg.subscribe(id, vec!["ch".into()], 10);
    for _ in 0..3 {
        reg.publish("ch", &frame("x"));
    }
    reg.broadcast(&frame("y"));
    assert_eq!(reg.subscribers("ch"), 1);
    assert_eq!(reg.len(), 1);
}

#[test]
fn counts_follow_add_and_remove() {
    let mut reg = Registry::new(Arc::new(Metrics::default()));
    let (tx1, _rx1) = mpsc::channel(1);
    let (tx2, _rx2) = mpsc::channel(1);
    let a = reg.add("a".into(), tx1);
    let b = reg.add("b".into(), tx2);
    reg.subscribe(a, vec!["ch".into()], 10);
    reg.subscribe(b, vec!["ch".into()], 10);
    assert!(reg.is_subscribed(a, "ch"));
    assert!(!reg.is_subscribed(a, "other"));
    assert_eq!(reg.len(), 2);
    assert_eq!(reg.subscribers("ch"), 2);
    reg.remove(a);
    assert!(!reg.is_subscribed(a, "ch"));
    assert_eq!(reg.len(), 1);
    assert_eq!(reg.subscribers("ch"), 1);
    reg.remove(a);
    assert_eq!(reg.len(), 1);
    assert_eq!(reg.metrics().connections_active.load(Ordering::Relaxed), 1);
}

#[test]
fn unsubscribing_what_was_added_restores() {
    let mut reg = Registry::new(Arc::new(Metrics::default()));
    let (tx, _rx) = mpsc::channel(1);
    let id = reg.add("a".into(), tx);
    reg.subscribe(id, vec!["held".into()], 10);
    let (added, _) = reg.subscribe(id, vec!["held".into(), "x".into(), "y".into()], 10);
    assert_eq!(added, ["x", "y"]);
    assert_eq!(reg.unsubscribe(id, added.clone()), added);
    assert!(reg.is_subscribed(id, "held"));
    assert_eq!(reg.subscribers("x"), 0);
    assert_eq!(reg.subscribers("held"), 1);
}
