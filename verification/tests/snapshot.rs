//! Snapshots on subscribe.

use ws_fanout::protocol::RawJson;
use ws_fanout::snapshot::{LastValue, NoSnapshots, SnapshotSource};

fn raw(s: &str) -> RawJson {
    RawJson::from_string(s.to_string()).unwrap()
}

#[test]
fn last_value_serves_the_latest() {
    let mut s = LastValue::new();
    assert!(s.snapshot("t").is_none());
    s.record("t", &raw("1"));
    s.record("t", &raw("2"));
    assert_eq!(s.snapshot("t").unwrap().get(), "2");
}

#[test]
fn last_value_keeps_channels_apart() {
    let mut s = LastValue::default();
    s.record("a", &raw("1"));
    s.record("b", &raw(r#"{"x":true}"#));
    s.record("a", &raw("3"));
    assert_eq!(s.snapshot("a").unwrap().get(), "3");
    assert_eq!(s.snapshot("b").unwrap().get(), r#"{"x":true}"#);
    assert!(s.snapshot("c").is_none());
}

#[test]
fn no_snapshots_has_none() {
    assert!(NoSnapshots.snapshot("anything").is_none());
}
