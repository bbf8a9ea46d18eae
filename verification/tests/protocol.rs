//! How server messages are written as frames.

use tokio_tungstenite::tungstenite::Message;
use ws_fanout::protocol::{Frame, RawJson, Rejected, ServerMessage};

#[test]
fn data_frame_embeds_payload_verbatim() {
    let payload = RawJson::from_string(r#"{"bid":1,"ask":2}"#.to_string()).unwrap();
    let frame = ServerMessage::Data {
        channel: "ticker:x",
        payload: &payload,
    }
    .to_frame();
    assert_eq!(
        frame.as_str(),
        r#"{"type":"data","channel":"ticker:x","payload":{"bid":1,"ask":2}}"#
    );
}

#[test]
fn subscribed_omits_empty_rejections() {
    let frame = ServerMessage::Subscribed {
        channels: &["a".to_string()],
        rejected: vec![],
    }
    .to_frame();
    assert_eq!(frame.as_str(), r#"{"type":"subscribed","channels":["a"]}"#);

    let frame = ServerMessage::Subscribed {
        channels: &[],
        rejected: vec![Rejected {
            channel: "b",
            reason: "unauthorized",
        }],
    }
    .to_frame();
    assert!(frame
        .as_str()
        .contains(r#""rejected":[{"channel":"b","reason":"unauthorized"}]"#));
}

#[test]
fn a_frame_is_sent_without_copying_its_json() {
    let frame = ServerMessage::Pong { timestamp: 7 }.to_frame();
    let Message::Text(text) = frame.to_message() else {
        panic!("a frame is always a text message")
    };
    assert_eq!(
        frame.as_str().as_ptr(),
        text.as_str().as_ptr(),
        "the message must share the frame's buffer; one copy per subscriber is the \
         cost this type exists to avoid"
    );
}

#[test]
fn resync_omits_empty_channel_list() {
    assert_eq!(
        ServerMessage::Resync { channels: vec![] }
            .to_frame()
            .as_str(),
        r#"{"type":"resync"}"#
    );
}

#[test]
fn every_message_kind_has_its_exact_text() {
    assert_eq!(
        ServerMessage::Authenticated { subject: "al\"ice" }.to_frame().as_str(),
        r#"{"type":"authenticated","subject":"al\"ice"}"#
    );
    assert_eq!(
        ServerMessage::Unsubscribed {
            channels: &["a".to_string(), "b".to_string()]
        }
        .to_frame()
        .as_str(),
        r#"{"type":"unsubscribed","channels":["a","b"]}"#
    );
    assert_eq!(
        ServerMessage::Unsubscribed { channels: &[] }.to_frame().as_str(),
        r#"{"type":"unsubscribed","channels":[]}"#
    );
    let snap = RawJson::from_string("[1, 2]".to_string()).unwrap();
    assert_eq!(
        ServerMessage::Snapshot {
            channel: "book",
            payload: &snap
        }
        .to_frame()
        .as_str(),
        r#"{"type":"snapshot","channel":"book","payload":[1, 2]}"#
    );
    assert_eq!(
        ServerMessage::Resync {
            channels: vec!["x", "y"]
        }
        .to_frame()
        .as_str(),
        r#"{"type":"resync","channels":["x","y"]}"#
    );
    assert_eq!(
        ServerMessage::Pong { timestamp: 0 }.to_frame().as_str(),
        r#"{"type":"pong","timestamp":0}"#
    );
    assert_eq!(
        ServerMessage::Pong { timestamp: u64::MAX }.to_frame().as_str(),
        r#"{"type":"pong","timestamp":18446744073709551615}"#
    );
    assert_eq!(
        ServerMessage::Error {
            code: "protocol",
            message: "line\nbreak".to_string()
        }
        .to_frame()
        .as_str(),
        r#"{"type":"error","code":"protocol","message":"line\nbreak"}"#
    );
}

#[test]
fn subscribed_lists_every_rejection_in_order() {
    let frame = ServerMessage::Subscribed {
        channels: &["a".to_string(), "c".to_string()],
        rejected: vec![
            Rejected {
                channel: "b",
                reason: "unauthorized",
            },
            Rejected {
                channel: "d",
                reason: "limit",
            },
        ],
    }
    .to_frame();
    assert_eq!(
        frame.as_str(),
        r#"{"type":"subscribed","channels":["a","c"],"rejected":[{"channel":"b","reason":"unauthorized"},{"channel":"d","reason":"limit"}]}"#
    );
}

#[test]
fn raw_json_accepts_one_value_only() {
    assert!(RawJson::from_string("{not json".to_string()).is_none());
    assert!(RawJson::from_string("1 2".to_string()).is_none());
    assert!(RawJson::from_string(String::new()).is_none());
    assert_eq!(RawJson::from_string("null".to_string()).unwrap().get(), "null");
    assert_eq!(RawJson::from_string("  [1, 2] \n".to_string()).unwrap().get(), "[1, 2]");
    assert_eq!(
        RawJson::from_string(r#"{"a":[1,2,{"b":null}]}"#.to_string())
            .unwrap()
            .get(),
        r#"{"a":[1,2,{"b":null}]}"#
    );
}

#[test]
fn a_frame_holds_the_text_it_was_made_from() {
    let f = Frame::from_text("{\"type\":\"pong\",\"timestamp\":1}".to_string());
    assert_eq!(f.as_str(), "{\"type\":\"pong\",\"timestamp\":1}");
    assert_eq!(f.clone().as_str(), f.as_str());
}

#[test]
fn raw_json_takes_over_a_raw_value_as_it_is() {
    let raw = serde_json::value::to_raw_value(&serde_json::Value::from(vec![1, 2])).unwrap();
    assert_eq!(RawJson::from_raw(raw).get(), "[1,2]");
    let checked = serde_json::value::RawValue::from_string(" {\"a\": 1} ".to_string()).unwrap();
    assert_eq!(RawJson::from_raw(checked).get(), "{\"a\": 1}");
}

#[test]
fn control_characters_are_escaped_as_serde_json_does() {
    assert_eq!(
        ServerMessage::Error {
            code: "protocol",
            message: "a\u{1}b\u{8}\u{c}\t\r\\\"/\u{7f}é".to_string()
        }
        .to_frame()
        .as_str(),
        "{\"type\":\"error\",\"code\":\"protocol\",\"message\":\"a\\u0001b\\b\\f\\t\\r\\\\\\\"/\u{7f}é\"}"
    );
}
