//! The shared-memory input path: bytes in a queue become frames for subscribers.

use std::sync::Arc;
use std::time::Duration;

use tokio::sync::mpsc;
use ws_fanout::outcry_source::{
    is_power_of_two, Decoded, Delivered, Idle, Polled, Source, INITIAL_BUFFER, SPIN_POLLS,
};
use ws_fanout::protocol::RawJson;
use ws_fanout::registry::{Metrics, Registry};

fn decode(bytes: &[u8]) -> Option<Decoded> {
    let text = std::str::from_utf8(bytes).ok()?;
    let (channel, payload) = text.split_once('\n')?;
    Some(Decoded {
        channel: channel.to_string(),
        payload: RawJson::from_string(payload.to_string())?,
    })
}

#[test]
fn frames_written_to_the_queue_reach_a_subscriber() {
    let queue = outcry::Queue::anon(1 << 16).unwrap();
    let mut producer = queue.producer().unwrap();
    let mut consumer = queue.consumer();

    let mut reg = Registry::new(Arc::new(Metrics::default()));
    let (tx, mut rx) = mpsc::channel(8);
    let id = reg.add("tester".into(), tx);
    reg.subscribe(id, vec!["q".into()], 10);

    producer.write(b"q\n{\"seq\":1}").unwrap();
    producer.write(b"other\n{\"seq\":2}").unwrap();
    producer.write(b"not a frame").unwrap();
    producer.write(b"q\n{\"seq\":3}").unwrap();

    let mut source = Source::new(Idle::Sleep(Duration::from_micros(100)));
    let mut published = Vec::new();
    loop {
        match source.poll(&mut consumer) {
            Polled::Frame(n) => {
                let decoded = decode(source.frame(n));
                if let Delivered::Published(k) = source.deliver(decoded, &mut reg) {
                    published.push(k);
                }
            }
            Polled::Spin => break,
            _ => panic!("the queue has only whole frames in it"),
        }
    }
    assert_eq!(published, [1, 0, 1]);
    assert_eq!(source.undecodable(), 1);
    assert_eq!(
        rx.try_recv().unwrap().as_str(),
        r#"{"type":"data","channel":"q","payload":{"seq":1}}"#
    );
    assert_eq!(
        rx.try_recv().unwrap().as_str(),
        r#"{"type":"data","channel":"q","payload":{"seq":3}}"#
    );
    assert!(rx.try_recv().is_err());
}

#[test]
fn an_idle_source_spins_then_sleeps() {
    let queue = outcry::Queue::anon(1 << 16).unwrap();
    let mut consumer = queue.consumer();
    let nap = Duration::from_micros(100);
    let mut source = Source::new(Idle::Sleep(nap));
    for _ in 0..SPIN_POLLS {
        assert!(matches!(source.poll(&mut consumer), Polled::Spin));
    }
    match source.poll(&mut consumer) {
        Polled::Sleep(d) => assert_eq!(d, nap),
        _ => panic!("past the spin budget an idle source sleeps"),
    }

    let mut spinner = Source::new(Idle::Spin);
    for _ in 0..(SPIN_POLLS + 5) {
        assert!(matches!(spinner.poll(&mut consumer), Polled::Spin));
    }
}

#[test]
fn a_frame_larger_than_the_buffer_grows_it() {
    let queue = outcry::Queue::anon(1 << 20).unwrap();
    let mut producer = queue.producer().unwrap();
    let mut consumer = queue.consumer();
    let big = vec![b'x'; INITIAL_BUFFER + 10];
    producer.write(&big).unwrap();

    let mut source = Source::new(Idle::Spin);
    assert_eq!(source.buffer().len(), INITIAL_BUFFER);
    assert!(matches!(source.poll(&mut consumer), Polled::Grown));
    assert_eq!(source.buffer().len(), INITIAL_BUFFER + 10);
    match source.poll(&mut consumer) {
        Polled::Frame(n) => {
            assert_eq!(n, big.len());
            assert_eq!(source.frame(n), &big[..]);
        }
        _ => panic!("the frame fits now"),
    }
}

#[test]
fn an_overrun_resyncs_the_reader() {
    let queue = outcry::Queue::anon(4096).unwrap();
    let mut producer = queue.producer().unwrap();
    let mut consumer = queue.consumer();
    for _ in 0..200 {
        producer.write(&[7u8; 100]).unwrap();
    }
    let mut source = Source::new(Idle::Spin);
    match source.poll(&mut consumer) {
        Polled::Resynced { behind, .. } => assert!(behind > 4096),
        _ => panic!("a reader lapped by the writer is overrun"),
    }
    assert!(matches!(source.poll(&mut consumer), Polled::Spin), "resynced to the head");
}

#[test]
fn rejected_frames_warn_at_powers_of_two() {
    let mut reg = Registry::new(Arc::new(Metrics::default()));
    let mut source = Source::new(Idle::Spin);
    let mut warned = Vec::new();
    for i in 1..=9u64 {
        if let Delivered::Rejected { warn: true } = source.deliver(None, &mut reg) {
            warned.push(i);
        }
    }
    assert_eq!(warned, [1, 2, 4, 8]);
    assert_eq!(source.undecodable(), 9);
}

#[test]
fn powers_of_two() {
    assert!(!is_power_of_two(0));
    assert!(is_power_of_two(1));
    assert!(is_power_of_two(2));
    assert!(!is_power_of_two(3));
    assert!(is_power_of_two(1 << 63));
    assert!(!is_power_of_two(u64::MAX));
    assert!(!is_power_of_two(6));
}
