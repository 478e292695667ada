use pool_telemetry::channel::{RecvOutcome, TempChannel, CHANNEL_CAPACITY, SUBSCRIBERS};
use pool_telemetry::sensors::{Reading, ReadingSet};

fn set(tag: i32) -> ReadingSet {
    ReadingSet {
        readings: vec![
            Reading { sensor_address: 0xA1, temperature_sixteenths: tag },
            Reading { sensor_address: 0xB2, temperature_sixteenths: tag + 1 },
        ],
    }
}

fn expect_message(r: RecvOutcome) -> ReadingSet {
    match r {
        RecvOutcome::Message(m) => m,
        RecvOutcome::Lagged(n) => panic!("unexpected lag of {}", n),
        RecvOutcome::Empty => panic!("unexpected empty channel"),
    }
}

#[test]
fn delivers_in_publish_order() {
    let mut ch = TempChannel::new(CHANNEL_CAPACITY, SUBSCRIBERS);
    ch.publish(set(10));
    ch.publish(set(20));
    let first = expect_message(ch.try_receive(0));
    assert_eq!(first.readings[0].temperature_sixteenths, 10);
    let second = expect_message(ch.try_receive(0));
    assert_eq!(second.readings[0].temperature_sixteenths, 20);
    assert!(matches!(ch.try_receive(0), RecvOutcome::Empty));
}

#[test]
fn empty_channel_has_nothing() {
    let mut ch = TempChannel::new(CHANNEL_CAPACITY, SUBSCRIBERS);
    assert!(matches!(ch.try_receive(0), RecvOutcome::Empty));
}

#[test]
fn overrun_reports_lag_then_most_recent_in_order() {
    // Publish k = 6 messages into a channel of capacity c = 4 with no
    // consumption: the next receive must report a lag of k - c = 2, and
    // draining must yield the 4 most recent messages in publish order.
    let mut ch = TempChannel::new(CHANNEL_CAPACITY, SUBSCRIBERS);
    for tag in 1..=6 {
        ch.publish(set(tag * 100));
    }
    match ch.try_receive(0) {
        RecvOutcome::Lagged(n) => assert_eq!(n, 2),
        _ => panic!("expected a lag notice"),
    }
    for tag in 3..=6 {
        let m = expect_message(ch.try_receive(0));
        assert_eq!(m.readings[0].temperature_sixteenths, tag * 100);
        assert_eq!(m.readings[1].temperature_sixteenths, tag * 100 + 1);
    }
    assert!(matches!(ch.try_receive(0), RecvOutcome::Empty));
}

#[test]
fn exact_capacity_causes_no_lag() {
    let mut ch = TempChannel::new(CHANNEL_CAPACITY, SUBSCRIBERS);
    for tag in 1..=4 {
        ch.publish(set(tag * 10));
    }
    for tag in 1..=4 {
        let m = expect_message(ch.try_receive(0));
        assert_eq!(m.readings[0].temperature_sixteenths, tag * 10);
    }
    assert!(matches!(ch.try_receive(0), RecvOutcome::Empty));
}

#[test]
fn lag_is_reported_once_then_delivery_resumes() {
    let mut ch = TempChannel::new(CHANNEL_CAPACITY, SUBSCRIBERS);
    for tag in 1..=5 {
        ch.publish(set(tag * 10));
    }
    match ch.try_receive(0) {
        RecvOutcome::Lagged(n) => assert_eq!(n, 1),
        _ => panic!("expected a lag notice"),
    }
    let m = expect_message(ch.try_receive(0));
    assert_eq!(m.readings[0].temperature_sixteenths, 20);
}
