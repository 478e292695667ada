use pool_telemetry::retry::{RetryPolicy, BUS_ATTEMPTS, BUS_BACKOFF_MS};
use pool_telemetry::sensors::{
    build_reading_set, find_devices, BusScan, DiscoveryError, SensorHandle,
};

const FAMILY: u8 = 0x28;

fn addr(n: u64) -> u64 {
    // An address whose family code (least-significant byte) matches.
    (n << 8) | FAMILY as u64
}

fn other(n: u64) -> u64 {
    // An address of some other device family.
    (n << 8) | 0x10
}

#[test]
fn discovers_exactly_two_sensors() {
    let scan = BusScan { addresses: vec![addr(1), other(7), addr(2)], failed: false };
    let handles = find_devices(&scan, FAMILY).unwrap();
    assert_eq!(handles.len(), 2);
    assert_eq!(handles[0].address, addr(1));
    assert_eq!(handles[1].address, addr(2));
}

#[test]
fn search_fault_is_a_hard_failure() {
    // Two matches were already found, but the search then faulted: the
    // partial progress is discarded.
    let scan = BusScan { addresses: vec![addr(1), addr(2)], failed: true };
    assert_eq!(find_devices(&scan, FAMILY), Err(DiscoveryError::Bus));
}

#[test]
fn wrong_count_is_a_failure() {
    let one = BusScan { addresses: vec![addr(1), other(2)], failed: false };
    assert_eq!(find_devices(&one, FAMILY), Err(DiscoveryError::WrongCount));
    let none = BusScan { addresses: vec![], failed: false };
    assert_eq!(find_devices(&none, FAMILY), Err(DiscoveryError::WrongCount));
}

#[test]
fn excess_matches_are_discarded() {
    let scan = BusScan { addresses: vec![addr(1), addr(2), addr(3)], failed: false };
    let handles = find_devices(&scan, FAMILY).unwrap();
    assert_eq!(handles.len(), 2);
    assert_eq!(handles[0].address, addr(1));
    assert_eq!(handles[1].address, addr(2));
}

#[test]
fn excess_matches_stop_the_search_before_a_trailing_fault() {
    // The search is abandoned as soon as one match more than the capacity
    // appears, so a fault that would only be reached later is never seen.
    let scan = BusScan { addresses: vec![addr(1), addr(2), addr(3)], failed: true };
    let handles = find_devices(&scan, FAMILY).unwrap();
    assert_eq!(handles.len(), 2);
}

#[test]
fn retry_policy_grants_three_attempts() {
    let policy = RetryPolicy::bus();
    assert_eq!(policy.max_attempts, BUS_ATTEMPTS);
    assert_eq!(policy.backoff_ms, BUS_BACKOFF_MS);
    assert!(policy.may_attempt(0));
    assert!(policy.may_attempt(1));
    assert!(policy.may_attempt(2));
    assert!(!policy.may_attempt(3));
}

#[test]
fn complete_cycle_builds_the_set_in_order() {
    let handles = vec![SensorHandle { address: addr(1) }, SensorHandle { address: addr(2) }];
    let temps = vec![Some(23 * 16 + 8), Some(24 * 16 + 2)];
    let rs = build_reading_set(&handles, &temps).unwrap();
    assert_eq!(rs.readings.len(), 2);
    assert_eq!(rs.readings[0].sensor_address, addr(1));
    assert_eq!(rs.readings[0].temperature_sixteenths, 23 * 16 + 8);
    assert_eq!(rs.readings[1].sensor_address, addr(2));
    assert_eq!(rs.readings[1].temperature_sixteenths, 24 * 16 + 2);
}

#[test]
fn one_failed_sensor_discards_the_cycle() {
    let handles = vec![SensorHandle { address: addr(1) }, SensorHandle { address: addr(2) }];
    let temps = vec![Some(23 * 16 + 8), None];
    assert!(build_reading_set(&handles, &temps).is_none());
}
