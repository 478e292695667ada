use pool_telemetry::http::{create_http_post_request, create_json_payload, format_temperature};
use pool_telemetry::sensors::Reading;

fn reading(addr: u64, sixteenths: i32) -> Reading {
    Reading { sensor_address: addr, temperature_sixteenths: sixteenths }
}

#[test]
fn formats_positive_temperature() {
    assert_eq!(format_temperature(23 * 16 + 8), "23.5");
    assert_eq!(format_temperature(24 * 16 + 2), "24.125");
    assert_eq!(format_temperature(125 * 16), "125.0");
    assert_eq!(format_temperature(0), "0.0");
    assert_eq!(format_temperature(1), "0.0625");
}

#[test]
fn formats_negative_temperature() {
    assert_eq!(format_temperature(-(10 * 16 + 1)), "-10.0625");
    assert_eq!(format_temperature(-(55 * 16 + 8)), "-55.5");
    assert_eq!(format_temperature(-1), "-0.0625");
}

#[test]
fn formatting_matches_shortest_float_text() {
    // The sensor's fixed-point step is 1/16 of a degree; over the whole
    // plausible range the exact decimal expansion must agree with the
    // shortest round-trip text of the corresponding 32-bit float.
    let mut buffer = ryu::Buffer::new();
    for k in -2000i32..=2000i32 {
        let f = k as f32 / 16.0;
        let expected = buffer.format(f);
        assert_eq!(format_temperature(k), expected, "at {} sixteenths", k);
    }
}

#[test]
fn round_trips_to_identical_floats() {
    for &k in &[23 * 16 + 8, 24 * 16 + 2, -1, 0, 125 * 16, -(55 * 16 + 8), 7] {
        let text = format_temperature(k);
        let parsed: f32 = text.parse().unwrap();
        let original = k as f32 / 16.0;
        assert_eq!(parsed.to_bits(), original.to_bits(), "at {} sixteenths", k);
    }
}

#[test]
fn payload_two_sensors() {
    let readings = vec![reading(0xA1, 23 * 16 + 8), reading(0xB2, 24 * 16 + 2)];
    let payload = create_json_payload(&readings).unwrap();
    assert_eq!(payload, "{ \"temperature\": [23.5,24.125]}");
}

#[test]
fn payload_round_trips_each_value() {
    let values = [23 * 16 + 8, -(10 * 16 + 1), 0, 1];
    let readings: Vec<Reading> =
        values.iter().enumerate().map(|(i, &v)| reading(i as u64, v)).collect();
    let payload = create_json_payload(&readings).unwrap();
    let inner = payload
        .strip_prefix("{ \"temperature\": [")
        .unwrap()
        .strip_suffix("]}")
        .unwrap();
    let parsed: Vec<f32> = inner.split(',').map(|t| t.parse().unwrap()).collect();
    assert_eq!(parsed.len(), values.len());
    for (i, &v) in values.iter().enumerate() {
        assert_eq!(parsed[i].to_bits(), (v as f32 / 16.0).to_bits());
    }
}

#[test]
fn end_to_end_two_sensors() {
    // Two discovered sensors, read in discovery order.
    let readings = vec![reading(0xA1, 23 * 16 + 8), reading(0xB2, 24 * 16 + 2)];
    let request = create_http_post_request(&readings).unwrap();
    let payload = "{ \"temperature\": [23.5,24.125]}";
    let expected = format!(
        "POST /data HTTP/1.1\r\nContent-Type: application/json\r\nContent-Length: {}\r\n\r\n{}",
        payload.len(),
        payload
    );
    assert_eq!(request, expected);
}

fn content_length_of(request: &str) -> (usize, usize) {
    // (header value, actual byte length of what follows the blank line)
    let mut parts = request.splitn(2, "\r\n\r\n");
    let head = parts.next().unwrap();
    let body = parts.next().unwrap();
    let value = head
        .lines()
        .find_map(|l| l.strip_prefix("Content-Length: "))
        .unwrap()
        .parse()
        .unwrap();
    (value, body.as_bytes().len())
}

#[test]
fn content_length_matches_payload_bytes() {
    let cases: Vec<Vec<Reading>> = vec![
        vec![reading(1, 23 * 16 + 8)],
        vec![reading(1, -(10 * 16 + 1))],
        vec![reading(1, 23 * 16 + 8), reading(2, 24 * 16 + 2)],
        vec![reading(1, -(55 * 16 + 8)), reading(2, -1)],
        vec![reading(1, 0), reading(2, 125 * 16)],
    ];
    for readings in cases {
        let request = create_http_post_request(&readings).unwrap();
        let (value, body_len) = content_length_of(&request);
        assert_eq!(value, body_len);
        let payload = create_json_payload(&readings).unwrap();
        assert_eq!(value, payload.as_bytes().len());
    }
}

#[test]
fn formats_extreme_fixed_point_values() {
    // The whole i32 range is formatted exactly, without overflow.
    assert_eq!(format_temperature(i32::MIN), "-134217728.0");
    assert_eq!(format_temperature(i32::MAX), "134217727.9375");
}
