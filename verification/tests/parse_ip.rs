use pool_telemetry::http::{advance_write, first_line, parse_ip};

#[test]
fn parses_a_dotted_quad() {
    let o = parse_ip(b"10.0.0.1").unwrap();
    assert_eq!((o.a, o.b, o.c, o.d), (10, 0, 0, 1));
    let o = parse_ip(b"255.255.255.255").unwrap();
    assert_eq!((o.a, o.b, o.c, o.d), (255, 255, 255, 255));
    let o = parse_ip(b"192.168.1.42").unwrap();
    assert_eq!((o.a, o.b, o.c, o.d), (192, 168, 1, 42));
}

#[test]
fn accepts_leading_zeros() {
    let o = parse_ip(b"010.002.000.001").unwrap();
    assert_eq!((o.a, o.b, o.c, o.d), (10, 2, 0, 1));
}

#[test]
fn rejects_wrong_part_counts() {
    assert!(parse_ip(b"").is_none());
    assert!(parse_ip(b"10").is_none());
    assert!(parse_ip(b"10.0.0").is_none());
    assert!(parse_ip(b"10.0.0.1.2").is_none());
}

#[test]
fn rejects_bad_octets() {
    assert!(parse_ip(b"10.0.0.256").is_none());
    assert!(parse_ip(b"10.0..1").is_none());
    assert!(parse_ip(b"10.0.0.").is_none());
    assert!(parse_ip(b".0.0.1").is_none());
    assert!(parse_ip(b"a.b.c.d").is_none());
    assert!(parse_ip(b"10.0.0.1 ").is_none());
    assert!(parse_ip(b"10.0.0.+1").is_none());
}

#[test]
fn rejects_huge_octet_without_overflowing() {
    assert!(parse_ip(b"10.0.0.99999999999999999999999999").is_none());
}

#[test]
fn write_progress_advances_by_accepted_bytes() {
    assert_eq!(advance_write(0, 10, 31), Some(10));
    assert_eq!(advance_write(10, 21, 31), Some(31));
    // A transport that accepts nothing, or claims more than remained,
    // aborts the cycle.
    assert_eq!(advance_write(10, 0, 31), None);
    assert_eq!(advance_write(30, 2, 31), None);
}

#[test]
fn first_line_of_a_response() {
    assert_eq!(first_line(b"HTTP/1.1 200 OK\r\nServer: x\r\n\r\n"), b"HTTP/1.1 200 OK");
    assert_eq!(first_line(b"HTTP/1.1 200 OK"), b"HTTP/1.1 200 OK");
    assert_eq!(first_line(b"ok\nmore"), b"ok");
    assert_eq!(first_line(b""), b"");
    assert_eq!(first_line(b"\r\n"), b"");
}
