use asynclib::address::parse_address;
use asynclib::errors::NodeError;

#[test]
fn parse_valid_loopback() {
    let a = parse_address("127.0.0.1:60000").unwrap();
    assert_eq!(a.host, b"127.0.0.1".to_vec());
    assert_eq!(a.port, 60000);
}

#[test]
fn parse_ephemeral_port() {
    let a = parse_address("127.0.0.1:0").unwrap();
    assert_eq!(a.host, b"127.0.0.1".to_vec());
    assert_eq!(a.port, 0);
}

#[test]
fn parse_rejects_garbage() {
    let r = parse_address("not-an-address");
    assert_eq!(r.err(), Some(NodeError::AddressError));
}

#[test]
fn parse_rejects_empty_host() {
    assert_eq!(parse_address(":80").err(), Some(NodeError::AddressError));
}

#[test]
fn parse_rejects_empty_port() {
    assert_eq!(parse_address("localhost:").err(), Some(NodeError::AddressError));
}

#[test]
fn parse_rejects_empty_string() {
    assert_eq!(parse_address("").err(), Some(NodeError::AddressError));
}

#[test]
fn parse_rejects_nondigit_port() {
    assert_eq!(parse_address("localhost:8a0").err(), Some(NodeError::AddressError));
}

#[test]
fn parse_rejects_port_above_sixteen_bits() {
    assert_eq!(parse_address("localhost:65536").err(), Some(NodeError::AddressError));
}

#[test]
fn parse_accepts_largest_port() {
    let a = parse_address("localhost:65535").unwrap();
    assert_eq!(a.port, 65535);
}

#[test]
fn parse_accepts_leading_zeros() {
    let a = parse_address("localhost:00080").unwrap();
    assert_eq!(a.port, 80);
}

#[test]
fn parse_splits_at_last_colon() {
    let a = parse_address("fe80::1:8080").unwrap();
    assert_eq!(a.host, b"fe80::1".to_vec());
    assert_eq!(a.port, 8080);
}

#[test]
fn endpoint_eq_compares_host_and_port() {
    let a = parse_address("localhost:80").unwrap();
    let b = parse_address("localhost:80").unwrap();
    let c = parse_address("localhost:81").unwrap();
    let d = parse_address("example:80").unwrap();
    assert!(a.endpoint_eq(&b));
    assert!(!a.endpoint_eq(&c));
    assert!(!a.endpoint_eq(&d));
}
