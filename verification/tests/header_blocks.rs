use asynclib::errors::NodeError;
use asynclib::header::extract_header_block;

#[test]
fn extract_minimal_header_block() {
    let bytes = b"X-Test: 1\r\n\r\n";
    let block = extract_header_block(bytes).unwrap();
    assert_eq!(block, bytes.to_vec());
}

#[test]
fn extract_takes_prefix_through_first_empty_line() {
    let bytes = b"Host: a\r\n\r\ntrailing body bytes";
    let block = extract_header_block(bytes).unwrap();
    assert_eq!(block, b"Host: a\r\n\r\n".to_vec());
}

#[test]
fn extract_takes_first_of_two_delimiters() {
    let bytes = b"A\r\n\r\nB\r\n\r\n";
    let block = extract_header_block(bytes).unwrap();
    assert_eq!(block, b"A\r\n\r\n".to_vec());
}

#[test]
fn extract_delimiter_alone_is_a_block() {
    let bytes = b"\r\n\r\n";
    let block = extract_header_block(bytes).unwrap();
    assert_eq!(block, bytes.to_vec());
}

#[test]
fn extract_fails_without_empty_line() {
    let r = extract_header_block(b"X-Test: 1\r\n");
    assert_eq!(r.err(), Some(NodeError::ExtractionError));
}

#[test]
fn extract_fails_on_short_input() {
    assert_eq!(extract_header_block(b"\r\n").err(), Some(NodeError::ExtractionError));
    assert_eq!(extract_header_block(b"").err(), Some(NodeError::ExtractionError));
}
