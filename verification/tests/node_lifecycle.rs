use asynclib::address::parse_address;
use asynclib::lifecycle::LifecycleState;
use asynclib::node::Node;
use asynclib::sink::RecordingSink;

fn listening_node() -> Node<RecordingSink> {
    let addr = parse_address("127.0.0.1:60000").unwrap();
    let mut node = Node::new(addr, RecordingSink::new());
    node.start_listening();
    node
}

#[test]
fn lifecycle_walk_without_connections() {
    let addr = parse_address("127.0.0.1:60000").unwrap();
    let mut node = Node::new(addr, RecordingSink::new());
    assert_eq!(node.state, LifecycleState::Created);
    node.start_listening();
    assert_eq!(node.state, LifecycleState::Listening);
    node.request_stop();
    assert_eq!(node.state, LifecycleState::Draining);
    node.finish_stop();
    assert_eq!(node.state, LifecycleState::Stopped);
    assert_eq!(node.sink.count(), 0);
}

#[test]
fn accept_refused_before_listening() {
    let addr = parse_address("127.0.0.1:60000").unwrap();
    let mut node = Node::new(addr, RecordingSink::new());
    assert!(node.accept_connection().is_none());
}

#[test]
fn accepted_connections_get_fresh_identifiers() {
    let mut node = listening_node();
    assert_eq!(node.accept_connection(), Some(0));
    assert_eq!(node.accept_connection(), Some(1));
    assert_eq!(node.accept_connection(), Some(2));
}

#[test]
fn delivers_exactly_once_per_connection() {
    let mut node = listening_node();
    let conn = node.accept_connection().unwrap();
    let block = b"X-Test: 1\r\n\r\n";
    assert!(node.header_extracted(conn, block));
    assert!(!node.header_extracted(conn, block));
    assert_eq!(node.sink.count(), 1);
    assert_eq!(node.sink.received[0], block.to_vec());
}

#[test]
fn failed_extraction_delivers_nothing() {
    let mut node = listening_node();
    let conn = node.accept_connection().unwrap();
    node.extraction_failed(conn);
    assert!(!node.header_extracted(conn, b"late\r\n\r\n"));
    assert_eq!(node.sink.count(), 0);
}

#[test]
fn unknown_connection_is_never_delivered() {
    let mut node = listening_node();
    assert!(!node.header_extracted(7, b"X: 1\r\n\r\n"));
    assert_eq!(node.sink.count(), 0);
}

#[test]
fn no_callback_after_stop_requested() {
    let mut node = listening_node();
    let conn = node.accept_connection().unwrap();
    node.request_stop();
    // The extraction raced the stop and finished late: no delivery.
    assert!(!node.header_extracted(conn, b"X: 1\r\n\r\n"));
    // No new connection is accepted while draining.
    assert!(node.accept_connection().is_none());
    node.finish_stop();
    assert!(node.accept_connection().is_none());
    assert_eq!(node.sink.count(), 0);
}

#[test]
fn delivery_order_is_dispatch_order() {
    let mut node = listening_node();
    let first = node.accept_connection().unwrap();
    let second = node.accept_connection().unwrap();
    let block_b = b"B: 2\r\n\r\n";
    let block_a = b"A: 1\r\n\r\n";
    assert!(node.header_extracted(second, block_b));
    assert!(node.header_extracted(first, block_a));
    assert_eq!(node.sink.received.len(), 2);
    assert_eq!(node.sink.received[0], block_b.to_vec());
    assert_eq!(node.sink.received[1], block_a.to_vec());
}
