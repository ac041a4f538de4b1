use asynclib::errors::NodeError;
use asynclib::header::extract_header_block;
use asynclib::registry::{NodeHandle, NodeRegistry};
use asynclib::sink::RecordingSink;

#[test]
fn start_returns_a_live_handle() {
    let mut reg = NodeRegistry::new();
    let h = reg.start("127.0.0.1:60000", RecordingSink::new()).unwrap();
    assert_eq!(h.id, 0);
    assert!(reg.stop(h).is_ok());
}

#[test]
fn bad_address_creates_no_context() {
    let mut reg = NodeRegistry::<RecordingSink>::new();
    let r = reg.start("not-an-address", RecordingSink::new());
    assert_eq!(r.err(), Some(NodeError::AddressError));
    assert_eq!(reg.slots.len(), 0);
}

#[test]
fn bound_endpoint_is_refused() {
    let mut reg = NodeRegistry::new();
    let h = reg.start("127.0.0.1:60000", RecordingSink::new()).unwrap();
    let again = reg.start("127.0.0.1:60000", RecordingSink::new());
    assert_eq!(again.err(), Some(NodeError::AddressError));
    assert!(reg.stop(h).is_ok());
}

#[test]
fn stop_with_zero_connections_releases_endpoint() {
    let mut reg = NodeRegistry::new();
    let h = reg.start("127.0.0.1:60000", RecordingSink::new()).unwrap();
    let sink = reg.stop(h).unwrap();
    assert_eq!(sink.received.len(), 0);
    // The endpoint is free again: a second start on the same address succeeds.
    let h2 = reg.start("127.0.0.1:60000", RecordingSink::new()).unwrap();
    assert!(reg.stop(h2).is_ok());
}

#[test]
fn minimal_header_session() {
    let mut reg = NodeRegistry::new();
    let h = reg.start("127.0.0.1:0", RecordingSink::new()).unwrap();
    let slot = h.id;
    let conn = reg.accept_connection(slot).unwrap();
    let wire = b"X-Test: 1\r\n\r\n";
    let block = extract_header_block(wire).unwrap();
    assert!(reg.header_extracted(slot, conn, &block));
    // Exactly once: a second extraction for the same connection delivers
    // nothing.
    assert!(!reg.header_extracted(slot, conn, &block));
    let sink = reg.stop(h).unwrap();
    assert_eq!(sink.received.len(), 1);
    assert_eq!(sink.received[0], wire.to_vec());
    // After stop the slot is vacant: a further connection attempt is refused.
    assert!(reg.accept_connection(slot).is_none());
}

#[test]
fn stale_handle_is_refused() {
    let mut reg = NodeRegistry::new();
    let h = reg.start("127.0.0.1:60000", RecordingSink::new()).unwrap();
    let stale = NodeHandle { id: h.id, generation: h.generation };
    reg.stop(h).unwrap();
    // The slot was vacated and its generation retired: the copy no longer
    // refers to a running node.
    let r = reg.stop(stale);
    assert_eq!(r.err(), Some(NodeError::ShutdownError));
    // A reused slot gets a fresh generation, so the copy stays dead.
    let h2 = reg.start("127.0.0.1:60000", RecordingSink::new()).unwrap();
    let stale2 = NodeHandle { id: h2.id, generation: h2.generation.wrapping_sub(1) };
    assert_eq!(reg.stop(stale2).err(), Some(NodeError::ShutdownError));
    assert!(reg.stop(h2).is_ok());
}

#[test]
fn accept_refused_on_vacant_slot() {
    let mut reg = NodeRegistry::<RecordingSink>::new();
    assert!(reg.accept_connection(0).is_none());
    assert!(!reg.header_extracted(0, 0, b"X: 1\r\n\r\n"));
}

#[test]
fn two_nodes_run_independently() {
    let mut reg = NodeRegistry::new();
    let ha = reg.start("127.0.0.1:60000", RecordingSink::new()).unwrap();
    let hb = reg.start("127.0.0.1:60001", RecordingSink::new()).unwrap();
    let conn = reg.accept_connection(ha.id).unwrap();
    assert!(reg.header_extracted(ha.id, conn, b"A: 1\r\n\r\n"));
    let sink_b = reg.stop(hb).unwrap();
    assert_eq!(sink_b.received.len(), 0);
    let sink_a = reg.stop(ha).unwrap();
    assert_eq!(sink_a.received.len(), 1);
}
