use vstd::prelude::*;

verus! {

/// Failures the node reports to its caller or records per connection.
///
/// Per-connection failures (`AcceptError`, `ExtractionError`) are isolated:
/// they never change the node's lifecycle state. Only `start` and `stop`
/// report an error to the caller.
#[derive(Clone, Copy, Debug, PartialEq, Eq, Structural)]
pub enum NodeError {
    /// The address was malformed, or the endpoint is already bound.
    /// Fails `start`; no node context is created.
    AddressError,
    /// One inbound connection could not be accepted; the node keeps
    /// listening.
    AcceptError,
    /// One connection's bytes held no complete header block; that connection
    /// is closed without a delivery and the node keeps listening.
    ExtractionError,
    /// Teardown could not fully release a resource; the handle is still
    /// consumed.
    ShutdownError,
}

} // verus!
