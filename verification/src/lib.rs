//! Core of a minimal asynchronous network node: the lifecycle state machine
//! that governs `Created -> Listening -> Draining -> Stopped`, the handle
//! registry that hands out opaque node handles, the dispatch rules that
//! deliver each extracted header block to the registered callback exactly
//! once per connection, and the small parsers the node needs (the textual
//! `host:port` address and the CRLF-delimited header block).
//!
//! All socket, thread and terminal work lives outside this crate; the code
//! here decides, for every event the outside shell reports (a connection
//! accepted, a header block extracted, a stop request), what the node does
//! next, and proves the lifecycle and delivery guarantees about it.

pub mod address;
pub mod errors;
pub mod header;
pub mod lifecycle;
pub mod node;
pub mod registry;
pub mod sink;
