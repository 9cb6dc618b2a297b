//! Frame relay core: a message-oriented broadcast server that fans rendered
//! frames out to connected viewer clients.
//!
//! The library holds the verified logic of the relay: the wire codec for the
//! control protocol, the payload relay that substitutes a staging-file pointer
//! for a raw frame, the per-connection session state machine, and the
//! broadcast server's client registry. The network and filesystem edges live
//! outside the library and drive these state machines with plain values.

pub mod protocol;
pub mod relay;
pub mod server;
pub mod session;
pub mod util;

use vstd::prelude::*;

verus! {

/// The relay never delivers a raw `Data` frame to a client channel: every
/// outbound message is either not a `Data` at all or has been rewritten to a
/// `DataLocation` pointer first.
pub open spec fn wire_safe(m: protocol::MessageModel) -> bool {
    !(m is Data)
}

} // verus!
