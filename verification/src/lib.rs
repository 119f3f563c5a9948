//! Reverse-tunnel relay core: agents open one outbound TCP control
//! connection, the relay assigns each an unguessable public endpoint and
//! republishes it as an HTTP origin. This crate holds the verified logic:
//! the wire-framing codec, the per-agent session state, the session
//! registry, the request/reply correlator and the HTTP gateway decisions.

use vstd::prelude::*;

pub mod codec;
pub mod correlate;
pub mod gateway;
pub mod ids;
pub mod kv;
pub mod registry;
pub mod reply;
pub mod session;
pub mod text;

verus! {

/// A TCP or HTTP port number.
pub struct Port {
    pub num: u16,
}

impl Port {
    /// Wraps a port number. Numbers below 1024 need elevated rights to
    /// bind, but every value is accepted here, as binding is the
    /// caller's concern.
    pub fn new(port: u16) -> (p: Port)
        ensures
            p.num == port,
    {
        Port { num: port }
    }
}

} // verus!
