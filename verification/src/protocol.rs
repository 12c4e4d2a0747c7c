//! The security-service capability.
//!
//! Every datagram is wrapped before it is sent and unwrapped after it is
//! received.  The service is opaque to the core: either call may fail, and
//! a failure drops the datagram in hand.

use crate::error::RenetError;
use vstd::prelude::*;

verus! {

/// Wraps outbound datagrams and unwraps inbound ones.
pub trait SecurityService {
    /// Envelopes `data` for the wire.
    fn ss_wrap(&mut self, data: &[u8]) -> Result<Vec<u8>, RenetError>;

    /// Opens an envelope received from the wire.
    fn ss_unwrap(&mut self, data: &[u8]) -> Result<Vec<u8>, RenetError>;
}

} // verus!
