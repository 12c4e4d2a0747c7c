//! Error taxonomy of the reliability layer.
//!
//! Per-datagram errors are local and leave the connection healthy; only a
//! peer-signalled connection error (or an observed timeout) kills it.

use vstd::prelude::*;

verus! {

/// A malformed or inconsistent fragment.
#[derive(Clone, Copy, Debug, PartialEq, Eq, Structural)]
pub enum FragmentError {
    /// A payload would need more fragments than the configured maximum,
    /// or a fragment announces more than that maximum.
    ExceededMaxFragments,
    /// A fragment announces a total that differs from the stored total.
    MismatchedTotal,
    /// A fragment id at or past the announced total.
    InvalidFragmentId,
    /// A fragment whose payload size disagrees with the configured
    /// fragment size for its position.
    InvalidFragmentSize,
}

/// Everything the connection can report.
#[derive(Clone, Copy, Debug, PartialEq, Eq, Structural)]
pub enum RenetError {
    /// Codec failure on send or receive; one datagram is dropped.
    SerializationFailed,
    /// The caller handed an oversize payload; the connection stays healthy.
    MaximumPacketSizeExceeded,
    /// A malformed fragment; the datagram is dropped.
    Fragment(FragmentError),
    /// The security service refused to wrap or unwrap; the datagram is dropped.
    SecurityError,
    /// The peer signalled termination with the given code; the connection dies.
    ConnectionError(u32),
}

} // verus!
