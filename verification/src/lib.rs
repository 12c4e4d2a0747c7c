//! Reliability and flow-control layer over an unreliable datagram transport.
//!
//! Provides per-packet sequencing, selective acknowledgements in a sliding
//! bitfield, fragmentation and reassembly of oversized payloads, heartbeat
//! and timeout liveness, and network-quality estimation.

pub mod channel;
pub mod error;
pub mod network_info;
pub mod packet;
pub mod protocol;
pub mod reassembly_fragment;
pub mod remote_connection;
pub mod sequence_buffer;
pub mod timer;

pub use timer::Timer;
