//! The per-peer connection state machine.
//!
//! A `RemoteConnection` allocates a wrapping sequence number per outbound
//! payload, tracks sent and received packets in sliding sequence buffers,
//! acknowledges the 32 most recent inbound sequences on every outgoing
//! packet, routes acks back to the channels at most once each, fragments
//! and reassembles oversized payloads, keeps heartbeat and timeout timers,
//! and estimates round-trip time, bandwidth and loss.
//!
//! Time is a monotonic clock in microseconds supplied by the caller; the
//! datagrams returned by the send path are handed to the transport by the
//! driver.

use crate::channel::{Channel, ChannelPacketData, cpds_model, encode_channel_payload, decode_channel_payload, spec_decode_channel_payload};
use crate::error::{FragmentError, RenetError};
use crate::network_info::{NetworkInfo, spec_ewma, ewma};
use crate::packet::{AckData, HeartBeat, Normal, Packet, PacketModel, encode_packet, decode_packet, spec_decode_packet, lemma_packet_codec_round_trip};
use crate::protocol::SecurityService;
use crate::reassembly_fragment::{FragmentConfig, ReassemblyFragment, build_fragments, reassembly_wf, num_chunks, spec_chunk, updated_entry, spec_concat_from};
use crate::sequence_buffer::{SequenceBuffer, lemma_successor_insert_preserves_window, mask_matches, more_recent, nth_bit, stored, wrap16_add, wrap16_sub};
use vstd::arithmetic::power2::is_pow2;
use crate::timer::Timer;
use vstd::prelude::*;
use vstd::slice::slice_to_vec;

verus! {

/// Identifies a client on the outer server; unused by the core itself.
pub type ClientId = u64;

/// Bookkeeping for one sent packet: when and how large, and whether its
/// ack has been observed.
#[derive(Clone, Copy, Debug, PartialEq, Eq, Structural)]
pub struct SentPacket {
    pub time: u64,
    pub ack: bool,
    pub size_bytes: usize,
}

impl SentPacket {
    /// A freshly sent packet, not yet acknowledged.
    pub fn new(time: u64, size_bytes: usize) -> (r: SentPacket)
        ensures
            r == (SentPacket { time, size_bytes, ack: false }),
    {
        SentPacket { time, size_bytes, ack: false }
    }
}

/// Bookkeeping for one received sequence: when first seen, and how many
/// payload bytes arrived under it (fragments accumulate).
#[derive(Clone, Copy, Debug, PartialEq, Eq, Structural)]
pub struct ReceivedPacket {
    pub time: u64,
    pub size_bytes: usize,
}

impl ReceivedPacket {
    /// A first-seen inbound sequence.
    pub fn new(time: u64, size_bytes: usize) -> (r: ReceivedPacket)
        ensures
            r == (ReceivedPacket { time, size_bytes }),
    {
        ReceivedPacket { time, size_bytes }
    }
}

/// Connection parameters.
#[derive(Clone, Debug)]
pub struct ConnectionConfig {
    /// Payloads longer than this are rejected.
    pub max_packet_size: usize,
    /// Window width of the sent-packet tracker.
    pub sent_packets_buffer_size: usize,
    /// Window width of the received-packet tracker.
    pub received_packets_buffer_size: usize,
    /// Per-mille numerator of the smoothing factor.
    pub measure_smoothing_factor: u64,
    /// Microseconds without any inbound datagram before the connection is
    /// considered dead.
    pub timeout_duration: u64,
    /// Microseconds between heartbeats when no data packet goes out.
    pub heartbeat_time: u64,
    /// Fragmentation parameters.
    pub fragment_config: FragmentConfig,
}

impl ConnectionConfig {
    /// A usable configuration: window widths the sequence buffers can hold
    /// and wide enough for the quarter-width sampling windows, and a
    /// smoothing numerator of at most one thousand.
    pub open spec fn valid(self) -> bool {
        &&& 4 <= self.sent_packets_buffer_size <= 0x7fff
        &&& 4 <= self.received_packets_buffer_size <= 0x7fff
        &&& self.measure_smoothing_factor <= 1000
        &&& self.fragment_config.valid()
    }
}

impl Default for ConnectionConfig {
    /// 16 KiB packets, 256-wide windows, a 5% smoothing factor, a 5 s
    /// timeout and a 100 ms heartbeat.
    fn default() -> (r: ConnectionConfig)
        ensures
            r.max_packet_size == 16 * 1024,
            r.sent_packets_buffer_size == 256,
            r.received_packets_buffer_size == 256,
            r.measure_smoothing_factor == 50,
            r.timeout_duration == 5_000_000,
            r.heartbeat_time == 100_000,
            r.fragment_config == (FragmentConfig {
                fragment_above: 1024,
                fragment_size: 1024,
                max_fragments: 32,
                reassembly_buffer_size: 256,
            }),
            r.valid(),
    {
        ConnectionConfig {
            max_packet_size: 16 * 1024,
            sent_packets_buffer_size: 256,
            received_packets_buffer_size: 256,
            measure_smoothing_factor: 50,
            timeout_duration: 5_000_000,
            heartbeat_time: 100_000,
            fragment_config: FragmentConfig::default(),
        }
    }
}

/// Saturating addition on byte counts.
pub open spec fn sat_add_usize(a: usize, b: usize) -> usize {
    if a + b <= usize::MAX {
        (a + b) as usize
    } else {
        usize::MAX
    }
}

/// Whether bit `i` of an inbound ack mask newly acknowledges a tracked,
/// not-yet-acknowledged sent packet.
pub open spec fn ack_hit(b: SequenceBuffer<SentPacket>, ack: u16, bits: u32, i: int) -> bool {
    &&& nth_bit(bits, i as u32)
    &&& b.contains(wrap16_sub(ack, i as u16))
    &&& !b.value_at(wrap16_sub(ack, i as u16)).ack
}

/// The sequences newly acknowledged by bits `0..i`, in dispatch order.
pub open spec fn ack_delta(b: SequenceBuffer<SentPacket>, ack: u16, bits: u32, i: int) -> Seq<u16>
    decreases i,
{
    if i <= 0 {
        Seq::empty()
    } else {
        ack_delta(b, ack, bits, i - 1) + (if ack_hit(b, ack, bits, i - 1) {
            seq![wrap16_sub(ack, (i - 1) as u16)]
        } else {
            Seq::empty()
        })
    }
}

/// Whether sequence `t` is newly acknowledged by one of bits `0..i`.
pub open spec fn newly_acked_upto(
    b: SequenceBuffer<SentPacket>,
    ack: u16,
    bits: u32,
    t: u16,
    n: int,
) -> bool {
    exists|i: int| 0 <= i < n && #[trigger] ack_hit(b, ack, bits, i) && t == wrap16_sub(ack, i as u16)
}

/// Whether sequence `t` is newly acknowledged by the mask.
pub open spec fn newly_acked(b: SequenceBuffer<SentPacket>, ack: u16, bits: u32, t: u16) -> bool {
    newly_acked_upto(b, ack, bits, t, 32)
}

/// The round-trip-time metric after smoothing in the samples of the newly
/// acknowledged packets among bits `0..i`, in bit order.
pub open spec fn rtt_fold(
    b: SequenceBuffer<SentPacket>,
    ack: u16,
    bits: u32,
    now: u64,
    alpha: u64,
    rtt0: u64,
    i: int,
) -> u64
    decreases i,
{
    if i <= 0 {
        rtt0
    } else {
        let prev = rtt_fold(b, ack, bits, now, alpha, rtt0, i - 1);
        if ack_hit(b, ack, bits, i - 1) {
            let t = b.value_at(wrap16_sub(ack, (i - 1) as u16)).time;
            spec_ewma(
                prev,
                if now >= t {
                    (now - t) as u64
                } else {
                    0
                },
                alpha,
            )
        } else {
            prev
        }
    }
}

proof fn lemma_newly_upto_step(b: SequenceBuffer<SentPacket>, ack: u16, bits: u32, t: u16, i: int)
    requires
        0 <= i,
        !(ack_hit(b, ack, bits, i) && t == wrap16_sub(ack, i as u16)),
    ensures
        newly_acked_upto(b, ack, bits, t, i + 1) == newly_acked_upto(b, ack, bits, t, i),
{
}

/// How many packets in the sampling window of width `i` ending before the
/// head went unacknowledged (empty placeholder entries are skipped).
pub open spec fn window_dropped(b: SequenceBuffer<SentPacket>, base: u16, i: int) -> int
    decreases i,
{
    if i <= 0 {
        0
    } else {
        window_dropped(b, base, i - 1) + ({
            let t = wrap16_add(base, (i - 1) as u16);
            if b.contains(t) && b.value_at(t).size_bytes != 0 && !b.value_at(t).ack {
                1int
            } else {
                0int
            }
        })
    }
}

/// Total bytes of the tracked sent packets in the sampling window.
pub open spec fn window_sent_bytes(b: SequenceBuffer<SentPacket>, base: u16, i: int) -> int
    decreases i,
{
    if i <= 0 {
        0
    } else {
        window_sent_bytes(b, base, i - 1) + ({
            let t = wrap16_add(base, (i - 1) as u16);
            if b.contains(t) && b.value_at(t).size_bytes != 0 {
                b.value_at(t).size_bytes as int
            } else {
                0int
            }
        })
    }
}

/// The earliest send time in the sampling window, if any packet is there.
pub open spec fn window_sent_min(b: SequenceBuffer<SentPacket>, base: u16, i: int) -> Option<u64>
    decreases i,
{
    if i <= 0 {
        None
    } else {
        let prev = window_sent_min(b, base, i - 1);
        let t = wrap16_add(base, (i - 1) as u16);
        if b.contains(t) && b.value_at(t).size_bytes != 0 {
            match prev {
                None => Some(b.value_at(t).time),
                Some(m) => Some(
                    if b.value_at(t).time < m {
                        b.value_at(t).time
                    } else {
                        m
                    },
                ),
            }
        } else {
            prev
        }
    }
}

/// The latest send time in the sampling window, if any packet is there.
pub open spec fn window_sent_max(b: SequenceBuffer<SentPacket>, base: u16, i: int) -> Option<u64>
    decreases i,
{
    if i <= 0 {
        None
    } else {
        let prev = window_sent_max(b, base, i - 1);
        let t = wrap16_add(base, (i - 1) as u16);
        if b.contains(t) && b.value_at(t).size_bytes != 0 {
            match prev {
                None => Some(b.value_at(t).time),
                Some(m) => Some(
                    if b.value_at(t).time > m {
                        b.value_at(t).time
                    } else {
                        m
                    },
                ),
            }
        } else {
            prev
        }
    }
}

/// Total bytes of the tracked received packets in the sampling window.
pub open spec fn window_recv_bytes(b: SequenceBuffer<ReceivedPacket>, base: u16, i: int) -> int
    decreases i,
{
    if i <= 0 {
        0
    } else {
        window_recv_bytes(b, base, i - 1) + ({
            let t = wrap16_add(base, (i - 1) as u16);
            if b.contains(t) {
                b.value_at(t).size_bytes as int
            } else {
                0int
            }
        })
    }
}

/// The earliest receive time in the sampling window, if any entry is there.
pub open spec fn window_recv_min(b: SequenceBuffer<ReceivedPacket>, base: u16, i: int) -> Option<
    u64,
>
    decreases i,
{
    if i <= 0 {
        None
    } else {
        let prev = window_recv_min(b, base, i - 1);
        let t = wrap16_add(base, (i - 1) as u16);
        if b.contains(t) {
            match prev {
                None => Some(b.value_at(t).time),
                Some(m) => Some(
                    if b.value_at(t).time < m {
                        b.value_at(t).time
                    } else {
                        m
                    },
                ),
            }
        } else {
            prev
        }
    }
}

/// The latest receive time in the sampling window, if any entry is there.
pub open spec fn window_recv_max(b: SequenceBuffer<ReceivedPacket>, base: u16, i: int) -> Option<
    u64,
>
    decreases i,
{
    if i <= 0 {
        None
    } else {
        let prev = window_recv_max(b, base, i - 1);
        let t = wrap16_add(base, (i - 1) as u16);
        if b.contains(t) {
            match prev {
                None => Some(b.value_at(t).time),
                Some(m) => Some(
                    if b.value_at(t).time > m {
                        b.value_at(t).time
                    } else {
                        m
                    },
                ),
            }
        } else {
            prev
        }
    }
}

/// Kilobits per second carried by `bytes` bytes over `dt` microseconds,
/// saturating at the metric's ceiling.
pub open spec fn kbps_of(bytes: int, dt: int) -> u64 {
    if dt <= 0 {
        0
    } else if bytes * 8000 / dt > u64::MAX {
        u64::MAX
    } else {
        (bytes * 8000 / dt) as u64
    }
}

/// The quality estimates after one pass over the sent sampling window:
/// packet loss smoothed with the unacknowledged fraction of the window,
/// and, when the window spans time, outbound bandwidth smoothed with the
/// window's byte rate.  Everything else is untouched.
pub open spec fn spec_sent_estimates(
    b: SequenceBuffer<SentPacket>,
    cfg: ConnectionConfig,
    info: NetworkInfo,
) -> NetworkInfo {
    let sample = cfg.sent_packets_buffer_size as int / 4;
    let base = wrap16_add(wrap16_sub(b.head(), sample as u16), 1);
    let alpha = cfg.measure_smoothing_factor;
    let loss = window_dropped(b, base, sample) * 10000 / sample;
    let bw = match (window_sent_min(b, base, sample), window_sent_max(b, base, sample)) {
        (Some(t0), Some(t1)) => if t1 > t0 {
            Some(kbps_of(window_sent_bytes(b, base, sample), t1 - t0))
        } else {
            None
        },
        _ => None,
    };
    NetworkInfo {
        packet_loss: spec_ewma(info.packet_loss, loss as u64, alpha),
        sent_bandwidth_kbps: match bw {
            Some(sample_kbps) => spec_ewma(info.sent_bandwidth_kbps, sample_kbps, alpha),
            None => info.sent_bandwidth_kbps,
        },
        ..info
    }
}

/// The quality estimates after one pass over the received sampling window:
/// when the window spans time, inbound bandwidth is smoothed with the
/// window's byte rate; everything else is untouched.
pub open spec fn spec_recv_estimates(
    b: SequenceBuffer<ReceivedPacket>,
    cfg: ConnectionConfig,
    info: NetworkInfo,
) -> NetworkInfo {
    let sample = cfg.received_packets_buffer_size as int / 4;
    let base = wrap16_add(wrap16_sub(b.head(), sample as u16), 1);
    let alpha = cfg.measure_smoothing_factor;
    let bw = match (window_recv_min(b, base, sample), window_recv_max(b, base, sample)) {
        (Some(t0), Some(t1)) => if t1 > t0 {
            Some(kbps_of(window_recv_bytes(b, base, sample), t1 - t0))
        } else {
            None
        },
        _ => None,
    };
    NetworkInfo {
        received_bandwidth_kbps: match bw {
            Some(sample_kbps) => spec_ewma(info.received_bandwidth_kbps, sample_kbps, alpha),
            None => info.received_bandwidth_kbps,
        },
        ..info
    }
}

proof fn lemma_window_dropped_bound(b: SequenceBuffer<SentPacket>, base: u16, i: int)
    requires
        0 <= i,
    ensures
        0 <= window_dropped(b, base, i) <= i,
    decreases i,
{
    if i > 0 {
        lemma_window_dropped_bound(b, base, i - 1);
    }
}

proof fn lemma_window_sent_bytes_bound(b: SequenceBuffer<SentPacket>, base: u16, i: int)
    requires
        0 <= i,
    ensures
        0 <= window_sent_bytes(b, base, i) <= i * 0xffff_ffff_ffff_ffff,
    decreases i,
{
    if i > 0 {
        lemma_window_sent_bytes_bound(b, base, i - 1);
    }
}

proof fn lemma_window_recv_bytes_bound(b: SequenceBuffer<ReceivedPacket>, base: u16, i: int)
    requires
        0 <= i,
    ensures
        0 <= window_recv_bytes(b, base, i) <= i * 0xffff_ffff_ffff_ffff,
    decreases i,
{
    if i > 0 {
        lemma_window_recv_bytes_bound(b, base, i - 1);
    }
}

/// A sequence appears in the dispatch list of an inbound mask exactly when
/// one of the mask's bits newly acknowledges it.
pub proof fn lemma_ack_delta_membership(
    b: SequenceBuffer<SentPacket>,
    ack: u16,
    bits: u32,
    n: int,
    s: u16,
)
    ensures
        ack_delta(b, ack, bits, n).contains(s) <==> newly_acked_upto(b, ack, bits, s, n),
    decreases n,
{
    if n > 0 {
        lemma_ack_delta_membership(b, ack, bits, n - 1, s);
        if newly_acked_upto(b, ack, bits, s, n) && !newly_acked_upto(b, ack, bits, s, n - 1) {
            assert(ack_hit(b, ack, bits, n - 1) && s == wrap16_sub(ack, (n - 1) as u16));
            assert(ack_delta(b, ack, bits, n)[ack_delta(b, ack, bits, n).len() - 1] == s);
        }
        if ack_delta(b, ack, bits, n).contains(s) && !ack_delta(b, ack, bits, n - 1).contains(s) {
            let j = choose|j: int|
                0 <= j < ack_delta(b, ack, bits, n).len() && #[trigger] ack_delta(
                    b,
                    ack,
                    bits,
                    n,
                )[j] == s;
            if j < ack_delta(b, ack, bits, n - 1).len() {
                assert(ack_delta(b, ack, bits, n - 1)[j] == s);
            } else {
                assert(ack_hit(b, ack, bits, n - 1) && s == wrap16_sub(ack, (n - 1) as u16));
            }
        }
        if newly_acked_upto(b, ack, bits, s, n - 1) {
            let j = choose|j: int|
                0 <= j < ack_delta(b, ack, bits, n - 1).len() && #[trigger] ack_delta(
                    b,
                    ack,
                    bits,
                    n - 1,
                )[j] == s;
            assert(ack_delta(b, ack, bits, n)[j] == s);
        }
    }
}

/// The at-most-once ack dispatch law: a sequence that one inbound mask
/// newly acknowledged is marked acknowledged in the resulting sent tracker,
/// so no later mask can queue it for dispatch again as long as its entry
/// survives in the tracker.  Channels therefore see `process_ack` for a
/// tracked sequence at most once, however many datagrams acknowledge it.
pub proof fn lemma_ack_dispatched_at_most_once(
    b0: SequenceBuffer<SentPacket>,
    b1: SequenceBuffer<SentPacket>,
    ack1: u16,
    bits1: u32,
    ack2: u16,
    bits2: u32,
    s: u16,
)
    requires
        newly_acked(b0, ack1, bits1, s),
        forall|t: u16| #[trigger] b1.contains(t) == b0.contains(t),
        forall|t: u16|
            b0.contains(t) ==> #[trigger] b1.value_at(t) == (if newly_acked(b0, ack1, bits1, t) {
                SentPacket { ack: true, ..b0.value_at(t) }
            } else {
                b0.value_at(t)
            }),
    ensures
        ack_delta(b0, ack1, bits1, 32).contains(s),
        !ack_delta(b1, ack2, bits2, 32).contains(s),
{
    lemma_ack_delta_membership(b0, ack1, bits1, 32, s);
    lemma_ack_delta_membership(b1, ack2, bits2, 32, s);
    assert(b0.contains(s));
    assert(b1.value_at(s).ack);
    assert(!newly_acked_upto(b1, ack2, bits2, s, 32));
}

/// The connection to one remote peer, generic over the security service
/// and the channel implementation.
pub struct RemoteConnection<S, C> {
    sequence: u16,
    channels: Vec<(u8, C)>,
    security_service: S,
    heartbeat_timer: Timer,
    timeout_timer: Timer,
    config: ConnectionConfig,
    reassembly_buffer: SequenceBuffer<ReassemblyFragment>,
    sent_buffer: SequenceBuffer<SentPacket>,
    received_buffer: SequenceBuffer<ReceivedPacket>,
    acks: Vec<u16>,
    network_info: NetworkInfo,
}

impl<S: SecurityService, C: Channel> RemoteConnection<S, C> {
    /// The next sequence number to be allocated.
    pub closed spec fn spec_sequence(self) -> u16 {
        self.sequence
    }

    /// The channels, as (id, channel) pairs in ascending id order.
    pub closed spec fn spec_channels(self) -> Seq<(u8, C)> {
        self.channels@
    }

    /// The ids of the registered channels, in order.
    pub open spec fn channel_ids(self) -> Seq<u8> {
        Seq::new(self.spec_channels().len(), |i: int| self.spec_channels()[i].0)
    }

    /// True when a channel with this id is registered.
    pub open spec fn has_channel(self, id: u8) -> bool {
        exists|i: int| 0 <= i < self.channel_ids().len() && self.channel_ids()[i] == id
    }

    /// The sent-packet tracker.
    pub closed spec fn sent_buf(self) -> SequenceBuffer<SentPacket> {
        self.sent_buffer
    }

    /// The received-packet tracker.
    pub closed spec fn recv_buf(self) -> SequenceBuffer<ReceivedPacket> {
        self.received_buffer
    }

    /// The reassembly buffer.
    pub closed spec fn reasm_buf(self) -> SequenceBuffer<ReassemblyFragment> {
        self.reassembly_buffer
    }

    /// The acks waiting to be routed to the channels.
    pub closed spec fn spec_acks(self) -> Seq<u16> {
        self.acks@
    }

    /// The current quality estimates.
    pub closed spec fn spec_network_info(self) -> NetworkInfo {
        self.network_info
    }

    /// The configuration.
    pub closed spec fn spec_config(self) -> ConnectionConfig {
        self.config
    }

    /// When the heartbeat timer expires.
    pub closed spec fn heartbeat_deadline(self) -> u64 {
        self.heartbeat_timer.spec_deadline()
    }

    /// When the timeout timer expires.
    pub closed spec fn timeout_deadline(self) -> u64 {
        self.timeout_timer.spec_deadline()
    }

    /// The next sequence number is the successor of the sent tracker's
    /// head, except before the first send, when both still sit at zero and
    /// nothing is tracked.
    pub open spec fn sequence_linked(self) -> bool {
        ||| self.spec_sequence() == wrap16_add(self.sent_buf().head(), 1)
        ||| (self.spec_sequence() == 0 && self.sent_buf().head() == 0 && forall|t: u16|
            !self.sent_buf().contains(t))
    }

    /// Well-formedness: valid configuration, buffers sized by it, timers
    /// carrying its durations, channels strictly ordered by id, the next
    /// sequence linked to the sent head, and — for a power-of-two sent
    /// window, where slots realign identically across the 16-bit wrap —
    /// every tracked sent sequence within the window.
    pub open spec fn wf(self) -> bool {
        &&& self.spec_config().valid()
        &&& self.sent_buf().wf()
        &&& self.sent_buf().cap() == self.spec_config().sent_packets_buffer_size
        &&& self.sequence_linked()
        &&& is_pow2(self.spec_config().sent_packets_buffer_size as int)
            ==> self.sent_buf().within_window()
        &&& self.recv_buf().wf()
        &&& self.recv_buf().cap() == self.spec_config().received_packets_buffer_size
        &&& reassembly_wf(self.reasm_buf())
        &&& self.reasm_buf().cap() == self.spec_config().fragment_config.reassembly_buffer_size
        &&& self.spec_heartbeat_duration() == self.spec_config().heartbeat_time
        &&& self.spec_timeout_duration() == self.spec_config().timeout_duration
        &&& forall|i: int, j: int|
            0 <= i < j < self.channel_ids().len() ==> self.channel_ids()[i] < self.channel_ids()[j]
    }

    /// The heartbeat timer's configured duration.
    pub closed spec fn spec_heartbeat_duration(self) -> u64 {
        self.heartbeat_timer.spec_duration()
    }

    /// The timeout timer's configured duration.
    pub closed spec fn spec_timeout_duration(self) -> u64 {
        self.timeout_timer.spec_duration()
    }

    /// Creates a connection: no channels, empty trackers, sequence 0, both
    /// timers freshly armed at `now`.
    pub fn new(config: ConnectionConfig, security_service: S, now: u64) -> (r: Self)
        requires
            config.valid(),
            now + config.timeout_duration <= u64::MAX,
            now + config.heartbeat_time <= u64::MAX,
        ensures
            r.wf(),
            r.spec_sequence() == 0,
            r.spec_channels().len() == 0,
            r.spec_acks().len() == 0,
            r.spec_config() == config,
            r.spec_network_info() == (NetworkInfo {
                rtt: 0,
                sent_bandwidth_kbps: 0,
                received_bandwidth_kbps: 0,
                packet_loss: 0,
            }),
            r.timeout_deadline() == now + config.timeout_duration,
            r.heartbeat_deadline() == now + config.heartbeat_time,
            forall|s: u16| !r.sent_buf().contains(s) && !r.recv_buf().contains(s),
            forall|s: u16| !r.reasm_buf().contains(s),
            r.sent_buf().head() == 0,
            r.recv_buf().head() == 0,
    {
        let timeout_timer = Timer::new(config.timeout_duration, now);
        let heartbeat_timer = Timer::new(config.heartbeat_time, now);
        let reassembly_buffer = SequenceBuffer::with_capacity(
            config.fragment_config.reassembly_buffer_size,
        );
        let sent_buffer = SequenceBuffer::with_capacity(config.sent_packets_buffer_size);
        let received_buffer = SequenceBuffer::with_capacity(config.received_packets_buffer_size);
        RemoteConnection {
            channels: Vec::new(),
            security_service,
            timeout_timer,
            heartbeat_timer,
            sequence: 0,
            reassembly_buffer,
            sent_buffer,
            received_buffer,
            config,
            acks: Vec::new(),
            network_info: NetworkInfo::default(),
        }
    }

    /// Registers `channel` under `channel_id`, replacing any channel
    /// already registered there.  Afterwards the pair `(channel_id,
    /// channel)` sits in the channel list — the only pair with that id,
    /// since ids are unique — and every pair under another id is kept.
    pub fn add_channel(&mut self, channel_id: u8, channel: C)
        requires
            old(self).wf(),
        ensures
            final(self).wf(),
            forall|id: u8|
                #[trigger] final(self).has_channel(id) == (old(self).has_channel(id) || id
                    == channel_id),
            exists|i: int|
                0 <= i < final(self).spec_channels().len() && #[trigger] final(self).spec_channels()[i] == (channel_id, channel),
            forall|j: int|
                0 <= j < old(self).spec_channels().len() && (#[trigger] old(self).spec_channels()[j]).0 != channel_id ==> exists|i: int|
                    0 <= i < final(self).spec_channels().len() && #[trigger] final(self).spec_channels()[i] == old(self).spec_channels()[j],
            final(self).spec_sequence() == old(self).spec_sequence(),
            final(self).sent_buf() == old(self).sent_buf(),
            final(self).recv_buf() == old(self).recv_buf(),
            final(self).reasm_buf() == old(self).reasm_buf(),
            final(self).spec_acks() == old(self).spec_acks(),
            final(self).spec_network_info() == old(self).spec_network_info(),
            final(self).spec_config() == old(self).spec_config(),
            final(self).heartbeat_deadline() == old(self).heartbeat_deadline(),
            final(self).timeout_deadline() == old(self).timeout_deadline(),
    {
        let n = self.channels.len();
        let mut i: usize = 0;
        while i < n && self.channels[i].0 < channel_id
            invariant
                i <= n,
                n == self.channels@.len(),
                forall|j: int| 0 <= j < i ==> self.channels@[j].0 < channel_id,
                *self == *old(self),
            decreases n - i,
        {
            i += 1;
        }
        let ghost pre = *self;
        if i < n && self.channels[i].0 == channel_id {
            let pair = &mut self.channels[i];
            pair.1 = channel;
            proof {
                assert(self.channel_ids() =~= pre.channel_ids());
                assert forall|id2: u8| #[trigger]
                    self.has_channel(id2) == (pre.has_channel(id2) || id2 == channel_id) by {
                    if id2 == channel_id {
                        assert(pre.channel_ids()[i as int] == channel_id);
                    }
                }
                assert(self.spec_channels()[i as int] == (channel_id, channel));
                assert forall|j: int|
                    0 <= j < pre.spec_channels().len() && (#[trigger] pre.spec_channels()[j]).0
                        != channel_id implies exists|k: int|
                    0 <= k < self.spec_channels().len() && #[trigger] self.spec_channels()[k]
                        == pre.spec_channels()[j] by {
                    assert(self.spec_channels()[j] == pre.spec_channels()[j]);
                }
            }
        } else {
            proof {
                assert forall|j: int|
                    i <= j < pre.channels@.len() implies channel_id < #[trigger] pre.channels@[j].0
                by {
                    if j > i {
                        assert(pre.channel_ids()[i as int] < pre.channel_ids()[j]);
                    }
                    assert(pre.channel_ids()[j] == pre.channels@[j].0);
                }
            }
            self.channels.insert(i, (channel_id, channel));
            proof {
                let ids0 = pre.channel_ids();
                let ids1 = self.channel_ids();
                assert(ids1.len() == ids0.len() + 1);
                assert(forall|k: int| 0 <= k < i ==> ids1[k] == ids0[k]);
                assert(ids1[i as int] == channel_id);
                assert(forall|k: int| i < k < ids1.len() ==> ids1[k] == ids0[k - 1]);
                assert forall|id2: u8| #[trigger]
                    self.has_channel(id2) == (pre.has_channel(id2) || id2 == channel_id) by {
                    if self.has_channel(id2) && id2 != channel_id {
                        let k = choose|k: int| 0 <= k < ids1.len() && ids1[k] == id2;
                        if k < i {
                            assert(ids0[k] == id2);
                        } else {
                            assert(ids0[k - 1] == id2);
                        }
                    }
                    if pre.has_channel(id2) {
                        let k = choose|k: int| 0 <= k < ids0.len() && ids0[k] == id2;
                        if k < i {
                            assert(ids1[k] == id2);
                        } else {
                            assert(ids1[k + 1] == id2);
                        }
                    }
                }
                assert forall|a: int, b: int| 0 <= a < b < ids1.len() implies ids1[a] < ids1[b] by {
                    if b < i {
                    } else if a < i && b == i {
                    } else if a < i && b > i {
                        if i <= b - 1 {
                        }
                    } else if a == i {
                    } else {
                        assert(ids1[a] == ids0[a - 1] && ids1[b] == ids0[b - 1]);
                    }
                }
                assert(self.spec_channels()[i as int] == (channel_id, channel));
                assert forall|j: int|
                    0 <= j < pre.spec_channels().len() && (#[trigger] pre.spec_channels()[j]).0
                        != channel_id implies exists|k: int|
                    0 <= k < self.spec_channels().len() && #[trigger] self.spec_channels()[k]
                        == pre.spec_channels()[j] by {
                    if j < i {
                        assert(self.spec_channels()[j] == pre.spec_channels()[j]);
                    } else {
                        assert(self.spec_channels()[j + 1] == pre.spec_channels()[j]);
                    }
                }
            }
        }
    }

    /// True once `timeout_duration` has passed since the last inbound
    /// datagram (or since creation).
    pub fn has_timed_out(&self, now: u64) -> (r: bool)
        ensures
            r == (now >= self.timeout_deadline()),
    {
        self.timeout_timer.is_finished(now)
    }

    /// Hands an application payload to the channel that owns it.  Calling
    /// this for an unregistered channel is a programming error, which the
    /// precondition rules out.
    pub fn send_message(&mut self, channel_id: u8, message: Vec<u8>)
        requires
            old(self).wf(),
            old(self).has_channel(channel_id),
        ensures
            final(self).wf(),
            final(self).channel_ids() == old(self).channel_ids(),
            final(self).spec_sequence() == old(self).spec_sequence(),
            final(self).sent_buf() == old(self).sent_buf(),
            final(self).recv_buf() == old(self).recv_buf(),
            final(self).reasm_buf() == old(self).reasm_buf(),
            final(self).spec_acks() == old(self).spec_acks(),
            final(self).spec_network_info() == old(self).spec_network_info(),
            final(self).spec_config() == old(self).spec_config(),
            final(self).heartbeat_deadline() == old(self).heartbeat_deadline(),
            final(self).timeout_deadline() == old(self).timeout_deadline(),
    {
        let n = self.channels.len();
        let mut i: usize = 0;
        while i < n && self.channels[i].0 != channel_id
            invariant
                i <= n,
                n == self.channels@.len(),
                forall|j: int| 0 <= j < i ==> self.channels@[j].0 != channel_id,
                *self == *old(self),
            decreases n - i,
        {
            i += 1;
        }
        let ghost pre = *self;
        if i < n {
            let pair = &mut self.channels[i];
            pair.1.send_message(message);
            proof {
                assert(self.channel_ids() =~= pre.channel_ids());
            }
        } else {
            proof {
                let k = choose|k: int|
                    0 <= k < pre.channel_ids().len() && pre.channel_ids()[k] == channel_id;
                assert(pre.channels@[k].0 == channel_id);
                assert(false);
            }
        }
    }

    /// Builds a Heartbeat packet carrying the current ack metadata.
    pub fn build_heartbeat_packet(&self) -> (r: Result<Vec<u8>, RenetError>)
        requires
            self.wf(),
        ensures
            r is Ok,
            match spec_decode_packet(r.unwrap()@) {
                Some(p) => p matches PacketModel::Heartbeat { ack, ack_bits } && ack == self
                    .recv_buf().head() && mask_matches(self.recv_buf(), ack, ack_bits),
                None => false,
            },
    {
        let (ack, ack_bits) = self.received_buffer.ack_bits();
        let packet = Packet::Heartbeat(HeartBeat { ack_data: AckData { ack, ack_bits } });
        let bytes = encode_packet(&packet);
        proof {
            crate::packet::lemma_packet_codec_round_trip(packet@);
        }
        Ok(bytes)
    }

    /// Dequeues one message delivered by the given channel; `None` for an
    /// unregistered channel.
    pub fn receive_message(&mut self, channel_id: u8) -> (r: Option<Vec<u8>>)
        requires
            old(self).wf(),
        ensures
            final(self).wf(),
            !old(self).has_channel(channel_id) ==> r is None,
            final(self).channel_ids() == old(self).channel_ids(),
            final(self).spec_sequence() == old(self).spec_sequence(),
            final(self).sent_buf() == old(self).sent_buf(),
            final(self).recv_buf() == old(self).recv_buf(),
            final(self).reasm_buf() == old(self).reasm_buf(),
            final(self).spec_acks() == old(self).spec_acks(),
            final(self).spec_network_info() == old(self).spec_network_info(),
            final(self).spec_config() == old(self).spec_config(),
            final(self).heartbeat_deadline() == old(self).heartbeat_deadline(),
            final(self).timeout_deadline() == old(self).timeout_deadline(),
    {
        let n = self.channels.len();
        let mut i: usize = 0;
        while i < n && self.channels[i].0 != channel_id
            invariant
                i <= n,
                n == self.channels@.len(),
                forall|j: int| 0 <= j < i ==> self.channels@[j].0 != channel_id,
                *self == *old(self),
            decreases n - i,
        {
            i += 1;
        }
        let ghost pre = *self;
        if i < n {
            proof {
                assert(pre.channel_ids()[i as int] == channel_id);
            }
            let pair = &mut self.channels[i];
            let r = pair.1.receive_message();
            proof {
                assert(self.channel_ids() =~= pre.channel_ids());
            }
            r
        } else {
            None
        }
    }

    /// Applies one inbound `(ack, ack_bits)` pair: for each set bit whose
    /// sequence is tracked and not yet acknowledged, marks it acknowledged,
    /// queues it for dispatch to the channels, and smooths the round-trip
    /// time with its sample.  Bits naming evicted or already-acknowledged
    /// sequences do nothing.
    #[verifier::loop_isolation(false)]
    fn update_acked_packets(&mut self, ack: u16, ack_bits: u32, now: u64)
        requires
            old(self).wf(),
        ensures
            final(self).wf(),
            final(self).sent_buf().head() == old(self).sent_buf().head(),
            final(self).sent_buf().cap() == old(self).sent_buf().cap(),
            forall|t: u16|
                #[trigger] final(self).sent_buf().contains(t) == old(self).sent_buf().contains(t),
            forall|t: u16|
                old(self).sent_buf().contains(t) ==> #[trigger] final(self).sent_buf().value_at(t)
                    == (if newly_acked(old(self).sent_buf(), ack, ack_bits, t) {
                    SentPacket { ack: true, ..old(self).sent_buf().value_at(t) }
                } else {
                    old(self).sent_buf().value_at(t)
                }),
            final(self).spec_acks() == old(self).spec_acks() + ack_delta(
                old(self).sent_buf(),
                ack,
                ack_bits,
                32,
            ),
            final(self).spec_network_info() == (NetworkInfo {
                rtt: rtt_fold(
                    old(self).sent_buf(),
                    ack,
                    ack_bits,
                    now,
                    old(self).spec_config().measure_smoothing_factor,
                    old(self).spec_network_info().rtt,
                    32,
                ),
                ..old(self).spec_network_info()
            }),
            final(self).spec_sequence() == old(self).spec_sequence(),
            final(self).spec_channels() == old(self).spec_channels(),
            final(self).recv_buf() == old(self).recv_buf(),
            final(self).reasm_buf() == old(self).reasm_buf(),
            final(self).spec_config() == old(self).spec_config(),
            final(self).heartbeat_deadline() == old(self).heartbeat_deadline(),
            final(self).timeout_deadline() == old(self).timeout_deadline(),
    {
        let ghost b0 = self.sent_buffer;
        let ghost rtt0 = self.network_info.rtt;
        let ghost acks0 = self.acks@;
        let alpha = self.config.measure_smoothing_factor;
        proof {
            assert forall|i: int, j: int|
                0 <= i < 32 && 0 <= j < 32 && i != j implies #[trigger] wrap16_sub(ack, i as u16)
                != #[trigger] wrap16_sub(ack, j as u16) by {}
        }
        let mut i: u32 = 0;
        while i < 32
            invariant
                i <= 32,
                self.sent_buffer.wf(),
                self.sent_buffer.head() == b0.head(),
                self.sent_buffer.cap() == b0.cap(),
                forall|t: u16| #[trigger] self.sent_buffer.contains(t) == b0.contains(t),
                forall|t: u16|
                    b0.contains(t) ==> #[trigger] self.sent_buffer.value_at(t) == (
                    if newly_acked_upto(b0, ack, ack_bits, t, i as int) {
                        SentPacket { ack: true, ..b0.value_at(t) }
                    } else {
                        b0.value_at(t)
                    }),
                self.acks@ == acks0 + ack_delta(b0, ack, ack_bits, i as int),
                self.network_info == (NetworkInfo {
                    rtt: rtt_fold(b0, ack, ack_bits, now, alpha, rtt0, i as int),
                    ..old(self).network_info
                }),
                self.sequence == old(self).sequence,
                self.channels == old(self).channels,
                self.received_buffer == old(self).received_buffer,
                self.reassembly_buffer == old(self).reassembly_buffer,
                self.config == old(self).config,
                self.heartbeat_timer == old(self).heartbeat_timer,
                self.timeout_timer == old(self).timeout_timer,
                self.security_service == old(self).security_service,
            decreases 32 - i,
        {
            let ghost prev = *self;
            if ack_bits & (1u32 << i) != 0 {
                let s = ack.wrapping_sub(i as u16);
                proof {
                    assert(s == wrap16_sub(ack, i as u16));
                    assert(!newly_acked_upto(b0, ack, ack_bits, s, i as int));
                }
                let hit = match self.sent_buffer.get(s) {
                    Some(pv) => Some(*pv),
                    None => None,
                };
                match hit {
                    Some(p) => {
                        if !p.ack {
                            proof {
                                assert(p == b0.value_at(s));
                                assert(ack_hit(b0, ack, ack_bits, i as int));
                            }
                            self.acks.push(s);
                            let did = self.sent_buffer.update_value(
                                s,
                                SentPacket { time: p.time, ack: true, size_bytes: p.size_bytes },
                            );
                            proof {
                                assert(did);
                            }
                            let sample = if now >= p.time {
                                now - p.time
                            } else {
                                0
                            };
                            let smoothed = ewma(self.network_info.rtt, sample, alpha);
                            self.network_info.rtt = smoothed;
                            proof {
                                assert(self.acks@ =~= acks0 + ack_delta(
                                    b0,
                                    ack,
                                    ack_bits,
                                    i + 1,
                                ));
                                assert forall|t: u16| #[trigger]
                                    self.sent_buffer.contains(t) == b0.contains(t) by {
                                    if t != s {
                                        assert(self.sent_buffer.contains(t)
                                            == prev.sent_buffer.contains(t));
                                    } else {
                                        assert(self.sent_buffer.contains(s));
                                    }
                                }
                                assert forall|t: u16|
                                    b0.contains(t) implies #[trigger] self.sent_buffer.value_at(t)
                                    == (if newly_acked_upto(b0, ack, ack_bits, t, i + 1) {
                                    SentPacket { ack: true, ..b0.value_at(t) }
                                } else {
                                    b0.value_at(t)
                                }) by {
                                    if t == s {
                                        assert(newly_acked_upto(b0, ack, ack_bits, t, i + 1));
                                        assert(self.sent_buffer.value_at(t) == (SentPacket {
                                            time: p.time,
                                            ack: true,
                                            size_bytes: p.size_bytes,
                                        }));
                                    } else {
                                        lemma_newly_upto_step(b0, ack, ack_bits, t, i as int);
                                        assert(self.sent_buffer.contains(t) == b0.contains(t));
                                        assert(self.sent_buffer.value_at(t)
                                            == prev.sent_buffer.value_at(t));
                                    }
                                }
                            }
                        } else {
                            proof {
                                assert(!ack_hit(b0, ack, ack_bits, i as int));
                                assert(self.acks@ =~= acks0 + ack_delta(
                                    b0,
                                    ack,
                                    ack_bits,
                                    i + 1,
                                ));
                                assert forall|t: u16|
                                    newly_acked_upto(b0, ack, ack_bits, t, i + 1)
                                    == newly_acked_upto(b0, ack, ack_bits, t, i as int) by {
                                    lemma_newly_upto_step(b0, ack, ack_bits, t, i as int);
                                }
                            }
                        }
                    },
                    None => {
                        proof {
                            assert(!ack_hit(b0, ack, ack_bits, i as int));
                            assert(self.acks@ =~= acks0 + ack_delta(b0, ack, ack_bits, i + 1));
                            assert forall|t: u16|
                                newly_acked_upto(b0, ack, ack_bits, t, i + 1) == newly_acked_upto(
                                b0,
                                ack,
                                ack_bits,
                                t,
                                i as int,
                            ) by {
                                lemma_newly_upto_step(b0, ack, ack_bits, t, i as int);
                            }
                        }
                    },
                }
            } else {
                proof {
                    assert(!nth_bit(ack_bits, i));
                    assert(!ack_hit(b0, ack, ack_bits, i as int));
                    assert(self.acks@ =~= acks0 + ack_delta(b0, ack, ack_bits, i + 1));
                    assert forall|t: u16|
                        newly_acked_upto(b0, ack, ack_bits, t, i + 1) == newly_acked_upto(
                        b0,
                        ack,
                        ack_bits,
                        t,
                        i as int,
                    ) by {
                        lemma_newly_upto_step(b0, ack, ack_bits, t, i as int);
                    }
                }
            }
            i = i + 1;
        }
        proof {
            assert(self.channel_ids() =~= old(self).channel_ids());
        }
    }

    /// How one inbound `(ack, ack_bits)` pair relates this connection to
    /// `c1`: the tracked packets it newly acknowledges are marked, the
    /// round-trip time is smoothed with their samples, and the sent tracker
    /// is otherwise untouched.
    pub open spec fn acked_applied(self, c1: Self, ack: u16, bits: u32, now: u64) -> bool {
        &&& c1.sent_buf().head() == self.sent_buf().head()
        &&& c1.sent_buf().cap() == self.sent_buf().cap()
        &&& forall|t: u16| #[trigger] c1.sent_buf().contains(t) == self.sent_buf().contains(t)
        &&& forall|t: u16|
            self.sent_buf().contains(t) ==> #[trigger] c1.sent_buf().value_at(t) == (
            if newly_acked(self.sent_buf(), ack, bits, t) {
                SentPacket { ack: true, ..self.sent_buf().value_at(t) }
            } else {
                self.sent_buf().value_at(t)
            })
        &&& c1.spec_network_info() == (NetworkInfo {
            rtt: rtt_fold(
                self.sent_buf(),
                ack,
                bits,
                now,
                self.spec_config().measure_smoothing_factor,
                self.spec_network_info().rtt,
                32,
            ),
            ..self.spec_network_info()
        })
    }

    /// Routes every pending ack to every channel, in pending order, then
    /// clears the pending list.
    #[verifier::loop_isolation(false)]
    fn dispatch_acks(&mut self)
        requires
            old(self).wf(),
        ensures
            final(self).wf(),
            final(self).spec_acks().len() == 0,
            final(self).channel_ids() == old(self).channel_ids(),
            final(self).spec_sequence() == old(self).spec_sequence(),
            final(self).sent_buf() == old(self).sent_buf(),
            final(self).recv_buf() == old(self).recv_buf(),
            final(self).reasm_buf() == old(self).reasm_buf(),
            final(self).spec_network_info() == old(self).spec_network_info(),
            final(self).spec_config() == old(self).spec_config(),
            final(self).heartbeat_deadline() == old(self).heartbeat_deadline(),
            final(self).timeout_deadline() == old(self).timeout_deadline(),
    {
        let mut a: usize = 0;
        while a < self.acks.len()
            invariant
                a <= self.acks@.len(),
                self.acks@ == old(self).acks@,
                self.sequence == old(self).sequence,
                self.sent_buffer == old(self).sent_buffer,
                self.received_buffer == old(self).received_buffer,
                self.reassembly_buffer == old(self).reassembly_buffer,
                self.network_info == old(self).network_info,
                self.config == old(self).config,
                self.heartbeat_timer == old(self).heartbeat_timer,
                self.timeout_timer == old(self).timeout_timer,
                self.security_service == old(self).security_service,
                self.channel_ids() == old(self).channel_ids(),
            decreases self.acks@.len() - a,
        {
            let ackv = self.acks[a];
            let mut c: usize = 0;
            while c < self.channels.len()
                invariant
                    c <= self.channels@.len(),
                    self.acks@ == old(self).acks@,
                    self.sequence == old(self).sequence,
                    self.sent_buffer == old(self).sent_buffer,
                    self.received_buffer == old(self).received_buffer,
                    self.reassembly_buffer == old(self).reassembly_buffer,
                    self.network_info == old(self).network_info,
                    self.config == old(self).config,
                    self.heartbeat_timer == old(self).heartbeat_timer,
                    self.timeout_timer == old(self).timeout_timer,
                    self.security_service == old(self).security_service,
                    self.channel_ids() == old(self).channel_ids(),
                decreases self.channels@.len() - c,
            {
                let ghost pre = *self;
                let pair = &mut self.channels[c];
                pair.1.process_ack(ackv);
                proof {
                    assert(self.channel_ids() =~= pre.channel_ids());
                }
                c += 1;
            }
            a += 1;
        }
        self.acks.clear();
    }

    /// Routes each decoded channel entry's messages to the channel that
    /// owns them; entries naming an unregistered channel are skipped.
    #[verifier::loop_isolation(false)]
    fn route_channel_packets(&mut self, mut channel_packets: Vec<ChannelPacketData>)
        requires
            old(self).wf(),
        ensures
            final(self).wf(),
            final(self).spec_acks() == old(self).spec_acks(),
            final(self).channel_ids() == old(self).channel_ids(),
            final(self).spec_sequence() == old(self).spec_sequence(),
            final(self).sent_buf() == old(self).sent_buf(),
            final(self).recv_buf() == old(self).recv_buf(),
            final(self).reasm_buf() == old(self).reasm_buf(),
            final(self).spec_network_info() == old(self).spec_network_info(),
            final(self).spec_config() == old(self).spec_config(),
            final(self).heartbeat_deadline() == old(self).heartbeat_deadline(),
            final(self).timeout_deadline() == old(self).timeout_deadline(),
    {
        while channel_packets.len() > 0
            invariant
                self.acks@ == old(self).acks@,
                self.sequence == old(self).sequence,
                self.sent_buffer == old(self).sent_buffer,
                self.received_buffer == old(self).received_buffer,
                self.reassembly_buffer == old(self).reassembly_buffer,
                self.network_info == old(self).network_info,
                self.config == old(self).config,
                self.heartbeat_timer == old(self).heartbeat_timer,
                self.timeout_timer == old(self).timeout_timer,
                self.security_service == old(self).security_service,
                self.channel_ids() == old(self).channel_ids(),
            decreases channel_packets@.len(),
        {
            let cpd = channel_packets.remove(0);
            let n = self.channels.len();
            let mut i: usize = 0;
            while i < n && self.channels[i].0 != cpd.channel_id
                invariant
                    i <= n,
                    n == self.channels@.len(),
                    self.acks@ == old(self).acks@,
                    self.sequence == old(self).sequence,
                    self.sent_buffer == old(self).sent_buffer,
                    self.received_buffer == old(self).received_buffer,
                    self.reassembly_buffer == old(self).reassembly_buffer,
                    self.network_info == old(self).network_info,
                    self.config == old(self).config,
                    self.heartbeat_timer == old(self).heartbeat_timer,
                    self.timeout_timer == old(self).timeout_timer,
                    self.security_service == old(self).security_service,
                    self.channel_ids() == old(self).channel_ids(),
                decreases n - i,
            {
                i += 1;
            }
            if i < n {
                let ghost pre = *self;
                let pair = &mut self.channels[i];
                pair.1.process_messages(cpd.messages);
                proof {
                    assert(self.channel_ids() =~= pre.channel_ids());
                }
            }
        }
    }

    /// Processes one decoded datagram's bytes: dispatches on the packet
    /// variant, updates the received tracker and the ack bookkeeping,
    /// routes pending acks to the channels, and delivers a Normal or fully
    /// reassembled payload's messages.  `spec_decode_packet` of the bytes
    /// says exactly what happens.  Whatever the variant and however it is
    /// then judged, every decoded datagram leaves the pending-ack list
    /// fully dispatched and empty.
    pub fn process_packet_bytes(&mut self, bytes: &[u8], now: u64) -> (r: Result<(), RenetError>)
        requires
            old(self).wf(),
        ensures
            final(self).wf(),
            final(self).spec_sequence() == old(self).spec_sequence(),
            final(self).spec_config() == old(self).spec_config(),
            final(self).channel_ids() == old(self).channel_ids(),
            final(self).heartbeat_deadline() == old(self).heartbeat_deadline(),
            final(self).timeout_deadline() == old(self).timeout_deadline(),
            !(r == Err::<(), RenetError>(RenetError::SecurityError)),
            spec_decode_packet(bytes@) is Some ==> final(self).spec_acks().len() == 0,
            ({
                let d = spec_decode_packet(bytes@);
                match d {
                    None => r == Err::<(), RenetError>(RenetError::SerializationFailed) && *final(self) == *old(self),
                    Some(pm) => match pm {
                        PacketModel::Connection { error } => match error {
                            Some(code) => r == Err::<(), RenetError>(RenetError::ConnectionError(code)) && final(self).spec_acks().len() == 0 && final(self).sent_buf() == old(self).sent_buf() && final(self).recv_buf() == old(self).recv_buf() && final(self).reasm_buf() == old(self).reasm_buf()
                                && final(self).spec_network_info() == old(self).spec_network_info(),
                            None => r is Ok && final(self).spec_acks().len() == 0 && final(self).sent_buf() == old(self).sent_buf() && final(self).recv_buf() == old(self).recv_buf() && final(self).reasm_buf() == old(self).reasm_buf()
                                && final(self).spec_network_info() == old(self).spec_network_info(),
                        },
                        PacketModel::Heartbeat { ack, ack_bits } => {
                            &&& r is Ok
                            &&& old(self).acked_applied(*final(self), ack, ack_bits, now)
                            &&& final(self).spec_acks().len() == 0
                            &&& final(self).recv_buf() == old(self).recv_buf()
                            &&& final(self).reasm_buf() == old(self).reasm_buf()
                        },
                        PacketModel::Normal { sequence, ack, ack_bits, payload } => {
                            &&& old(self).acked_applied(*final(self), ack, ack_bits, now)
                            &&& stored(
                                old(self).recv_buf(),
                                final(self).recv_buf(),
                                sequence,
                                ReceivedPacket { time: now, size_bytes: payload.len() as usize },
                            )
                            &&& final(self).reasm_buf() == old(self).reasm_buf()
                            &&& final(self).spec_acks().len() == 0
                            &&& (r is Ok <==> spec_decode_channel_payload(payload) is Some)
                            &&& (r is Err ==> r == Err::<(), RenetError>(RenetError::SerializationFailed))
                        },
                        PacketModel::Fragment {
                            sequence,
                            ack,
                            ack_bits,
                            fragment_id,
                            num_fragments,
                            payload,
                        } => {
                            let b0 = old(self).reasm_buf();
                            let c1 = num_fragments > old(self).spec_config().fragment_config.max_fragments;
                            let c2 = !c1 && b0.contains(sequence) && b0.value_at(
                                sequence,
                            )@.num_fragments_total != num_fragments;
                            let c3 = !c1 && !c2 && fragment_id >= num_fragments;
                            let c4 = !c1 && !c2 && !c3 && !crate::reassembly_fragment::frag_size_ok(
                                fragment_id,
                                num_fragments,
                                payload.len() as int,
                                old(self).spec_config().fragment_config.fragment_size as int,
                            );
                            let c5 = !c1 && !c2 && !c3 && !c4 && b0.contains(sequence)
                                && b0.value_at(sequence)@.parts[fragment_id as int] is Some;
                            let u = updated_entry(b0, sequence, num_fragments, fragment_id, payload);
                            &&& old(self).acked_applied(*final(self), ack, ack_bits, now)
                            &&& (if old(self).recv_buf().contains(sequence) {
                                &&& final(self).recv_buf().head() == old(self).recv_buf().head()
                                &&& forall|t: u16| #[trigger]
                                    final(self).recv_buf().contains(t) == old(self).recv_buf().contains(t)
                                &&& final(self).recv_buf().value_at(sequence) == (ReceivedPacket {
                                    time: old(self).recv_buf().value_at(sequence).time,
                                    size_bytes: sat_add_usize(
                                        old(self).recv_buf().value_at(sequence).size_bytes,
                                        payload.len() as usize,
                                    ),
                                })
                                &&& forall|t: u16|
                                    t != sequence && #[trigger] final(self).recv_buf().contains(t)
                                        ==> final(self).recv_buf().value_at(t) == old(self).recv_buf().value_at(t)
                            } else {
                                stored(
                                    old(self).recv_buf(),
                                    final(self).recv_buf(),
                                    sequence,
                                    ReceivedPacket {
                                        time: now,
                                        size_bytes: payload.len() as usize,
                                    },
                                )
                            })
                            &&& ((r matches Err(RenetError::Fragment(_))) <==> (c1 || c2 || c3
                                || c4))
                            &&& ((c1 || c2 || c3 || c4) ==> final(self).reasm_buf() == b0
                                && final(self).spec_acks().len() == 0)
                            &&& (!(c1 || c2 || c3 || c4) ==> final(self).spec_acks().len() == 0
                                && (if c5 {
                                r is Ok && final(self).reasm_buf() == b0
                            } else if u.num_fragments_received == num_fragments {
                                &&& (r is Ok <==> spec_decode_channel_payload(
                                    spec_concat_from(u.parts, 0),
                                ) is Some)
                                &&& (r is Err ==> r == Err::<(), RenetError>(RenetError::SerializationFailed))
                                &&& !final(self).reasm_buf().contains(sequence)
                            } else {
                                &&& r is Ok
                                &&& (if b0.contains(sequence) {
                                    &&& final(self).reasm_buf().head() == b0.head()
                                    &&& final(self).reasm_buf().contains(sequence)
                                    &&& final(self).reasm_buf().value_at(sequence)@ == u
                                    &&& forall|t: u16|
                                        t != sequence ==> #[trigger] final(self).reasm_buf().contains(t) == b0.contains(t)
                                    &&& forall|t: u16|
                                        t != sequence && #[trigger] final(self).reasm_buf().contains(t) ==> final(self).reasm_buf().value_at(t) == b0.value_at(t)
                                } else {
                                    crate::reassembly_fragment::fresh_stored(
                                        b0,
                                        final(self).reasm_buf(),
                                        sequence,
                                        u,
                                    )
                                })
                            }))
                        },
                    },
                }
            }),
    {
        let packet = match decode_packet(bytes) {
            Ok(p) => p,
            Err(e) => {
                return Err(e);
            },
        };
        let payload_opt: Option<Vec<u8>> = match packet {
            Packet::Normal(n) => {
                let received_packet = ReceivedPacket::new(now, n.payload.len());
                self.received_buffer.insert(n.sequence, received_packet);
                proof {
                    assert(self.channel_ids() =~= old(self).channel_ids());
                }
                self.update_acked_packets(n.ack_data.ack, n.ack_data.ack_bits, now);
                Some(n.payload)
            },
            Packet::Fragment(fragment) => {
                let plen = fragment.payload.len();
                let existing: Option<ReceivedPacket> = match self.received_buffer.get(
                    fragment.sequence,
                ) {
                    Some(v) => Some(*v),
                    None => None,
                };
                match existing {
                    Some(rp) => {
                        let ns = if usize::MAX - rp.size_bytes > plen {
                            rp.size_bytes + plen
                        } else {
                            usize::MAX
                        };
                        let _updated = self.received_buffer.update_value(
                            fragment.sequence,
                            ReceivedPacket { time: rp.time, size_bytes: ns },
                        );
                    },
                    None => {
                        self.received_buffer.insert(
                            fragment.sequence,
                            ReceivedPacket::new(now, plen),
                        );
                    },
                }
                proof {
                    assert(self.channel_ids() =~= old(self).channel_ids());
                }
                self.update_acked_packets(fragment.ack_data.ack, fragment.ack_data.ack_bits, now);
                match self.reassembly_buffer.handle_fragment(
                    fragment,
                    &self.config.fragment_config,
                ) {
                    Ok(opt) => opt,
                    Err(e) => {
                        self.dispatch_acks();
                        return Err(e);
                    },
                }
            },
            Packet::Heartbeat(h) => {
                self.update_acked_packets(h.ack_data.ack, h.ack_data.ack_bits, now);
                None
            },
            Packet::Connection(c) => {
                match c.error {
                    Some(code) => {
                        self.dispatch_acks();
                        return Err(RenetError::ConnectionError(code));
                    },
                    None => None,
                }
            },
        };
        self.dispatch_acks();
        let payload = match payload_opt {
            Some(p) => p,
            None => {
                return Ok(());
            },
        };
        let channel_packets = match decode_channel_payload(payload.as_slice()) {
            Ok(cs) => cs,
            Err(e) => {
                return Err(e);
            },
        };
        self.route_channel_packets(channel_packets);
        Ok(())
    }

    /// Processes one inbound datagram: unwraps it through the security
    /// service (a failure drops the datagram and changes nothing), resets
    /// the timeout timer, then processes the unwrapped bytes.
    pub fn process_payload(&mut self, payload: &[u8], now: u64) -> (r: Result<(), RenetError>)
        requires
            old(self).wf(),
            now + old(self).spec_config().timeout_duration <= u64::MAX,
        ensures
            final(self).wf(),
            final(self).spec_sequence() == old(self).spec_sequence(),
            final(self).spec_config() == old(self).spec_config(),
            final(self).channel_ids() == old(self).channel_ids(),
            final(self).heartbeat_deadline() == old(self).heartbeat_deadline(),
            r == Err::<(), RenetError>(RenetError::SecurityError) ==> final(self).timeout_deadline() == old(self).timeout_deadline() && final(self).sent_buf() == old(self).sent_buf() && final(self).recv_buf() == old(self).recv_buf() && final(self).reasm_buf() == old(self).reasm_buf() && final(self).spec_acks() == old(self).spec_acks() && final(self).spec_network_info() == old(self).spec_network_info() && final(self).spec_channels() == old(self).spec_channels(),
            r != Err::<(), RenetError>(RenetError::SecurityError) ==> final(self).timeout_deadline() == now + old(self).spec_config().timeout_duration,
    {
        let unwrapped = match self.security_service.ss_unwrap(payload) {
            Ok(b) => b,
            Err(_) => {
                proof {
                    assert(self.channel_ids() =~= old(self).channel_ids());
                }
                return Err(RenetError::SecurityError);
            },
        };
        proof {
            assert(self.channel_ids() =~= old(self).channel_ids());
        }
        self.timeout_timer.reset(now);
        self.process_packet_bytes(unwrapped.as_slice(), now)
    }

    /// Frames one payload for the wire: rejects an oversize payload,
    /// otherwise allocates the next sequence number, records the payload in
    /// the sent tracker, attaches the current ack metadata, and returns the
    /// encoded Normal packet or the encoded Fragments.
    pub fn generate_packets(&mut self, payload: &[u8], now: u64) -> (r: Result<
        Vec<Vec<u8>>,
        RenetError,
    >)
        requires
            old(self).wf(),
        ensures
            final(self).wf(),
            final(self).recv_buf() == old(self).recv_buf(),
            final(self).reasm_buf() == old(self).reasm_buf(),
            final(self).spec_acks() == old(self).spec_acks(),
            final(self).channel_ids() == old(self).channel_ids(),
            final(self).spec_network_info() == old(self).spec_network_info(),
            final(self).spec_config() == old(self).spec_config(),
            final(self).heartbeat_deadline() == old(self).heartbeat_deadline(),
            final(self).timeout_deadline() == old(self).timeout_deadline(),
            payload@.len() > old(self).spec_config().max_packet_size ==> r == Err::<
                Vec<Vec<u8>>,
                RenetError,
            >(RenetError::MaximumPacketSizeExceeded) && *final(self) == *old(self),
            payload@.len() <= old(self).spec_config().max_packet_size ==> ({
                let len = payload@.len() as int;
                let size = old(self).spec_config().fragment_config.fragment_size as int;
                let num = num_chunks(len, size);
                let fragmented = payload@.len()
                    > old(self).spec_config().fragment_config.fragment_above;
                let rb = old(self).recv_buf();
                &&& final(self).spec_sequence() == wrap16_add(old(self).spec_sequence(), 1)
                &&& stored(
                    old(self).sent_buf(),
                    final(self).sent_buf(),
                    old(self).spec_sequence(),
                    SentPacket { time: now, ack: false, size_bytes: payload@.len() as usize },
                )
                &&& (r is Err <==> fragmented && num > old(self).spec_config().fragment_config.max_fragments)
                &&& (r is Err ==> r == Err::<Vec<Vec<u8>>, RenetError>(
                    RenetError::Fragment(FragmentError::ExceededMaxFragments),
                ))
                &&& (r is Ok && fragmented ==> {
                    let frs = r.unwrap();
                    &&& frs.deep_view().len() == num
                    &&& forall|i: int|
                        0 <= i < num ==> match spec_decode_packet(#[trigger] frs.deep_view()[i]) {
                            Some(pm) => pm matches PacketModel::Fragment {
                                sequence,
                                ack,
                                ack_bits,
                                fragment_id,
                                num_fragments,
                                payload: chunk,
                            } && sequence == old(self).spec_sequence() && fragment_id == i as u8
                                && num_fragments == num as u8 && chunk == spec_chunk(
                                payload@,
                                size,
                                i,
                            ) && ack == rb.head() && mask_matches(rb, ack, ack_bits),
                            None => false,
                        }
                })
                &&& (r is Ok && !fragmented ==> {
                    let frs = r.unwrap();
                    &&& frs.deep_view().len() == 1
                    &&& match spec_decode_packet(frs.deep_view()[0]) {
                        Some(pm) => pm matches PacketModel::Normal {
                            sequence,
                            ack,
                            ack_bits,
                            payload: pl,
                        } && sequence == old(self).spec_sequence() && pl == payload@ && ack
                            == rb.head() && mask_matches(rb, ack, ack_bits),
                        None => false,
                    }
                })
            }),
    {
        if payload.len() > self.config.max_packet_size {
            return Err(RenetError::MaximumPacketSizeExceeded);
        }
        let sequence = self.sequence;
        self.sequence = self.sequence.wrapping_add(1);
        let (ack, ack_bits) = self.received_buffer.ack_bits();
        let sent_packet = SentPacket::new(now, payload.len());
        self.sent_buffer.insert(sequence, sent_packet);
        proof {
            assert(self.channel_ids() =~= old(self).channel_ids());
            let b0 = old(self).sent_buf();
            assert(!more_recent(wrap16_sub(b0.head(), b0.cap() as u16), sequence));
            if is_pow2(b0.cap() as int) {
                lemma_successor_insert_preserves_window(
                    b0,
                    self.sent_buffer,
                    sequence,
                    sent_packet,
                );
            }
            assert(self.sequence_linked());
        }
        if payload.len() > self.config.fragment_config.fragment_above {
            match build_fragments(
                payload,
                sequence,
                AckData { ack, ack_bits },
                &self.config.fragment_config,
            ) {
                Ok(frs) => {
                    proof {
                        let len = payload@.len() as int;
                        let size = self.config.fragment_config.fragment_size as int;
                        let num = num_chunks(len, size);
                        assert forall|i: int| 0 <= i < num implies match spec_decode_packet(
                            #[trigger] frs.deep_view()[i],
                        ) {
                            Some(pm) => pm matches PacketModel::Fragment {
                                sequence: sq,
                                ack: a,
                                ack_bits: ab,
                                fragment_id,
                                num_fragments,
                                payload: chunk,
                            } && sq == sequence && fragment_id == i as u8 && num_fragments
                                == num as u8 && chunk == spec_chunk(payload@, size, i) && a == ack
                                && mask_matches(old(self).recv_buf(), a, ab),
                            None => false,
                        } by {
                            lemma_packet_codec_round_trip(
                                PacketModel::Fragment {
                                    sequence: sequence,
                                    ack: ack,
                                    ack_bits: ack_bits,
                                    fragment_id: i as u8,
                                    num_fragments: num as u8,
                                    payload: spec_chunk(payload@, size, i),
                                },
                            );
                        }
                    }
                    Ok(frs)
                },
                Err(e) => Err(e),
            }
        } else {
            let body = slice_to_vec(payload);
            let packet = Packet::Normal(
                Normal { payload: body, sequence, ack_data: AckData { ack, ack_bits } },
            );
            let encoded = encode_packet(&packet);
            proof {
                lemma_packet_codec_round_trip(packet@);
            }
            let mut out: Vec<Vec<u8>> = Vec::new();
            out.push(encoded);
            proof {
                assert(out.deep_view() =~~= seq![encoded@]);
            }
            Ok(out)
        }
    }

    /// Frames one payload and wraps each resulting datagram through the
    /// security service; a wrap failure drops the send.
    #[verifier::loop_isolation(false)]
    pub fn send_payload(&mut self, payload: &[u8], now: u64) -> (r: Result<
        Vec<Vec<u8>>,
        RenetError,
    >)
        requires
            old(self).wf(),
        ensures
            final(self).wf(),
            final(self).recv_buf() == old(self).recv_buf(),
            final(self).reasm_buf() == old(self).reasm_buf(),
            final(self).spec_acks() == old(self).spec_acks(),
            final(self).channel_ids() == old(self).channel_ids(),
            final(self).spec_network_info() == old(self).spec_network_info(),
            final(self).spec_config() == old(self).spec_config(),
            final(self).heartbeat_deadline() == old(self).heartbeat_deadline(),
            final(self).timeout_deadline() == old(self).timeout_deadline(),
            payload@.len() > old(self).spec_config().max_packet_size ==> r == Err::<
                Vec<Vec<u8>>,
                RenetError,
            >(RenetError::MaximumPacketSizeExceeded) && final(self).spec_sequence() == old(self).spec_sequence() && final(self).sent_buf() == old(self).sent_buf(),
            payload@.len() <= old(self).spec_config().max_packet_size ==> {
                &&& final(self).spec_sequence() == wrap16_add(old(self).spec_sequence(), 1)
                &&& stored(
                    old(self).sent_buf(),
                    final(self).sent_buf(),
                    old(self).spec_sequence(),
                    SentPacket { time: now, ack: false, size_bytes: payload@.len() as usize },
                )
            },
            r is Ok ==> payload@.len() <= old(self).spec_config().max_packet_size
                && r.unwrap()@.len() == (if payload@.len() > old(self).spec_config().fragment_config.fragment_above {
                num_chunks(
                    payload@.len() as int,
                    old(self).spec_config().fragment_config.fragment_size as int,
                )
            } else {
                1
            }),
            r is Err ==> (r == Err::<Vec<Vec<u8>>, RenetError>(
                RenetError::MaximumPacketSizeExceeded,
            ) || r == Err::<Vec<Vec<u8>>, RenetError>(
                RenetError::Fragment(FragmentError::ExceededMaxFragments),
            ) || r == Err::<Vec<Vec<u8>>, RenetError>(RenetError::SecurityError)),
    {
        let packets = match self.generate_packets(payload, now) {
            Ok(p) => p,
            Err(e) => {
                return Err(e);
            },
        };
        let ghost mid = *self;
        let mut out: Vec<Vec<u8>> = Vec::new();
        let mut i: usize = 0;
        while i < packets.len()
            invariant
                i <= packets@.len(),
                out@.len() == i,
                self.sequence == mid.sequence,
                self.channels == mid.channels,
                self.sent_buffer == mid.sent_buffer,
                self.received_buffer == mid.received_buffer,
                self.reassembly_buffer == mid.reassembly_buffer,
                self.acks == mid.acks,
                self.network_info == mid.network_info,
                self.config == mid.config,
                self.heartbeat_timer == mid.heartbeat_timer,
                self.timeout_timer == mid.timeout_timer,
            decreases packets@.len() - i,
        {
            let ghost pre = *self;
            let wrapped = match self.security_service.ss_wrap(packets[i].as_slice()) {
                Ok(w) => w,
                Err(_) => {
                    proof {
                        assert(self.channel_ids() =~= old(self).channel_ids());
                    }
                    return Err(RenetError::SecurityError);
                },
            };
            proof {
                assert(self.channel_ids() =~= pre.channel_ids());
            }
            out.push(wrapped);
            i += 1;
        }
        proof {
            assert(self.channel_ids() =~= old(self).channel_ids());
        }
        Ok(out)
    }

    /// Drains the channels in ascending id order and serializes what they
    /// produced into one Normal-packet payload; `None` when no channel had
    /// anything to send.
    #[verifier::loop_isolation(false)]
    pub fn get_packet(&mut self) -> (r: Result<Option<Vec<u8>>, RenetError>)
        requires
            old(self).wf(),
        ensures
            final(self).wf(),
            final(self).spec_sequence() == old(self).spec_sequence(),
            final(self).sent_buf() == old(self).sent_buf(),
            final(self).recv_buf() == old(self).recv_buf(),
            final(self).reasm_buf() == old(self).reasm_buf(),
            final(self).spec_acks() == old(self).spec_acks(),
            final(self).spec_network_info() == old(self).spec_network_info(),
            final(self).spec_config() == old(self).spec_config(),
            final(self).channel_ids() == old(self).channel_ids(),
            final(self).heartbeat_deadline() == old(self).heartbeat_deadline(),
            final(self).timeout_deadline() == old(self).timeout_deadline(),
            match r {
                Ok(Some(b)) => match spec_decode_channel_payload(b@) {
                    Some(cs) => cs.len() > 0 && (forall|j: int|
                        0 <= j < cs.len() ==> old(self).has_channel(#[trigger] cs[j].channel_id)
                            && cs[j].messages.len() > 0) && (forall|a: int, b2: int|
                        0 <= a < b2 < cs.len() ==> (#[trigger] cs[a]).channel_id < (#[trigger] cs[b2]).channel_id),
                    None => false,
                },
                Ok(None) => true,
                Err(e) => e == RenetError::SerializationFailed,
            },
    {
        let sequence = self.sequence;
        let mut channel_packets: Vec<ChannelPacketData> = Vec::new();
        let ghost mut last_k: int = 0;
        let n = self.channels.len();
        let mut i: usize = 0;
        while i < n
            invariant
                i <= n,
                n == self.channels@.len(),
                self.sequence == old(self).sequence,
                self.sent_buffer == old(self).sent_buffer,
                self.received_buffer == old(self).received_buffer,
                self.reassembly_buffer == old(self).reassembly_buffer,
                self.acks == old(self).acks,
                self.network_info == old(self).network_info,
                self.config == old(self).config,
                self.heartbeat_timer == old(self).heartbeat_timer,
                self.timeout_timer == old(self).timeout_timer,
                self.security_service == old(self).security_service,
                self.channel_ids() == old(self).channel_ids(),
                forall|j: int|
                    0 <= j < channel_packets@.len() ==> old(self).has_channel(
                        (#[trigger] cpds_model(channel_packets@)[j]).channel_id,
                    ) && cpds_model(channel_packets@)[j].messages.len() > 0,
                forall|a: int, b2: int|
                    0 <= a < b2 < channel_packets@.len() ==> (#[trigger] cpds_model(
                        channel_packets@,
                    )[a]).channel_id < (#[trigger] cpds_model(channel_packets@)[b2]).channel_id,
                channel_packets@.len() > 0 ==> 0 <= last_k < i && old(self).channel_ids()[last_k]
                    == cpds_model(channel_packets@)[channel_packets@.len() - 1].channel_id,
            decreases n - i,
        {
            let ghost pre = *self;
            let budget = self.config.max_packet_size;
            let channel_id = self.channels[i].0;
            let pair = &mut self.channels[i];
            let messages = pair.1.get_messages_to_send(
                Some(#[verifier::truncate] (budget as u32)),
                sequence,
            );
            proof {
                assert(self.channel_ids() =~= pre.channel_ids());
            }
            match messages {
                Some(msgs) => {
                    if msgs.len() > 0 {
                        let packet_data = ChannelPacketData::new(msgs, channel_id);
                        let ghost before = channel_packets@;
                        channel_packets.push(packet_data);
                        proof {
                            assert(old(self).channel_ids()[i as int] == channel_id);
                            assert(old(self).has_channel(channel_id));
                            assert(channel_packets@ == before.push(packet_data));
                            assert forall|j: int|
                                0 <= j < channel_packets@.len() implies old(self).has_channel(
                                (#[trigger] cpds_model(channel_packets@)[j]).channel_id,
                            ) && cpds_model(channel_packets@)[j].messages.len() > 0 by {
                                if j < before.len() {
                                    assert(cpds_model(channel_packets@)[j] == cpds_model(
                                        before,
                                    )[j]);
                                } else {
                                    assert(cpds_model(channel_packets@)[j] == packet_data@);
                                    assert(packet_data@.messages.len() > 0);
                                }
                            }
                            assert forall|a: int, b2: int|
                                0 <= a < b2 < channel_packets@.len() implies (#[trigger]
                            cpds_model(channel_packets@)[a]).channel_id < (#[trigger] cpds_model(
                                channel_packets@,
                            )[b2]).channel_id by {
                                assert(cpds_model(channel_packets@)[a] == cpds_model(before)[a]);
                                if b2 < before.len() {
                                    assert(cpds_model(channel_packets@)[b2] == cpds_model(
                                        before,
                                    )[b2]);
                                } else {
                                    assert(cpds_model(channel_packets@)[b2] == packet_data@);
                                    // The previously collected ids sit at indices before `i`
                                    // in the ascending id list, so they are all below this id.
                                    assert(cpds_model(before)[before.len() - 1].channel_id
                                        == old(self).channel_ids()[last_k]);
                                    if last_k < i {
                                        assert(old(self).channel_ids()[last_k] < old(
                                            self,
                                        ).channel_ids()[i as int]);
                                    }
                                    if a < before.len() - 1 {
                                        assert(cpds_model(before)[a].channel_id < cpds_model(
                                            before,
                                        )[before.len() - 1].channel_id);
                                    }
                                }
                            }
                            last_k = i as int;
                        }
                    }
                },
                None => {},
            }
            i += 1;
        }
        if channel_packets.is_empty() {
            return Ok(None);
        }
        match encode_channel_payload(&channel_packets) {
            Ok(bytes) => {
                proof {
                    crate::channel::lemma_channel_payload_round_trip(
                        cpds_model(channel_packets@),
                    );
                }
                Ok(Some(bytes))
            },
            Err(e) => Err(e),
        }
    }

    /// Drives the send path once: if the channels produced a payload it is
    /// framed and sent; otherwise, once the heartbeat interval has elapsed,
    /// exactly one Heartbeat goes out; otherwise nothing is emitted.  The
    /// heartbeat timer is reset exactly when a datagram is emitted: never
    /// early, and never on a failed send.
    pub fn send_packets(&mut self, now: u64) -> (r: Result<Vec<Vec<u8>>, RenetError>)
        requires
            old(self).wf(),
            now + old(self).spec_config().heartbeat_time <= u64::MAX,
        ensures
            final(self).wf(),
            final(self).recv_buf() == old(self).recv_buf(),
            final(self).reasm_buf() == old(self).reasm_buf(),
            final(self).spec_acks() == old(self).spec_acks(),
            final(self).spec_network_info() == old(self).spec_network_info(),
            final(self).spec_config() == old(self).spec_config(),
            final(self).channel_ids() == old(self).channel_ids(),
            final(self).timeout_deadline() == old(self).timeout_deadline(),
            r is Ok && r.unwrap()@.len() == 0 ==> now < old(self).heartbeat_deadline() && final(self).heartbeat_deadline() == old(self).heartbeat_deadline() && final(self).spec_sequence() == old(self).spec_sequence() && final(self).sent_buf() == old(self).sent_buf(),
            r is Ok && r.unwrap()@.len() >= 1 ==> final(self).heartbeat_deadline() == now + old(self).spec_config().heartbeat_time,
            r is Err ==> final(self).heartbeat_deadline() == old(self).heartbeat_deadline(),
            r is Ok && now >= old(self).heartbeat_deadline() ==> r.unwrap()@.len() >= 1,
            r is Ok && final(self).spec_sequence() == old(self).spec_sequence() && now < old(self).heartbeat_deadline() ==> r.unwrap()@.len() == 0,
            r is Ok && r.unwrap()@.len() >= 1 && final(self).spec_sequence() == old(self).spec_sequence() ==> r.unwrap()@.len() == 1,
            final(self).spec_sequence() != old(self).spec_sequence() ==> final(self).spec_sequence() == wrap16_add(old(self).spec_sequence(), 1),
    {
        let maybe_payload = match self.get_packet() {
            Ok(p) => p,
            Err(e) => {
                return Err(e);
            },
        };
        match maybe_payload {
            Some(payload) => {
                match self.send_payload(payload.as_slice(), now) {
                    Ok(datagrams) => {
                        proof {
                            assert(num_chunks(
                                payload@.len() as int,
                                self.spec_config().fragment_config.fragment_size as int,
                            ) >= 1) by (nonlinear_arith)
                                requires
                                    self.spec_config().fragment_config.fragment_size >= 1,
                                    payload@.len() > 0,
                            ;
                            assert(wrap16_add(old(self).spec_sequence(), 1) != old(self).spec_sequence());
                        }
                        self.heartbeat_timer.reset(now);
                        proof {
                            assert(self.channel_ids() =~= old(self).channel_ids());
                        }
                        Ok(datagrams)
                    },
                    Err(e) => Err(e),
                }
            },
            None => {
                if self.heartbeat_timer.is_finished(now) {
                    let packet = match self.build_heartbeat_packet() {
                        Ok(p) => p,
                        Err(e) => {
                            return Err(e);
                        },
                    };
                    let ghost pre = *self;
                    let wrapped = match self.security_service.ss_wrap(packet.as_slice()) {
                        Ok(w) => w,
                        Err(_) => {
                            proof {
                                assert(self.channel_ids() =~= pre.channel_ids());
                            }
                            return Err(RenetError::SecurityError);
                        },
                    };
                    self.heartbeat_timer.reset(now);
                    proof {
                        assert(self.channel_ids() =~= pre.channel_ids());
                    }
                    let mut out: Vec<Vec<u8>> = Vec::new();
                    out.push(wrapped);
                    Ok(out)
                } else {
                    let out: Vec<Vec<u8>> = Vec::new();
                    Ok(out)
                }
            },
        }
    }

    /// Samples the most recent quarter of the sent window: smooths packet
    /// loss with the fraction of unacknowledged packets, and, when the
    /// window spans time, smooths the outbound bandwidth estimate.
    #[verifier::loop_isolation(false)]
    fn update_sent_bandwidth(&mut self)
        requires
            old(self).wf(),
        ensures
            final(self).wf(),
            final(self).spec_network_info() == spec_sent_estimates(
                old(self).sent_buf(),
                old(self).spec_config(),
                old(self).spec_network_info(),
            ),
            final(self).spec_sequence() == old(self).spec_sequence(),
            final(self).spec_channels() == old(self).spec_channels(),
            final(self).sent_buf() == old(self).sent_buf(),
            final(self).recv_buf() == old(self).recv_buf(),
            final(self).reasm_buf() == old(self).reasm_buf(),
            final(self).spec_acks() == old(self).spec_acks(),
            final(self).spec_config() == old(self).spec_config(),
            final(self).heartbeat_deadline() == old(self).heartbeat_deadline(),
            final(self).timeout_deadline() == old(self).timeout_deadline(),
    {
        let ghost b = self.sent_buffer;
        let sample_size = self.config.sent_packets_buffer_size / 4;
        let base = self.sent_buffer.sequence().wrapping_sub(sample_size as u16).wrapping_add(1);
        let mut packets_dropped: u64 = 0;
        let mut bytes_sent: u128 = 0;
        let mut min_time: Option<u64> = None;
        let mut max_time: Option<u64> = None;
        let mut i: usize = 0;
        while i < sample_size
            invariant
                i <= sample_size,
                *self == *old(self),
                base == wrap16_add(wrap16_sub(b.head(), sample_size as u16), 1),
                packets_dropped == window_dropped(b, base, i as int),
                bytes_sent == window_sent_bytes(b, base, i as int),
                min_time == window_sent_min(b, base, i as int),
                max_time == window_sent_max(b, base, i as int),
            decreases sample_size - i,
        {
            proof {
                lemma_window_sent_bytes_bound(b, base, i as int);
                lemma_window_dropped_bound(b, base, i as int);
            }
            let t = base.wrapping_add(i as u16);
            match self.sent_buffer.get(t) {
                Some(sp) => {
                    if sp.size_bytes != 0 {
                        bytes_sent = bytes_sent + sp.size_bytes as u128;
                        min_time = match min_time {
                            None => Some(sp.time),
                            Some(m) => Some(
                                if sp.time < m {
                                    sp.time
                                } else {
                                    m
                                },
                            ),
                        };
                        max_time = match max_time {
                            None => Some(sp.time),
                            Some(m) => Some(
                                if sp.time > m {
                                    sp.time
                                } else {
                                    m
                                },
                            ),
                        };
                        if !sp.ack {
                            packets_dropped = packets_dropped + 1;
                        }
                    }
                },
                None => {},
            }
            i += 1;
        }
        proof {
            lemma_window_dropped_bound(b, base, sample_size as int);
        }
        let loss_sample = packets_dropped * 10000 / (sample_size as u64);
        let alpha = self.config.measure_smoothing_factor;
        let smoothed_loss = ewma(self.network_info.packet_loss, loss_sample, alpha);
        self.network_info.packet_loss = smoothed_loss;
        match (min_time, max_time) {
            (Some(t0), Some(t1)) => {
                if t1 > t0 {
                    proof {
                        lemma_window_sent_bytes_bound(b, base, sample_size as int);
                    }
                    let dt = (t1 - t0) as u128;
                    let wide = bytes_sent * 8000 / dt;
                    let sample_kbps = if wide > u64::MAX as u128 {
                        u64::MAX
                    } else {
                        wide as u64
                    };
                    proof {
                        assert(sample_kbps == kbps_of(
                            window_sent_bytes(b, base, sample_size as int),
                            t1 - t0,
                        ));
                    }
                    let smoothed = ewma(
                        self.network_info.sent_bandwidth_kbps,
                        sample_kbps,
                        alpha,
                    );
                    self.network_info.sent_bandwidth_kbps = smoothed;
                }
            },
            _ => {},
        }
        proof {
            assert(self.channel_ids() =~= old(self).channel_ids());
        }
    }

    /// Samples the most recent quarter of the received window and, when it
    /// spans time, smooths the inbound bandwidth estimate.
    #[verifier::loop_isolation(false)]
    fn update_received_bandwidth(&mut self)
        requires
            old(self).wf(),
        ensures
            final(self).wf(),
            final(self).spec_network_info() == spec_recv_estimates(
                old(self).recv_buf(),
                old(self).spec_config(),
                old(self).spec_network_info(),
            ),
            final(self).spec_sequence() == old(self).spec_sequence(),
            final(self).spec_channels() == old(self).spec_channels(),
            final(self).sent_buf() == old(self).sent_buf(),
            final(self).recv_buf() == old(self).recv_buf(),
            final(self).reasm_buf() == old(self).reasm_buf(),
            final(self).spec_acks() == old(self).spec_acks(),
            final(self).spec_config() == old(self).spec_config(),
            final(self).heartbeat_deadline() == old(self).heartbeat_deadline(),
            final(self).timeout_deadline() == old(self).timeout_deadline(),
    {
        let ghost b = self.received_buffer;
        let sample_size = self.config.received_packets_buffer_size / 4;
        let base = self.received_buffer.sequence().wrapping_sub(
            sample_size as u16,
        ).wrapping_add(1);
        let mut bytes_received: u128 = 0;
        let mut min_time: Option<u64> = None;
        let mut max_time: Option<u64> = None;
        let mut i: usize = 0;
        while i < sample_size
            invariant
                i <= sample_size,
                *self == *old(self),
                base == wrap16_add(wrap16_sub(b.head(), sample_size as u16), 1),
                bytes_received == window_recv_bytes(b, base, i as int),
                min_time == window_recv_min(b, base, i as int),
                max_time == window_recv_max(b, base, i as int),
            decreases sample_size - i,
        {
            proof {
                lemma_window_recv_bytes_bound(b, base, i as int);
            }
            let t = base.wrapping_add(i as u16);
            match self.received_buffer.get(t) {
                Some(rp) => {
                    bytes_received = bytes_received + rp.size_bytes as u128;
                    min_time = match min_time {
                        None => Some(rp.time),
                        Some(m) => Some(
                            if rp.time < m {
                                rp.time
                            } else {
                                m
                            },
                        ),
                    };
                    max_time = match max_time {
                        None => Some(rp.time),
                        Some(m) => Some(
                            if rp.time > m {
                                rp.time
                            } else {
                                m
                            },
                        ),
                    };
                },
                None => {},
            }
            i += 1;
        }
        match (min_time, max_time) {
            (Some(t0), Some(t1)) => {
                if t1 > t0 {
                    proof {
                        lemma_window_recv_bytes_bound(b, base, sample_size as int);
                    }
                    let dt = (t1 - t0) as u128;
                    let wide = bytes_received * 8000 / dt;
                    let sample_kbps = if wide > u64::MAX as u128 {
                        u64::MAX
                    } else {
                        wide as u64
                    };
                    proof {
                        assert(sample_kbps == kbps_of(
                            window_recv_bytes(b, base, sample_size as int),
                            t1 - t0,
                        ));
                    }
                    let alpha = self.config.measure_smoothing_factor;
                    let smoothed = ewma(
                        self.network_info.received_bandwidth_kbps,
                        sample_kbps,
                        alpha,
                    );
                    self.network_info.received_bandwidth_kbps = smoothed;
                }
            },
            _ => {},
        }
        proof {
            assert(self.channel_ids() =~= old(self).channel_ids());
        }
    }

    /// Refreshes the estimates from the current sampling windows, once per
    /// driver tick: packet loss and outbound bandwidth from the sent window,
    /// then inbound bandwidth from the received window; the round-trip time
    /// is left to the ack path.
    pub fn update_network_info(&mut self)
        requires
            old(self).wf(),
        ensures
            final(self).wf(),
            final(self).spec_sequence() == old(self).spec_sequence(),
            final(self).spec_channels() == old(self).spec_channels(),
            final(self).sent_buf() == old(self).sent_buf(),
            final(self).recv_buf() == old(self).recv_buf(),
            final(self).reasm_buf() == old(self).reasm_buf(),
            final(self).spec_acks() == old(self).spec_acks(),
            final(self).spec_config() == old(self).spec_config(),
            final(self).heartbeat_deadline() == old(self).heartbeat_deadline(),
            final(self).timeout_deadline() == old(self).timeout_deadline(),
            final(self).spec_network_info() == spec_recv_estimates(
                old(self).recv_buf(),
                old(self).spec_config(),
                spec_sent_estimates(
                    old(self).sent_buf(),
                    old(self).spec_config(),
                    old(self).spec_network_info(),
                ),
            ),
            final(self).spec_network_info().rtt == old(self).spec_network_info().rtt,
    {
        self.update_sent_bandwidth();
        self.update_received_bandwidth();
    }

    /// The allocator never reuses a tracked sequence: with a power-of-two
    /// sent window, the sequence number the connection will allocate next
    /// is not one still present in the sent tracker, so no live record is
    /// ever silently overwritten by a fresh send.
    pub proof fn lemma_next_sequence_not_tracked(self)
        requires
            self.wf(),
            is_pow2(self.spec_config().sent_packets_buffer_size as int),
        ensures
            !self.sent_buf().contains(self.spec_sequence()),
    {
        if self.spec_sequence() == wrap16_add(self.sent_buf().head(), 1) {
            self.sent_buf().lemma_successor_not_tracked();
        }
    }

    /// The current quality estimates.
    pub fn network_info(&self) -> (r: &NetworkInfo)
        ensures
            *r == self.spec_network_info(),
    {
        &self.network_info
    }
}

} // verus!
