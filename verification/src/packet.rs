//! Packet schema and its byte codec.
//!
//! Four logical variants ride on the wire: a Normal data packet, a Fragment
//! of an oversized payload, a Heartbeat carrying only ack metadata, and a
//! Connection control frame.  Integers are little-endian; the first byte is
//! the variant tag.  `spec_decode_packet` is the ground truth for parsing,
//! and decoding an encoded packet gives the packet back.

use crate::error::RenetError;
use vstd::prelude::*;
use vstd::slice::slice_to_vec;

verus! {

/// Ack metadata carried by every outbound packet: the most recently received
/// sequence and the 32-bit mask over its predecessors.
#[derive(Clone, Copy, Debug, PartialEq, Eq, Structural)]
pub struct AckData {
    pub ack: u16,
    pub ack_bits: u32,
}

/// A data packet carrying one serialized channel payload.
#[derive(Clone, Debug)]
pub struct Normal {
    pub sequence: u16,
    pub ack_data: AckData,
    pub payload: Vec<u8>,
}

/// One piece of an oversized payload; all pieces share a sequence.
#[derive(Clone, Debug)]
pub struct Fragment {
    pub sequence: u16,
    pub ack_data: AckData,
    pub fragment_id: u8,
    pub num_fragments: u8,
    pub payload: Vec<u8>,
}

/// A keep-alive packet carrying only ack metadata.
#[derive(Clone, Copy, Debug, PartialEq, Eq, Structural)]
pub struct HeartBeat {
    pub ack_data: AckData,
}

/// A control frame; only a present error code is acted upon.
#[derive(Clone, Copy, Debug, PartialEq, Eq, Structural)]
pub struct Connection {
    pub error: Option<u32>,
}

/// The tagged union of wire packets.
#[derive(Clone, Debug)]
pub enum Packet {
    Normal(Normal),
    Fragment(Fragment),
    Heartbeat(HeartBeat),
    Connection(Connection),
}

/// The mathematical model of a packet, with payloads as byte sequences.
pub enum PacketModel {
    Normal { sequence: u16, ack: u16, ack_bits: u32, payload: Seq<u8> },
    Fragment {
        sequence: u16,
        ack: u16,
        ack_bits: u32,
        fragment_id: u8,
        num_fragments: u8,
        payload: Seq<u8>,
    },
    Heartbeat { ack: u16, ack_bits: u32 },
    Connection { error: Option<u32> },
}

impl View for Packet {
    type V = PacketModel;

    open spec fn view(&self) -> PacketModel {
        match self {
            Packet::Normal(n) => PacketModel::Normal {
                sequence: n.sequence,
                ack: n.ack_data.ack,
                ack_bits: n.ack_data.ack_bits,
                payload: n.payload@,
            },
            Packet::Fragment(f) => PacketModel::Fragment {
                sequence: f.sequence,
                ack: f.ack_data.ack,
                ack_bits: f.ack_data.ack_bits,
                fragment_id: f.fragment_id,
                num_fragments: f.num_fragments,
                payload: f.payload@,
            },
            Packet::Heartbeat(h) => PacketModel::Heartbeat {
                ack: h.ack_data.ack,
                ack_bits: h.ack_data.ack_bits,
            },
            Packet::Connection(c) => PacketModel::Connection { error: c.error },
        }
    }
}

/// Low byte of a 16-bit integer.
pub open spec fn u16_lo(x: u16) -> u8 {
    (x % 256) as u8
}

/// High byte of a 16-bit integer.
pub open spec fn u16_hi(x: u16) -> u8 {
    (x / 256) as u8
}

/// The 16-bit integer with the given little-endian bytes.
pub open spec fn u16_of(b0: u8, b1: u8) -> u16 {
    (b0 + b1 * 256) as u16
}

/// Little-endian bytes of a 32-bit integer.
pub open spec fn u32_le_bytes(x: u32) -> Seq<u8> {
    seq![
        (x % 256) as u8,
        ((x / 256) % 256) as u8,
        ((x / 0x10000) % 256) as u8,
        (x / 0x1000000) as u8,
    ]
}

/// The 32-bit integer with the given little-endian bytes.
pub open spec fn u32_of(b0: u8, b1: u8, b2: u8, b3: u8) -> u32 {
    (b0 + b1 * 256 + b2 * 0x10000 + b3 * 0x1000000) as u32
}

/// Recomposing the little-endian bytes of a 32-bit integer gives it back.
pub proof fn lemma_u32_le_round(x: u32)
    by (bit_vector)
    ensures
        x % 256 + ((x / 256) % 256) * 256 + ((x / 0x10000) % 256) * 0x10000 + (x / 0x1000000)
            * 0x1000000 == x,
{
}

/// The serialized ack metadata: two bytes of ack, four of the mask.
pub open spec fn spec_ack_bytes(ack: u16, ack_bits: u32) -> Seq<u8> {
    seq![u16_lo(ack), u16_hi(ack)] + u32_le_bytes(ack_bits)
}

/// The byte encoding of a packet.
pub open spec fn spec_encode_packet(p: PacketModel) -> Seq<u8> {
    match p {
        PacketModel::Normal { sequence, ack, ack_bits, payload } => seq![0u8]
            + seq![u16_lo(sequence), u16_hi(sequence)] + spec_ack_bytes(ack, ack_bits) + payload,
        PacketModel::Fragment { sequence, ack, ack_bits, fragment_id, num_fragments, payload } => (
        seq![1u8] + seq![u16_lo(sequence), u16_hi(sequence)] + spec_ack_bytes(ack, ack_bits)
            + seq![fragment_id, num_fragments]) + payload,
        PacketModel::Heartbeat { ack, ack_bits } => seq![2u8] + spec_ack_bytes(ack, ack_bits),
        PacketModel::Connection { error } => match error {
            None => seq![3u8, 0u8],
            Some(code) => seq![3u8, 1u8] + u32_le_bytes(code),
        },
    }
}

/// The packet a byte string parses to, if any: the ground truth that the
/// executable decoder is held to.
pub open spec fn spec_decode_packet(b: Seq<u8>) -> Option<PacketModel> {
    if b.len() < 1 {
        None
    } else if b[0] == 0u8 {
        if b.len() < 9 {
            None
        } else {
            Some(PacketModel::Normal {
                sequence: u16_of(b[1], b[2]),
                ack: u16_of(b[3], b[4]),
                ack_bits: u32_of(b[5], b[6], b[7], b[8]),
                payload: b.subrange(9, b.len() as int),
            })
        }
    } else if b[0] == 1u8 {
        if b.len() < 11 {
            None
        } else {
            Some(PacketModel::Fragment {
                sequence: u16_of(b[1], b[2]),
                ack: u16_of(b[3], b[4]),
                ack_bits: u32_of(b[5], b[6], b[7], b[8]),
                fragment_id: b[9],
                num_fragments: b[10],
                payload: b.subrange(11, b.len() as int),
            })
        }
    } else if b[0] == 2u8 {
        if b.len() == 7 {
            Some(PacketModel::Heartbeat {
                ack: u16_of(b[1], b[2]),
                ack_bits: u32_of(b[3], b[4], b[5], b[6]),
            })
        } else {
            None
        }
    } else if b[0] == 3u8 {
        if b.len() == 2 && b[1] == 0u8 {
            Some(PacketModel::Connection { error: None })
        } else if b.len() == 6 && b[1] == 1u8 {
            Some(PacketModel::Connection { error: Some(u32_of(b[2], b[3], b[4], b[5])) })
        } else {
            None
        }
    } else {
        None
    }
}

/// Decoding an encoded packet yields that packet: the codec round-trips
/// every variant.
pub proof fn lemma_packet_codec_round_trip(p: PacketModel)
    ensures
        spec_decode_packet(spec_encode_packet(p)) == Some(p),
{
    let b = spec_encode_packet(p);
    match p {
        PacketModel::Normal { sequence, ack, ack_bits, payload } => {
            lemma_u32_le_round(ack_bits);
            assert(b.subrange(9, b.len() as int) =~= payload);
        },
        PacketModel::Fragment { sequence, ack, ack_bits, fragment_id, num_fragments, payload } => {
            lemma_u32_le_round(ack_bits);
            assert(b.subrange(11, b.len() as int) =~= payload);
        },
        PacketModel::Heartbeat { ack, ack_bits } => {
            lemma_u32_le_round(ack_bits);
        },
        PacketModel::Connection { error } => {
            match error {
                None => {},
                Some(code) => {
                    lemma_u32_le_round(code);
                },
            }
        },
    }
}

/// Appends the two little-endian bytes of `x`.
fn push_u16_le(out: &mut Vec<u8>, x: u16)
    ensures
        final(out)@ == old(out)@ + seq![u16_lo(x), u16_hi(x)],
{
    out.push((x % 256) as u8);
    out.push((x / 256) as u8);
    proof {
        assert(out@ =~= old(out)@ + seq![u16_lo(x), u16_hi(x)]);
    }
}

/// Appends the four little-endian bytes of `x`.
pub fn push_u32_le(out: &mut Vec<u8>, x: u32)
    ensures
        final(out)@ == old(out)@ + u32_le_bytes(x),
{
    out.push((x % 256) as u8);
    out.push(((x / 256) % 256) as u8);
    out.push(((x / 0x10000) % 256) as u8);
    out.push((x / 0x1000000) as u8);
    proof {
        assert(out@ =~= old(out)@ + u32_le_bytes(x));
    }
}

/// Reads the 16-bit integer at offset `i`.
fn read_u16_le(b: &[u8], i: usize) -> (r: u16)
    requires
        i + 2 <= b@.len(),
    ensures
        r == u16_of(b@[i as int], b@[i + 1]),
{
    b[i] as u16 + (b[i + 1] as u16) * 256
}

/// Reads the 32-bit integer at offset `i`.
fn read_u32_le(b: &[u8], i: usize) -> (r: u32)
    requires
        i + 4 <= b@.len(),
    ensures
        r == u32_of(b@[i as int], b@[i + 1], b@[i + 2], b@[i + 3]),
{
    b[i] as u32 + (b[i + 1] as u32) * 256 + (b[i + 2] as u32) * 0x10000 + (b[i + 3] as u32)
        * 0x1000000
}

/// Copies `b[start..end]` into a fresh byte vector.
pub fn copy_range(b: &[u8], start: usize, end: usize) -> (r: Vec<u8>)
    requires
        start <= end <= b@.len(),
    ensures
        r@ == b@.subrange(start as int, end as int),
{
    let piece: &[u8] = &b[start..end];
    slice_to_vec(piece)
}

/// Serializes a packet.
pub fn encode_packet(p: &Packet) -> (r: Vec<u8>)
    ensures
        r@ == spec_encode_packet(p@),
{
    let mut out: Vec<u8> = Vec::new();
    match p {
        Packet::Normal(n) => {
            out.push(0u8);
            push_u16_le(&mut out, n.sequence);
            push_u16_le(&mut out, n.ack_data.ack);
            push_u32_le(&mut out, n.ack_data.ack_bits);
            let mut tail = slice_to_vec(n.payload.as_slice());
            out.append(&mut tail);
            proof {
                assert(out@ =~= spec_encode_packet(p@));
            }
        },
        Packet::Fragment(f) => {
            out.push(1u8);
            push_u16_le(&mut out, f.sequence);
            push_u16_le(&mut out, f.ack_data.ack);
            push_u32_le(&mut out, f.ack_data.ack_bits);
            out.push(f.fragment_id);
            out.push(f.num_fragments);
            let mut tail = slice_to_vec(f.payload.as_slice());
            out.append(&mut tail);
            proof {
                assert(out@ =~= spec_encode_packet(p@));
            }
        },
        Packet::Heartbeat(h) => {
            out.push(2u8);
            push_u16_le(&mut out, h.ack_data.ack);
            push_u32_le(&mut out, h.ack_data.ack_bits);
            proof {
                assert(out@ =~= spec_encode_packet(p@));
            }
        },
        Packet::Connection(c) => {
            match c.error {
                None => {
                    out.push(3u8);
                    out.push(0u8);
                },
                Some(code) => {
                    out.push(3u8);
                    out.push(1u8);
                    push_u32_le(&mut out, code);
                },
            }
            proof {
                assert(out@ =~= spec_encode_packet(p@));
            }
        },
    }
    out
}

/// Parses a packet, the exact inverse of `spec_decode_packet`: succeeds on
/// precisely the byte strings that parse, and returns what they parse to.
pub fn decode_packet(b: &[u8]) -> (r: Result<Packet, RenetError>)
    ensures
        match r {
            Ok(p) => spec_decode_packet(b@) == Some(p@),
            Err(e) => spec_decode_packet(b@) is None && e == RenetError::SerializationFailed,
        },
{
    let n = b.len();
    if n < 1 {
        return Err(RenetError::SerializationFailed);
    }
    let tag = b[0];
    if tag == 0 {
        if n < 9 {
            return Err(RenetError::SerializationFailed);
        }
        let sequence = read_u16_le(b, 1);
        let ack = read_u16_le(b, 3);
        let ack_bits = read_u32_le(b, 5);
        let payload = copy_range(b, 9, n);
        Ok(Packet::Normal(Normal { sequence, ack_data: AckData { ack, ack_bits }, payload }))
    } else if tag == 1 {
        if n < 11 {
            return Err(RenetError::SerializationFailed);
        }
        let sequence = read_u16_le(b, 1);
        let ack = read_u16_le(b, 3);
        let ack_bits = read_u32_le(b, 5);
        let fragment_id = b[9];
        let num_fragments = b[10];
        let payload = copy_range(b, 11, n);
        Ok(
            Packet::Fragment(
                Fragment {
                    sequence,
                    ack_data: AckData { ack, ack_bits },
                    fragment_id,
                    num_fragments,
                    payload,
                },
            ),
        )
    } else if tag == 2 {
        if n != 7 {
            return Err(RenetError::SerializationFailed);
        }
        let ack = read_u16_le(b, 1);
        let ack_bits = read_u32_le(b, 3);
        Ok(Packet::Heartbeat(HeartBeat { ack_data: AckData { ack, ack_bits } }))
    } else if tag == 3 {
        if n == 2 && b[1] == 0 {
            Ok(Packet::Connection(Connection { error: None }))
        } else if n == 6 && b[1] == 1 {
            let code = read_u32_le(b, 2);
            Ok(Packet::Connection(Connection { error: Some(code) }))
        } else {
            Err(RenetError::SerializationFailed)
        }
    } else {
        Err(RenetError::SerializationFailed)
    }
}

} // verus!
