//! The channel capability and the channel-payload codec.
//!
//! A channel is a named lane with its own delivery policy, opaque to the
//! core: the core never inspects message contents.  A Normal packet's
//! payload is the encoding of a list of `ChannelPacketData`, each pairing a
//! channel id with the messages bound for it.

use crate::error::RenetError;
use crate::packet::{u16_lo, u16_hi, u16_of, u32_le_bytes, u32_of, lemma_u32_le_round, push_u32_le, copy_range};
use vstd::prelude::*;
use vstd::slice::slice_to_vec;

verus! {

/// The delivery-policy capability a channel implementation provides.
/// The core routes bytes through these five operations and never looks
/// inside a message.
pub trait Channel {
    /// Enqueues an application payload for sending.
    fn send_message(&mut self, payload: Vec<u8>);

    /// Produces messages that fit in `available_bytes`, tagged internally
    /// with `sequence` so later acks can be associated with them.
    fn get_messages_to_send(&mut self, available_bytes: Option<u32>, sequence: u16) -> Option<
        Vec<Vec<u8>>,
    >;

    /// Tells the channel that the packet sent under `ack` was confirmed.
    fn process_ack(&mut self, ack: u16);

    /// Delivers inbound messages to the channel.
    fn process_messages(&mut self, messages: Vec<Vec<u8>>);

    /// Dequeues one delivered message, if any.
    fn receive_message(&mut self) -> Option<Vec<u8>>;
}

/// The messages of one channel inside a Normal packet payload.
#[derive(Clone, Debug)]
pub struct ChannelPacketData {
    pub messages: Vec<Vec<u8>>,
    pub channel_id: u8,
}

/// The mathematical model of `ChannelPacketData`.
pub struct ChannelPacketDataModel {
    pub messages: Seq<Seq<u8>>,
    pub channel_id: u8,
}

impl View for ChannelPacketData {
    type V = ChannelPacketDataModel;

    open spec fn view(&self) -> ChannelPacketDataModel {
        ChannelPacketDataModel { messages: self.messages.deep_view(), channel_id: self.channel_id }
    }
}

impl ChannelPacketData {
    /// Pairs `messages` with the channel they belong to.
    pub fn new(messages: Vec<Vec<u8>>, channel_id: u8) -> (r: ChannelPacketData)
        ensures
            r@.messages == messages.deep_view(),
            r@.channel_id == channel_id,
    {
        ChannelPacketData { messages, channel_id }
    }
}

/// The models of a list of channel packets.
pub open spec fn cpds_model(s: Seq<ChannelPacketData>) -> Seq<ChannelPacketDataModel> {
    Seq::new(s.len(), |i: int| s[i]@)
}

/// A message that the length prefix can describe.
pub open spec fn message_fits(m: Seq<u8>) -> bool {
    m.len() <= u32::MAX
}

/// Channel packet data whose counts and lengths all fit their prefixes.
pub open spec fn cpd_fits(c: ChannelPacketDataModel) -> bool {
    &&& c.messages.len() <= u32::MAX
    &&& forall|i: int| 0 <= i < c.messages.len() ==> message_fits(#[trigger] c.messages[i])
}

/// A channel-packet list whose entry count fits its 16-bit prefix.
pub open spec fn cpds_fit(cs: Seq<ChannelPacketDataModel>) -> bool {
    &&& cs.len() <= u16::MAX
    &&& forall|i: int| 0 <= i < cs.len() ==> cpd_fits(#[trigger] cs[i])
}

/// One message on the wire: a 32-bit length then the bytes.
pub open spec fn spec_encode_message(m: Seq<u8>) -> Seq<u8> {
    u32_le_bytes(m.len() as u32) + m
}

/// A run of messages on the wire, in order.
pub open spec fn spec_encode_messages(ms: Seq<Seq<u8>>) -> Seq<u8>
    decreases ms.len(),
{
    if ms.len() == 0 {
        Seq::empty()
    } else {
        spec_encode_message(ms[0]) + spec_encode_messages(ms.subrange(1, ms.len() as int))
    }
}

/// One channel's entry: the id, a 32-bit message count, then the messages.
pub open spec fn spec_encode_channel_packet_data(c: ChannelPacketDataModel) -> Seq<u8> {
    seq![c.channel_id] + u32_le_bytes(c.messages.len() as u32) + spec_encode_messages(c.messages)
}

/// A run of channel entries on the wire, in order.
pub open spec fn spec_encode_channel_packets(cs: Seq<ChannelPacketDataModel>) -> Seq<u8>
    decreases cs.len(),
{
    if cs.len() == 0 {
        Seq::empty()
    } else {
        spec_encode_channel_packet_data(cs[0]) + spec_encode_channel_packets(
            cs.subrange(1, cs.len() as int),
        )
    }
}

/// The whole Normal-packet payload: a 16-bit entry count then the entries.
pub open spec fn spec_encode_channel_payload(cs: Seq<ChannelPacketDataModel>) -> Seq<u8> {
    seq![u16_lo(cs.len() as u16), u16_hi(cs.len() as u16)] + spec_encode_channel_packets(cs)
}

/// Parses `n` messages off the front of `b`; yields them and the remainder.
pub open spec fn spec_parse_messages(b: Seq<u8>, n: nat) -> Option<(Seq<Seq<u8>>, Seq<u8>)>
    decreases n,
{
    if n == 0 {
        Some((Seq::empty(), b))
    } else if b.len() < 4 {
        None
    } else {
        let len = u32_of(b[0], b[1], b[2], b[3]) as int;
        if b.len() < 4 + len {
            None
        } else {
            let m = b.subrange(4, 4 + len);
            let rest = b.subrange(4 + len, b.len() as int);
            match spec_parse_messages(rest, (n - 1) as nat) {
                Some(p) => Some((seq![m] + p.0, p.1)),
                None => None,
            }
        }
    }
}

/// Parses `n` channel entries off the front of `b`.
pub open spec fn spec_parse_channel_packets(b: Seq<u8>, n: nat) -> Option<
    (Seq<ChannelPacketDataModel>, Seq<u8>),
>
    decreases n,
{
    if n == 0 {
        Some((Seq::empty(), b))
    } else if b.len() < 5 {
        None
    } else {
        let id = b[0];
        let count = u32_of(b[1], b[2], b[3], b[4]);
        match spec_parse_messages(b.subrange(5, b.len() as int), count as nat) {
            Some(p) => match spec_parse_channel_packets(p.1, (n - 1) as nat) {
                Some(q) => Some(
                    (seq![ChannelPacketDataModel { messages: p.0, channel_id: id }] + q.0, q.1),
                ),
                None => None,
            },
            None => None,
        }
    }
}

/// The channel-packet list a payload parses to, if any: the ground truth
/// that the executable decoder is held to.
pub open spec fn spec_decode_channel_payload(b: Seq<u8>) -> Option<Seq<ChannelPacketDataModel>> {
    if b.len() < 2 {
        None
    } else {
        let n = u16_of(b[0], b[1]);
        match spec_parse_channel_packets(b.subrange(2, b.len() as int), n as nat) {
            Some(p) => if p.1.len() == 0 {
                Some(p.0)
            } else {
                None
            },
            None => None,
        }
    }
}

proof fn lemma_parse_messages_round(ms: Seq<Seq<u8>>, rest: Seq<u8>)
    requires
        forall|i: int| 0 <= i < ms.len() ==> message_fits(#[trigger] ms[i]),
    ensures
        spec_parse_messages(spec_encode_messages(ms) + rest, ms.len()) == Some((ms, rest)),
    decreases ms.len(),
{
    if ms.len() == 0 {
        assert(spec_encode_messages(ms) + rest =~= rest);
    } else {
        let m = ms[0];
        let tail = ms.subrange(1, ms.len() as int);
        let b = spec_encode_messages(ms) + rest;
        lemma_u32_le_round(m.len() as u32);
        assert(b =~= (u32_le_bytes(m.len() as u32) + m) + (spec_encode_messages(tail) + rest));
        assert(u32_of(b[0], b[1], b[2], b[3]) == m.len());
        assert(b.subrange(4, 4 + m.len() as int) =~= m);
        assert(b.subrange(4 + m.len() as int, b.len() as int) =~= spec_encode_messages(tail)
            + rest);
        lemma_parse_messages_round(tail, rest);
        assert(seq![m] + tail =~= ms);
    }
}

proof fn lemma_parse_channel_packets_round(cs: Seq<ChannelPacketDataModel>, rest: Seq<u8>)
    requires
        forall|i: int| 0 <= i < cs.len() ==> cpd_fits(#[trigger] cs[i]),
    ensures
        spec_parse_channel_packets(spec_encode_channel_packets(cs) + rest, cs.len()) == Some(
            (cs, rest),
        ),
    decreases cs.len(),
{
    if cs.len() == 0 {
        assert(spec_encode_channel_packets(cs) + rest =~= rest);
    } else {
        let c = cs[0];
        let tail = cs.subrange(1, cs.len() as int);
        let b = spec_encode_channel_packets(cs) + rest;
        lemma_u32_le_round(c.messages.len() as u32);
        assert(b =~= (seq![c.channel_id] + u32_le_bytes(c.messages.len() as u32)
            + spec_encode_messages(c.messages)) + (spec_encode_channel_packets(tail) + rest));
        assert(b[0] == c.channel_id);
        assert(u32_of(b[1], b[2], b[3], b[4]) == c.messages.len());
        assert(b.subrange(5, b.len() as int) =~= spec_encode_messages(c.messages)
            + (spec_encode_channel_packets(tail) + rest));
        lemma_parse_messages_round(c.messages, spec_encode_channel_packets(tail) + rest);
        lemma_parse_channel_packets_round(tail, rest);
        assert(seq![ChannelPacketDataModel { messages: c.messages, channel_id: c.channel_id }]
            + tail =~= cs);
    }
}

/// The channel-payload codec round-trips: decoding an encoded list of
/// channel packets, whose counts and lengths fit their prefixes, gives the
/// list back.
pub proof fn lemma_channel_payload_round_trip(cs: Seq<ChannelPacketDataModel>)
    requires
        cpds_fit(cs),
    ensures
        spec_decode_channel_payload(spec_encode_channel_payload(cs)) == Some(cs),
{
    let b = spec_encode_channel_payload(cs);
    assert(u16_of(b[0], b[1]) == cs.len());
    assert(b.subrange(2, b.len() as int) =~= spec_encode_channel_packets(cs) + Seq::<u8>::empty());
    lemma_parse_channel_packets_round(cs, Seq::empty());
}

/// Decides whether every message length fits its 32-bit prefix and the
/// message count fits too.
fn messages_fit_exec(msgs: &Vec<Vec<u8>>) -> (r: bool)
    ensures
        r == cpd_fits(ChannelPacketDataModel { messages: msgs.deep_view(), channel_id: 0 }),
{
    if msgs.len() as u64 > u32::MAX as u64 {
        return false;
    }
    let mut i: usize = 0;
    while i < msgs.len()
        invariant
            i <= msgs@.len(),
            msgs@.len() <= u32::MAX,
            forall|j: int| 0 <= j < i ==> message_fits(#[trigger] msgs.deep_view()[j]),
        decreases msgs@.len() - i,
    {
        if msgs[i].len() as u64 > u32::MAX as u64 {
            assert(!message_fits(msgs.deep_view()[i as int]));
            return false;
        }
        assert(message_fits(msgs.deep_view()[i as int]));
        i += 1;
    }
    true
}

/// Appends the encodings of `msgs[i..]` to `out`.
fn append_messages(msgs: &Vec<Vec<u8>>, i: usize, out: &mut Vec<u8>)
    requires
        i <= msgs@.len(),
        forall|j: int| 0 <= j < msgs@.len() ==> message_fits(#[trigger] msgs.deep_view()[j]),
    ensures
        final(out)@ == old(out)@ + spec_encode_messages(
            msgs.deep_view().subrange(i as int, msgs.deep_view().len() as int),
        ),
    decreases msgs@.len() - i,
{
    if i < msgs.len() {
        let m: &Vec<u8> = &msgs[i];
        assert(m@ == msgs.deep_view()[i as int]);
        push_u32_le(out, m.len() as u32);
        let mut tail = slice_to_vec(m.as_slice());
        out.append(&mut tail);
        append_messages(msgs, i + 1, out);
        proof {
            let dv = msgs.deep_view();
            assert(dv.subrange(i as int, dv.len() as int).subrange(
                1,
                dv.subrange(i as int, dv.len() as int).len() as int,
            ) =~= dv.subrange(i + 1, dv.len() as int));
            assert(final(out)@ =~= old(out)@ + spec_encode_messages(
                dv.subrange(i as int, dv.len() as int),
            ));
        }
    } else {
        proof {
            let dv = msgs.deep_view();
            assert(spec_encode_messages(dv.subrange(i as int, dv.len() as int)) =~= Seq::empty());
            assert(final(out)@ =~= old(out)@ + spec_encode_messages(
                dv.subrange(i as int, dv.len() as int),
            ));
        }
    }
}

/// Appends the encodings of `cs[i..]` to `out`.
fn append_channel_packets(cs: &Vec<ChannelPacketData>, i: usize, out: &mut Vec<u8>)
    requires
        i <= cs@.len(),
        forall|j: int| 0 <= j < cs@.len() ==> cpd_fits(#[trigger] cpds_model(cs@)[j]),
    ensures
        final(out)@ == old(out)@ + spec_encode_channel_packets(
            cpds_model(cs@).subrange(i as int, cs@.len() as int),
        ),
    decreases cs@.len() - i,
{
    if i < cs.len() {
        let c: &ChannelPacketData = &cs[i];
        assert(c@ == cpds_model(cs@)[i as int]);
        out.push(c.channel_id);
        push_u32_le(out, c.messages.len() as u32);
        append_messages(&c.messages, 0, out);
        proof {
            assert(c.messages.deep_view().subrange(0, c.messages.deep_view().len() as int)
                =~= c.messages.deep_view());
        }
        append_channel_packets(cs, i + 1, out);
        proof {
            let md = cpds_model(cs@);
            assert(md.subrange(i as int, md.len() as int).subrange(
                1,
                md.subrange(i as int, md.len() as int).len() as int,
            ) =~= md.subrange(i + 1, md.len() as int));
            assert(final(out)@ =~= old(out)@ + spec_encode_channel_packets(
                md.subrange(i as int, md.len() as int),
            ));
        }
    } else {
        proof {
            let md = cpds_model(cs@);
            assert(spec_encode_channel_packets(md.subrange(i as int, md.len() as int))
                =~= Seq::empty());
            assert(final(out)@ =~= old(out)@ + spec_encode_channel_packets(
                md.subrange(i as int, md.len() as int),
            ));
        }
    }
}

/// Serializes a list of channel packets into a Normal-packet payload.
/// Succeeds exactly when every count and length fits its prefix.
pub fn encode_channel_payload(channel_packets: &Vec<ChannelPacketData>) -> (r: Result<
    Vec<u8>,
    RenetError,
>)
    ensures
        match r {
            Ok(bytes) => cpds_fit(cpds_model(channel_packets@)) && bytes@
                == spec_encode_channel_payload(cpds_model(channel_packets@)),
            Err(e) => !cpds_fit(cpds_model(channel_packets@)) && e
                == RenetError::SerializationFailed,
        },
{
    if channel_packets.len() as u64 > u16::MAX as u64 {
        return Err(RenetError::SerializationFailed);
    }
    let mut i: usize = 0;
    while i < channel_packets.len()
        invariant
            i <= channel_packets@.len(),
            forall|j: int| 0 <= j < i ==> cpd_fits(#[trigger] cpds_model(channel_packets@)[j]),
        decreases channel_packets@.len() - i,
    {
        if !messages_fit_exec(&channel_packets[i].messages) {
            assert(!cpd_fits(cpds_model(channel_packets@)[i as int]));
            return Err(RenetError::SerializationFailed);
        }
        assert(cpd_fits(cpds_model(channel_packets@)[i as int]));
        i += 1;
    }
    let count = channel_packets.len() as u16;
    let mut out: Vec<u8> = Vec::new();
    out.push((count % 256) as u8);
    out.push((count / 256) as u8);
    append_channel_packets(channel_packets, 0, &mut out);
    proof {
        let md = cpds_model(channel_packets@);
        assert(md.subrange(0, md.len() as int) =~= md);
        assert(out@ =~= spec_encode_channel_payload(md));
    }
    Ok(out)
}

/// Parses `n` messages starting at `pos`; yields them and the end offset.
fn parse_messages(b: &[u8], pos: usize, n: u32) -> (r: Option<(Vec<Vec<u8>>, usize)>)
    requires
        pos <= b@.len(),
    ensures
        match r {
            Some(p) => pos <= p.1 <= b@.len() && spec_parse_messages(
                b@.subrange(pos as int, b@.len() as int),
                n as nat,
            ) == Some((p.0.deep_view(), b@.subrange(p.1 as int, b@.len() as int))),
            None => spec_parse_messages(b@.subrange(pos as int, b@.len() as int), n as nat)
                is None,
        },
    decreases n,
{
    let ghost sub = b@.subrange(pos as int, b@.len() as int);
    if n == 0 {
        let empty: Vec<Vec<u8>> = Vec::new();
        proof {
            assert(empty.deep_view() =~= Seq::<Seq<u8>>::empty());
        }
        return Some((empty, pos));
    }
    if b.len() - pos < 4 {
        return None;
    }
    let len32 = read_u32_at(b, pos);
    proof {
        assert(sub[0] == b@[pos as int] && sub[1] == b@[pos + 1] && sub[2] == b@[pos + 2] && sub[3]
            == b@[pos + 3]);
    }
    if (len32 as u64) > ((b.len() - pos - 4) as u64) {
        return None;
    }
    let mlen = len32 as usize;
    let m = copy_range(b, pos + 4, pos + 4 + mlen);
    proof {
        assert(m@ =~= sub.subrange(4, 4 + len32 as int));
        assert(b@.subrange(pos + 4 + mlen, b@.len() as int) =~= sub.subrange(
            4 + len32 as int,
            sub.len() as int,
        ));
    }
    match parse_messages(b, pos + 4 + mlen, n - 1) {
        Some(p) => {
            let (tail, end) = p;
            let mut ms = tail;
            ms.insert(0, m);
            proof {
                assert(ms.deep_view() =~~= seq![m@] + tail.deep_view());
            }
            Some((ms, end))
        },
        None => None,
    }
}

/// Parses `n` channel entries starting at `pos`.
fn parse_channel_packets(b: &[u8], pos: usize, n: u16) -> (r: Option<
    (Vec<ChannelPacketData>, usize),
>)
    requires
        pos <= b@.len(),
    ensures
        match r {
            Some(p) => pos <= p.1 <= b@.len() && spec_parse_channel_packets(
                b@.subrange(pos as int, b@.len() as int),
                n as nat,
            ) == Some((cpds_model(p.0@), b@.subrange(p.1 as int, b@.len() as int))),
            None => spec_parse_channel_packets(b@.subrange(pos as int, b@.len() as int), n as nat)
                is None,
        },
    decreases n,
{
    let ghost sub = b@.subrange(pos as int, b@.len() as int);
    if n == 0 {
        let empty: Vec<ChannelPacketData> = Vec::new();
        proof {
            assert(cpds_model(empty@) =~= Seq::<ChannelPacketDataModel>::empty());
        }
        return Some((empty, pos));
    }
    if b.len() - pos < 5 {
        return None;
    }
    let id = b[pos];
    let count = read_u32_at(b, pos + 1);
    proof {
        assert(sub[0] == b@[pos as int] && sub[1] == b@[pos + 1] && sub[2] == b@[pos + 2] && sub[3]
            == b@[pos + 3] && sub[4] == b@[pos + 4]);
        assert(b@.subrange(pos + 5, b@.len() as int) =~= sub.subrange(5, sub.len() as int));
    }
    match parse_messages(b, pos + 5, count) {
        Some(p) => {
            let (messages, mid) = p;
            let entry = ChannelPacketData { messages, channel_id: id };
            match parse_channel_packets(b, mid, n - 1) {
                Some(q) => {
                    let (tail, end) = q;
                    let mut cs = tail;
                    cs.insert(0, entry);
                    proof {
                        assert(cpds_model(cs@) =~= seq![entry@] + cpds_model(
                            cs@.subrange(1, cs@.len() as int),
                        ));
                        assert(cpds_model(cs@.subrange(1, cs@.len() as int)) =~= cpds_model(
                            tail@,
                        ));
                    }
                    Some((cs, end))
                },
                None => None,
            }
        },
        None => None,
    }
}

/// Reads the 32-bit little-endian integer at offset `i`.
fn read_u32_at(b: &[u8], i: usize) -> (r: u32)
    requires
        i + 4 <= b@.len(),
    ensures
        r == u32_of(b@[i as int], b@[i + 1], b@[i + 2], b@[i + 3]),
{
    b[i] as u32 + (b[i + 1] as u32) * 256 + (b[i + 2] as u32) * 0x10000 + (b[i + 3] as u32)
        * 0x1000000
}

/// Parses a Normal-packet payload, the exact inverse of
/// `spec_decode_channel_payload`: succeeds on precisely the byte strings
/// that parse, and returns what they parse to.
pub fn decode_channel_payload(b: &[u8]) -> (r: Result<Vec<ChannelPacketData>, RenetError>)
    ensures
        match r {
            Ok(cs) => spec_decode_channel_payload(b@) == Some(cpds_model(cs@)),
            Err(e) => spec_decode_channel_payload(b@) is None && e
                == RenetError::SerializationFailed,
        },
{
    if b.len() < 2 {
        return Err(RenetError::SerializationFailed);
    }
    let n = b[0] as u16 + (b[1] as u16) * 256;
    match parse_channel_packets(b, 2, n) {
        Some(p) => {
            let (cs, end) = p;
            if end == b.len() {
                proof {
                    assert(b@.subrange(end as int, b@.len() as int).len() == 0);
                }
                Ok(cs)
            } else {
                Err(RenetError::SerializationFailed)
            }
        },
        None => Err(RenetError::SerializationFailed),
    }
}

} // verus!
