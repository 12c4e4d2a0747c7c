//! Fragmentation of oversized payloads and their reassembly.
//!
//! A payload longer than `fragment_above` is split into chunks of
//! `fragment_size` bytes (the last chunk may be shorter); each chunk rides
//! in a Fragment packet sharing the payload's sequence.  The receiver
//! collects chunks in a `ReassemblyFragment` until all have arrived, then
//! hands back the concatenation.

use crate::error::{FragmentError, RenetError};
use crate::packet::{AckData, Fragment, Packet, PacketModel, encode_packet, spec_encode_packet, copy_range};
use crate::sequence_buffer::{SequenceBuffer, more_recent, wrap16_sub};
use vstd::prelude::*;
use vstd::pervasive::unreached;
use vstd::slice::slice_to_vec;

verus! {

/// Fragmentation parameters.
#[derive(Clone, Debug)]
pub struct FragmentConfig {
    /// Payloads longer than this are fragmented.
    pub fragment_above: usize,
    /// Size of every chunk but the last.
    pub fragment_size: usize,
    /// The most chunks one payload may become.
    pub max_fragments: u8,
    /// Capacity of the reassembly sequence buffer.
    pub reassembly_buffer_size: usize,
}

impl FragmentConfig {
    /// A usable configuration: positive chunk size and cap, and a
    /// reassembly buffer the sequence buffer can hold.
    pub open spec fn valid(self) -> bool {
        &&& 1 <= self.fragment_size
        &&& 1 <= self.max_fragments
        &&& 1 <= self.reassembly_buffer_size <= 0x7fff
    }
}

impl Default for FragmentConfig {
    /// Fragments payloads over 1024 bytes into 1024-byte chunks, at most
    /// 32 of them, reassembled through a 256-slot buffer.
    fn default() -> (r: FragmentConfig)
        ensures
            r.fragment_above == 1024,
            r.fragment_size == 1024,
            r.max_fragments == 32,
            r.reassembly_buffer_size == 256,
            r.valid(),
    {
        FragmentConfig {
            fragment_above: 1024,
            fragment_size: 1024,
            max_fragments: 32,
            reassembly_buffer_size: 256,
        }
    }
}

/// How many chunks of `size` bytes a payload of `len` bytes becomes.
pub open spec fn num_chunks(len: int, size: int) -> int {
    if len % size == 0 {
        len / size
    } else {
        len / size + 1
    }
}

/// Chunk `i` of payload `p` under chunk size `size`.
pub open spec fn spec_chunk(p: Seq<u8>, size: int, i: int) -> Seq<u8> {
    p.subrange(
        i * size,
        if (i + 1) * size <= p.len() {
            (i + 1) * size
        } else {
            p.len() as int
        },
    )
}

/// A partially reassembled payload: which chunks have arrived and their
/// bytes, kept under the payload's sequence in the reassembly buffer.
#[derive(Clone, Debug)]
pub struct ReassemblyFragment {
    pub sequence: u16,
    pub num_fragments_total: u8,
    pub num_fragments_received: u8,
    pub parts: Vec<Option<Vec<u8>>>,
}

/// The mathematical model of a `ReassemblyFragment`.
pub struct ReassemblyFragmentModel {
    pub sequence: u16,
    pub num_fragments_total: u8,
    pub num_fragments_received: u8,
    pub parts: Seq<Option<Seq<u8>>>,
}

impl View for ReassemblyFragment {
    type V = ReassemblyFragmentModel;

    open spec fn view(&self) -> ReassemblyFragmentModel {
        ReassemblyFragmentModel {
            sequence: self.sequence,
            num_fragments_total: self.num_fragments_total,
            num_fragments_received: self.num_fragments_received,
            parts: self.parts.deep_view(),
        }
    }
}

/// How many chunks have arrived.
pub open spec fn count_some(ps: Seq<Option<Seq<u8>>>) -> int
    decreases ps.len(),
{
    if ps.len() == 0 {
        0
    } else {
        (if ps[0] is Some {
            1int
        } else {
            0int
        }) + count_some(ps.subrange(1, ps.len() as int))
    }
}

/// A well-formed reassembly entry: one slot per announced chunk, and the
/// received counter agreeing with the slots.
pub open spec fn rf_wf(m: ReassemblyFragmentModel) -> bool {
    &&& m.parts.len() == m.num_fragments_total
    &&& 1 <= m.num_fragments_total
    &&& m.num_fragments_received == count_some(m.parts)
}

/// The concatenation of the chunks from index `i` on.
pub open spec fn spec_concat_from(ps: Seq<Option<Seq<u8>>>, i: int) -> Seq<u8>
    decreases ps.len() - i,
{
    if i < 0 || i >= ps.len() {
        Seq::empty()
    } else {
        ps[i].unwrap() + spec_concat_from(ps, i + 1)
    }
}

proof fn lemma_count_some_all_none(ps: Seq<Option<Seq<u8>>>)
    requires
        forall|i: int| 0 <= i < ps.len() ==> (#[trigger] ps[i]) is None,
    ensures
        count_some(ps) == 0,
    decreases ps.len(),
{
    if ps.len() > 0 {
        let tail = ps.subrange(1, ps.len() as int);
        assert(forall|i: int| 0 <= i < tail.len() ==> (#[trigger] tail[i]) == ps[i + 1]);
        lemma_count_some_all_none(tail);
    }
}

proof fn lemma_count_some_update(ps: Seq<Option<Seq<u8>>>, i: int, m: Seq<u8>)
    requires
        0 <= i < ps.len(),
        ps[i] is None,
    ensures
        count_some(ps.update(i, Some(m))) == count_some(ps) + 1,
    decreases ps.len(),
{
    let q = ps.update(i, Some(m));
    if i == 0 {
        assert(q.subrange(1, q.len() as int) =~= ps.subrange(1, ps.len() as int));
    } else {
        assert(q.subrange(1, q.len() as int) =~= ps.subrange(1, ps.len() as int).update(
            i - 1,
            Some(m),
        ));
        lemma_count_some_update(ps.subrange(1, ps.len() as int), i - 1, m);
    }
}

proof fn lemma_count_some_bounds(ps: Seq<Option<Seq<u8>>>)
    ensures
        0 <= count_some(ps) <= ps.len(),
        count_some(ps) == ps.len() ==> forall|i: int| 0 <= i < ps.len() ==> ps[i] is Some,
    decreases ps.len(),
{
    if ps.len() > 0 {
        lemma_count_some_bounds(ps.subrange(1, ps.len() as int));
        if count_some(ps) == ps.len() {
            assert forall|i: int| 0 <= i < ps.len() implies ps[i] is Some by {
                if i > 0 {
                    assert(ps.subrange(1, ps.len() as int)[i - 1] == ps[i]);
                }
            }
        }
    }
}

/// Splits `payload` into Fragment datagrams sharing `sequence`, each
/// carrying the common ack metadata.  Fails exactly when the payload would
/// need more chunks than `max_fragments`.
#[verifier::loop_isolation(false)]
pub fn build_fragments(
    payload: &[u8],
    sequence: u16,
    ack_data: AckData,
    config: &FragmentConfig,
) -> (r: Result<Vec<Vec<u8>>, RenetError>)
    requires
        config.valid(),
        payload@.len() > config.fragment_above,
    ensures
        ({
            let len = payload@.len() as int;
            let size = config.fragment_size as int;
            let num = num_chunks(len, size);
            match r {
                Ok(frs) => num <= config.max_fragments && frs.deep_view().len() == num
                    && forall|i: int|
                    0 <= i < num ==> #[trigger] frs.deep_view()[i] == spec_encode_packet(
                        PacketModel::Fragment {
                            sequence: sequence,
                            ack: ack_data.ack,
                            ack_bits: ack_data.ack_bits,
                            fragment_id: i as u8,
                            num_fragments: num as u8,
                            payload: spec_chunk(payload@, size, i),
                        },
                    ),
                Err(e) => num > config.max_fragments && e == RenetError::Fragment(
                    FragmentError::ExceededMaxFragments,
                ),
            }
        }),
{
    let len = payload.len();
    let size = config.fragment_size;
    let num: usize = if len % size == 0 {
        len / size
    } else {
        proof {
            assert(size != 1) by {
                assert(len % 1 == 0) by (nonlinear_arith);
            }
            assert(len / size < len) by (nonlinear_arith)
                requires
                    2 <= size,
                    1 <= len,
            ;
        }
        len / size + 1
    };
    if num > config.max_fragments as usize {
        return Err(RenetError::Fragment(FragmentError::ExceededMaxFragments));
    }
    let mut out: Vec<Vec<u8>> = Vec::new();
    let mut i: usize = 0;
    let mut start: usize = 0;
    while i < num
        invariant
            0 <= i <= num,
            i < num ==> start == i * size,
            out.deep_view().len() == i,
            forall|j: int|
                0 <= j < i ==> #[trigger] out.deep_view()[j] == spec_encode_packet(
                    PacketModel::Fragment {
                        sequence: sequence,
                        ack: ack_data.ack,
                        ack_bits: ack_data.ack_bits,
                        fragment_id: j as u8,
                        num_fragments: num as u8,
                        payload: spec_chunk(payload@, size as int, j),
                    },
                ),
        decreases num - i,
    {
        proof {
            assert(i * size + size == (i + 1) * size) by (nonlinear_arith);
            assert(i * size < len) by (nonlinear_arith)
                requires
                    i < num,
                    num == num_chunks(len as int, size as int),
                    1 <= size,
                    0 < len,
            ;
        }
        let end = if len - start > size {
            start + size
        } else {
            len
        };
        let chunk = copy_range(payload, start, end);
        let packet = Packet::Fragment(
            Fragment {
                sequence,
                ack_data,
                fragment_id: i as u8,
                num_fragments: num as u8,
                payload: chunk,
            },
        );
        let bytes = encode_packet(&packet);
        let ghost prev = out.deep_view();
        out.push(bytes);
        proof {
            assert(spec_chunk(payload@, size as int, i as int) =~= payload@.subrange(
                start as int,
                end as int,
            ));
            assert(out.deep_view() =~~= prev.push(bytes@));
            if i + 1 < num {
                assert((i + 1) * size < len) by (nonlinear_arith)
                    requires
                        i + 1 < num,
                        num == num_chunks(len as int, size as int),
                        1 <= size,
                        0 < len,
                ;
            }
        }
        start = end;
        i += 1;
    }
    Ok(out)
}


/// A fresh entry for a first-seen sequence announcing `total` chunks.
pub open spec fn fresh_entry(sequence: u16, total: u8) -> ReassemblyFragmentModel {
    ReassemblyFragmentModel {
        sequence,
        num_fragments_total: total,
        num_fragments_received: 0,
        parts: Seq::new(total as nat, |i: int| None),
    }
}

/// The entry a fragment will update: the stored one, or a fresh one.
pub open spec fn prior_entry(
    b: SequenceBuffer<ReassemblyFragment>,
    sequence: u16,
    total: u8,
) -> ReassemblyFragmentModel {
    if b.contains(sequence) {
        b.value_at(sequence)@
    } else {
        fresh_entry(sequence, total)
    }
}

/// The entry after chunk `id` with bytes `m` is recorded.
pub open spec fn updated_entry(
    b: SequenceBuffer<ReassemblyFragment>,
    sequence: u16,
    total: u8,
    id: u8,
    m: Seq<u8>,
) -> ReassemblyFragmentModel {
    let p = prior_entry(b, sequence, total);
    ReassemblyFragmentModel {
        sequence,
        num_fragments_total: p.num_fragments_total,
        num_fragments_received: (p.num_fragments_received + 1) as u8,
        parts: p.parts.update(id as int, Some(m)),
    }
}

/// A well-formed reassembly buffer: every stored entry is well formed and
/// keyed by its own sequence.
pub open spec fn reassembly_wf(b: SequenceBuffer<ReassemblyFragment>) -> bool {
    &&& b.wf()
    &&& forall|s: u16|
        b.contains(s) ==> rf_wf(#[trigger] b.value_at(s)@) && b.value_at(s)@.sequence == s
}

/// A fragment whose payload size agrees with its position: every chunk but
/// the last is exactly `size` bytes, the last at most that.
pub open spec fn frag_size_ok(id: u8, total: u8, payload_len: int, size: int) -> bool {
    if id + 1 < total {
        payload_len == size
    } else {
        payload_len <= size
    }
}

/// Appends the chunks of `parts[i..]` to `out`.
fn append_parts(parts: &Vec<Option<Vec<u8>>>, i: usize, out: &mut Vec<u8>)
    requires
        i <= parts@.len(),
        forall|j: int| 0 <= j < parts@.len() ==> (#[trigger] parts.deep_view()[j]) is Some,
    ensures
        final(out)@ == old(out)@ + spec_concat_from(parts.deep_view(), i as int),
    decreases parts@.len() - i,
{
    if i < parts.len() {
        match &parts[i] {
            Some(m) => {
                assert(m@ == parts.deep_view()[i as int].unwrap());
                let mut tail = slice_to_vec(m.as_slice());
                out.append(&mut tail);
                append_parts(parts, i + 1, out);
            },
            None => {
                proof {
                    assert(parts.deep_view()[i as int] is Some);
                }
                unreached()
            },
        }
    }
}

/// Concatenates a complete set of chunks.
fn assemble_parts(parts: &Vec<Option<Vec<u8>>>) -> (r: Vec<u8>)
    requires
        forall|j: int| 0 <= j < parts@.len() ==> (#[trigger] parts.deep_view()[j]) is Some,
    ensures
        r@ == spec_concat_from(parts.deep_view(), 0),
{
    let mut out: Vec<u8> = Vec::new();
    append_parts(parts, 0, &mut out);
    out
}

impl SequenceBuffer<ReassemblyFragment> {
    /// Feeds one arriving fragment into the reassembly buffer.  A malformed
    /// fragment is rejected and the buffer left untouched; a duplicate is
    /// ignored; otherwise the chunk is recorded, and once every chunk of
    /// the sequence has arrived the entry is removed and the reassembled
    /// payload returned.
    pub fn handle_fragment(&mut self, fragment: Fragment, config: &FragmentConfig) -> (r: Result<
        Option<Vec<u8>>,
        RenetError,
    >)
        requires
            reassembly_wf(*old(self)),
            config.valid(),
        ensures
            reassembly_wf(*final(self)),
            final(self).cap() == old(self).cap(),
            ({
                let seqn = fragment.sequence;
                let total = fragment.num_fragments;
                let id = fragment.fragment_id;
                let c1 = total > config.max_fragments;
                let c2 = !c1 && old(self).contains(seqn) && old(self).value_at(seqn)@.num_fragments_total != total;
                let c3 = !c1 && !c2 && id >= total;
                let c4 = !c1 && !c2 && !c3 && !frag_size_ok(
                    id,
                    total,
                    fragment.payload@.len() as int,
                    config.fragment_size as int,
                );
                let c5 = !c1 && !c2 && !c3 && !c4 && old(self).contains(seqn) && old(self).value_at(seqn)@.parts[id as int] is Some;
                let u = updated_entry(*old(self), seqn, total, id, fragment.payload@);
                match r {
                    Err(e) => *final(self) == *old(self) && (c1 || c2 || c3 || c4) && e == (
                    if c1 {
                        RenetError::Fragment(FragmentError::ExceededMaxFragments)
                    } else if c2 {
                        RenetError::Fragment(FragmentError::MismatchedTotal)
                    } else if c3 {
                        RenetError::Fragment(FragmentError::InvalidFragmentId)
                    } else {
                        RenetError::Fragment(FragmentError::InvalidFragmentSize)
                    }),
                    Ok(opt) => !c1 && !c2 && !c3 && !c4 && match opt {
                        None => if c5 {
                            *final(self) == *old(self)
                        } else {
                            u.num_fragments_received < total && (if old(self).contains(seqn) {
                                &&& final(self).head() == old(self).head()
                                &&& final(self).contains(seqn)
                                &&& final(self).value_at(seqn)@ == u
                                &&& forall|t: u16|
                                    t != seqn ==> #[trigger] final(self).contains(t) == old(self).contains(t)
                                &&& forall|t: u16|
                                    t != seqn && #[trigger] final(self).contains(t) ==> final(self).value_at(t) == old(self).value_at(t)
                            } else {
                                fresh_stored(*old(self), *final(self), seqn, u)
                            })
                        },
                        Some(v) => {
                            &&& !c5
                            &&& u.num_fragments_received == total
                            &&& v@ == spec_concat_from(u.parts, 0)
                            &&& (if old(self).contains(seqn) {
                                &&& final(self).head() == old(self).head()
                                &&& !final(self).contains(seqn)
                                &&& forall|t: u16|
                                    t != seqn ==> #[trigger] final(self).contains(t) == old(self).contains(t)
                                &&& forall|t: u16|
                                    t != seqn && #[trigger] final(self).contains(t) ==> final(self).value_at(t) == old(self).value_at(t)
                            } else {
                                *final(self) == *old(self)
                            })
                        },
                    },
                }
            }),
    {
        let seqn = fragment.sequence;
        let total = fragment.num_fragments;
        let id = fragment.fragment_id;
        if total > config.max_fragments {
            return Err(RenetError::Fragment(FragmentError::ExceededMaxFragments));
        }
        let mut have = false;
        let mut dup = false;
        let mut conflict = false;
        match self.get(seqn) {
            Some(e) => {
                have = true;
                if e.num_fragments_total != total {
                    conflict = true;
                } else if (id as usize) < e.parts.len() {
                    if e.parts[id as usize].is_some() {
                        proof {
                            assert(e@.parts[id as int] is Some);
                        }
                        dup = true;
                    }
                }
            },
            None => {},
        }
        if conflict {
            return Err(RenetError::Fragment(FragmentError::MismatchedTotal));
        }
        if id >= total {
            return Err(RenetError::Fragment(FragmentError::InvalidFragmentId));
        }
        let plen = fragment.payload.len();
        let size_ok = if (id as usize) + 1 < (total as usize) {
            plen == config.fragment_size
        } else {
            plen <= config.fragment_size
        };
        if !size_ok {
            return Err(RenetError::Fragment(FragmentError::InvalidFragmentSize));
        }
        if dup {
            return Ok(None);
        }
        let ghost prior = prior_entry(*old(self), seqn, total);
        let ghost u = updated_entry(*old(self), seqn, total, id, fragment.payload@);
        let mut entry: ReassemblyFragment = if have {
            match self.remove(seqn) {
                Some(e) => e,
                None => unreached(),
            }
        } else {
            let mut parts: Vec<Option<Vec<u8>>> = Vec::new();
            let mut i: usize = 0;
            while i < total as usize
                invariant
                    i <= total,
                    parts@.len() == i,
                    forall|j: int| 0 <= j < i ==> parts@[j] is None,
                decreases total - i,
            {
                parts.push(None);
                i += 1;
            }
            proof {
                assert(parts.deep_view() =~~= fresh_entry(seqn, total).parts);
                lemma_count_some_all_none(parts.deep_view());
            }
            ReassemblyFragment {
                sequence: seqn,
                num_fragments_total: total,
                num_fragments_received: 0,
                parts,
            }
        };
        proof {
            assert(entry@.parts =~~= prior.parts);
            assert(entry@ == prior);
            lemma_count_some_bounds(prior.parts);
        }
        entry.parts.set(id as usize, Some(fragment.payload));
        proof {
            assert(entry.parts.deep_view() =~~= prior.parts.update(
                id as int,
                Some(fragment.payload@),
            ));
            lemma_count_some_update(prior.parts, id as int, fragment.payload@);
        }
        entry.num_fragments_received = entry.num_fragments_received + 1;
        proof {
            assert(entry@ == u);
            assert(rf_wf(u));
        }
        if entry.num_fragments_received == total {
            proof {
                lemma_count_some_bounds(u.parts);
            }
            let out = assemble_parts(&entry.parts);
            Ok(Some(out))
        } else {
            if have {
                self.put(seqn, entry);
                proof {
                    assert forall|t: u16| t != seqn implies self.contains(t) == old(
                        self,
                    ).contains(t) by {
                        if old(self).slot_of(t) == old(self).slot_of(seqn) && old(self).contains(
                            t,
                        ) {
                            old(self).lemma_slot_unique(t, seqn);
                        }
                    }
                }
            } else {
                self.insert(seqn, entry);
            }
            Ok(None)
        }
    }
}

/// How a freshly created entry lands in the buffer: dropped silently when
/// its sequence is older than the window, otherwise inserted with the
/// window sliding forward as `SequenceBuffer::insert` does.
pub open spec fn fresh_stored(
    b0: SequenceBuffer<ReassemblyFragment>,
    b1: SequenceBuffer<ReassemblyFragment>,
    seqn: u16,
    u: ReassemblyFragmentModel,
) -> bool {
    let stale = more_recent(wrap16_sub(b0.head(), b0.cap() as u16), seqn);
    &&& (stale ==> b1 == b0)
    &&& (!stale ==> {
        &&& b1.head() == if more_recent(seqn, b0.head()) {
            seqn
        } else {
            b0.head()
        }
        &&& b1.contains(seqn)
        &&& b1.value_at(seqn)@ == u
        &&& forall|t: u16|
            t != seqn ==> ((#[trigger] b1.contains(t)) <==> (b0.contains(t) && b0.slot_of(t)
                != b0.slot_of(seqn) && !(more_recent(seqn, b0.head()) && b0.swept(seqn, t))))
        &&& forall|t: u16|
            t != seqn && #[trigger] b1.contains(t) ==> b1.value_at(t) == b0.value_at(t)
    })
}

/// A reassembly entry consistent with payload `p`: it announces exactly the
/// chunk count of `p`, and every recorded chunk is the corresponding piece
/// of `p`.
pub open spec fn entry_matches(e: ReassemblyFragmentModel, p: Seq<u8>, size: int) -> bool {
    &&& e.num_fragments_total == num_chunks(p.len() as int, size)
    &&& e.parts.len() == e.num_fragments_total
    &&& forall|j: int|
        0 <= j < e.parts.len() && (#[trigger] e.parts[j]) is Some ==> e.parts[j].unwrap()
            == spec_chunk(p, size, j)
}

proof fn lemma_chunks_concat(p: Seq<u8>, size: int, i: int)
    requires
        1 <= size,
        0 < p.len(),
        0 <= i <= num_chunks(p.len() as int, size),
    ensures
        spec_concat_from(
            Seq::new(
                num_chunks(p.len() as int, size) as nat,
                |j: int| Some(spec_chunk(p, size, j)),
            ),
            i,
        ) == p.subrange(
            if i * size <= p.len() {
                i * size
            } else {
                p.len() as int
            },
            p.len() as int,
        ),
    decreases num_chunks(p.len() as int, size) - i,
{
    let len = p.len() as int;
    let num = num_chunks(len, size);
    let full = Seq::new(num as nat, |j: int| Some(spec_chunk(p, size, j)));
    if i < num {
        assert(i * size < len && 0 <= i * size) by (nonlinear_arith)
            requires
                0 <= i < num,
                num == num_chunks(len, size),
                1 <= size,
                0 < len,
        ;
        assert((i + 1) * size == i * size + size) by (nonlinear_arith);
        lemma_chunks_concat(p, size, i + 1);
        let mid = if (i + 1) * size <= len {
            (i + 1) * size
        } else {
            len
        };
        assert(p.subrange(i * size, len) =~= p.subrange(i * size, mid) + p.subrange(mid, len));
    } else {
        assert(i * size >= len) by (nonlinear_arith)
            requires
                i == num,
                num == num_chunks(len, size),
                1 <= size,
                0 < len,
        ;
    }
}

/// The fragment round-trip law: the chunks that `build_fragments` carves
/// out of a payload, recorded position by position in whatever order they
/// arrive, concatenate back to exactly that payload.
pub proof fn lemma_fragment_round_trip(p: Seq<u8>, size: int)
    requires
        1 <= size,
        0 < p.len(),
    ensures
        spec_concat_from(
            Seq::new(
                num_chunks(p.len() as int, size) as nat,
                |j: int| Some(spec_chunk(p, size, j)),
            ),
            0,
        ) == p,
{
    lemma_chunks_concat(p, size, 0);
    assert(p.subrange(0, p.len() as int) =~= p);
}

/// One arrival keeps a matching entry matching, and a complete matching
/// entry assembles to exactly the original payload: reassembly is correct
/// in any arrival order.
pub proof fn lemma_reassembly_step(e: ReassemblyFragmentModel, p: Seq<u8>, size: int, id: int)
    requires
        1 <= size,
        0 < p.len(),
        entry_matches(e, p, size),
        0 <= id < e.parts.len(),
    ensures
        entry_matches(
            ReassemblyFragmentModel {
                sequence: e.sequence,
                num_fragments_total: e.num_fragments_total,
                num_fragments_received: e.num_fragments_received,
                parts: e.parts.update(id, Some(spec_chunk(p, size, id))),
            },
            p,
            size,
        ),
        (forall|j: int| 0 <= j < e.parts.len() ==> (#[trigger] e.parts[j]) is Some)
            ==> spec_concat_from(e.parts, 0) == p,
{
    if forall|j: int| 0 <= j < e.parts.len() ==> (#[trigger] e.parts[j]) is Some {
        let num = num_chunks(p.len() as int, size);
        let full = Seq::new(num as nat, |j: int| Some(spec_chunk(p, size, j)));
        assert(e.parts =~~= full);
        lemma_fragment_round_trip(p, size);
    }
}

} // verus!
