//! Sliding-window store keyed by a 16-bit wrapping sequence number.
//!
//! A `SequenceBuffer` holds at most one value per slot over a window of the
//! most recent sequence numbers.  Inserting a sequence newer than the head
//! slides the window forward, evicting every entry whose sequence falls in
//! the interval between the old head (exclusive) and the new head.

use vstd::prelude::*;
use vstd::set_lib::*;
use vstd::arithmetic::power2::is_pow2;
use vstd::arithmetic::div_mod::{lemma_fundamental_div_mod, lemma_mod_multiples_vanish};

verus! {

/// Addition modulo 2^16, the value `a + b` as sequence numbers wrap.
pub open spec fn wrap16_add(a: u16, b: u16) -> u16 {
    if a + b > 0xffff {
        (a + b - 0x10000) as u16
    } else {
        (a + b) as u16
    }
}

/// Subtraction modulo 2^16, the value `a - b` as sequence numbers wrap.
pub open spec fn wrap16_sub(a: u16, b: u16) -> u16 {
    if a - b < 0 {
        (a - b + 0x10000) as u16
    } else {
        (a - b) as u16
    }
}

/// The "more recent than" order on wrapping sequence numbers: `a` is newer
/// than `b` iff `(a - b) mod 2^16` lies strictly between 0 and 2^15.
pub open spec fn more_recent(a: u16, b: u16) -> bool {
    0 < wrap16_sub(a, b) < 0x8000
}

/// Decides whether `s1` is more recent than `s2` under wrapping comparison.
pub fn sequence_greater_than(s1: u16, s2: u16) -> (r: bool)
    ensures
        r == more_recent(s1, s2),
{
    let d = s1.wrapping_sub(s2);
    0 < d && d < 0x8000
}

struct Entry<T> {
    seq: u16,
    value: T,
}

/// Fixed-capacity ring of slots; slot index is the sequence number modulo
/// the capacity, and each filled slot remembers which sequence owns it.
pub struct SequenceBuffer<T> {
    sequence: u16,
    entries: Vec<Option<Entry<T>>>,
}

impl<T> SequenceBuffer<T> {
    /// The number of slots.
    pub closed spec fn cap(self) -> nat {
        self.entries@.len()
    }

    /// The most recently inserted sequence number (0 before any insert).
    pub closed spec fn head(self) -> u16 {
        self.sequence
    }

    /// The slot that sequence `s` maps to.
    pub open spec fn slot_of(self, s: u16) -> int {
        s as int % self.cap() as int
    }

    /// True when sequence `s` is retrievable.
    pub closed spec fn contains(self, s: u16) -> bool {
        self.cap() > 0 && self.entries@[self.slot_of(s)] is Some
            && self.entries@[self.slot_of(s)].unwrap().seq == s
    }

    /// The value stored for sequence `s` (meaningful only when `contains(s)`).
    pub closed spec fn value_at(self, s: u16) -> T {
        self.entries@[self.slot_of(s)].unwrap().value
    }

    /// Well-formedness: a positive capacity strictly narrower than half the
    /// sequence circle, so the wrapping order can tell the window's two ends
    /// apart, and every filled slot owned by a sequence congruent to its
    /// index.
    pub closed spec fn wf(self) -> bool {
        &&& 1 <= self.cap() <= 0x7fff
        &&& forall|i: int|
            0 <= i < self.entries@.len() && (#[trigger] self.entries@[i]) is Some
                ==> self.entries@[i].unwrap().seq as int % self.entries@.len() as int == i
    }

    /// True when the slide to new head `s` sweeps away sequence `t`: some
    /// sequence strictly between the head and `s` shares `t`'s slot.
    pub open spec fn swept(self, s: u16, t: u16) -> bool {
        exists|k: int|
            1 <= k < wrap16_sub(s, self.head()) && #[trigger] self.slot_of(wrap16_sub(s, k as u16))
                == self.slot_of(t)
    }

    /// Creates an empty buffer of `size` slots.
    pub fn with_capacity(size: usize) -> (r: Self)
        requires
            1 <= size <= 0x7fff,
        ensures
            r.wf(),
            r.cap() == size,
            r.head() == 0,
            forall|s: u16| !r.contains(s),
    {
        let mut entries: Vec<Option<Entry<T>>> = Vec::new();
        let mut i: usize = 0;
        while i < size
            invariant
                i <= size,
                entries@.len() == i,
                forall|j: int| 0 <= j < i ==> entries@[j] is None,
            decreases size - i,
        {
            entries.push(None);
            i += 1;
        }
        SequenceBuffer { sequence: 0, entries }
    }

    /// The capacity of the buffer.
    pub fn capacity(&self) -> (r: usize)
        ensures
            r == self.cap(),
    {
        self.entries.len()
    }

    /// The most recently inserted sequence number.
    pub fn sequence(&self) -> (r: u16)
        ensures
            r == self.head(),
    {
        self.sequence
    }

    /// Looks up the value stored for sequence `s`.
    pub fn get(&self, s: u16) -> (r: Option<&T>)
        requires
            self.wf(),
        ensures
            match r {
                Some(v) => self.contains(s) && *v == self.value_at(s),
                None => !self.contains(s),
            },
    {
        let slot = (s as usize) % self.entries.len();
        match &self.entries[slot] {
            Some(e) => if e.seq == s {
                Some(&e.value)
            } else {
                None
            },
            None => None,
        }
    }

    /// True when sequence `s` is retrievable.
    pub fn is_present(&self, s: u16) -> (r: bool)
        requires
            self.wf(),
        ensures
            r == self.contains(s),
    {
        self.get(s).is_some()
    }

    /// Stores `value` under sequence `s`.  A sequence older than
    /// `head - capacity` is dropped silently; a sequence newer than the head
    /// slides the window forward, evicting the swept entries.
    #[verifier::loop_isolation(false)]
    pub fn insert(&mut self, s: u16, value: T)
        requires
            old(self).wf(),
        ensures
            final(self).wf(),
            final(self).cap() == old(self).cap(),
            more_recent(wrap16_sub(old(self).head(), old(self).cap() as u16), s)
                ==> *final(self) == *old(self),
            !more_recent(wrap16_sub(old(self).head(), old(self).cap() as u16), s) ==> {
                &&& final(self).head() == if more_recent(s, old(self).head()) {
                    s
                } else {
                    old(self).head()
                }
                &&& final(self).contains(s)
                &&& final(self).value_at(s) == value
                &&& forall|t: u16|
                    t != s ==> ((#[trigger] final(self).contains(t)) <==> (old(self).contains(t)
                        && old(self).slot_of(t) != old(self).slot_of(s) && !(more_recent(
                        s,
                        old(self).head(),
                    ) && old(self).swept(s, t))))
                &&& forall|t: u16|
                    t != s && #[trigger] final(self).contains(t) ==> final(self).value_at(t)
                        == old(self).value_at(t)
            },
            stored(*old(self), *final(self), s, value),
    {
        let n = self.entries.len();
        let floor = self.sequence.wrapping_sub(n as u16);
        if sequence_greater_than(floor, s) {
            return ;
        }
        if sequence_greater_than(s, self.sequence) {
            let gap = s.wrapping_sub(self.sequence);
            let mut k: u16 = 1;
            while k < gap
                invariant
                    1 <= k <= gap,
                    self.sequence == old(self).head(),
                    self.entries@.len() == n,
                    forall|j: int|
                        0 <= j < n ==> #[trigger] self.entries@[j] == if (exists|k2: int|
                            1 <= k2 < k && #[trigger] old(self).slot_of(wrap16_sub(s, k2 as u16))
                                == j) {
                            None::<Entry<T>>
                        } else {
                            old(self).entries@[j]
                        },
                decreases gap - k,
            {
                let u = s.wrapping_sub(k);
                let slot = (u as usize) % n;
                self.entries.set(slot, None);
                proof {
                    let ki = k as int;
                    assert(ki as u16 == k);
                    assert(old(self).slot_of(wrap16_sub(s, ki as u16)) == slot as int);
                }
                k = k + 1;
            }
            self.sequence = s;
        }
        let slot = (s as usize) % self.entries.len();
        self.entries.set(slot, Some(Entry { seq: s, value }));
    }

    /// Removes and returns the value stored for sequence `s`, if any.
    pub fn remove(&mut self, s: u16) -> (r: Option<T>)
        requires
            old(self).wf(),
        ensures
            final(self).wf(),
            final(self).cap() == old(self).cap(),
            final(self).head() == old(self).head(),
            !final(self).contains(s),
            r == if old(self).contains(s) {
                Some(old(self).value_at(s))
            } else {
                None::<T>
            },
            forall|t: u16|
                t != s ==> #[trigger] final(self).contains(t) == old(self).contains(t),
            forall|t: u16|
                t != s && #[trigger] final(self).contains(t) ==> final(self).value_at(t) == old(
                    self,
                ).value_at(t),
    {
        let slot = (s as usize) % self.entries.len();
        let hit = match &self.entries[slot] {
            Some(e) => e.seq == s,
            None => false,
        };
        if hit {
            let e = self.entries.remove(slot);
            self.entries.insert(slot, None);
            proof {
                assert(self.entries@ =~= old(self).entries@.update(slot as int, None));
            }
            match e {
                Some(en) => Some(en.value),
                None => None,
            }
        } else {
            None
        }
    }

    /// Writes the slot for sequence `s` directly, without sliding the
    /// window: the effect of mutating an entry retrieved for update.
    pub fn put(&mut self, s: u16, value: T)
        requires
            old(self).wf(),
        ensures
            final(self).wf(),
            final(self).cap() == old(self).cap(),
            final(self).head() == old(self).head(),
            final(self).contains(s),
            final(self).value_at(s) == value,
            forall|t: u16|
                t != s ==> (#[trigger] final(self).contains(t) == (old(self).contains(t) && old(
                    self,
                ).slot_of(t) != old(self).slot_of(s))),
            forall|t: u16|
                t != s && #[trigger] final(self).contains(t) ==> final(self).value_at(t) == old(
                    self,
                ).value_at(t),
    {
        let slot = (s as usize) % self.entries.len();
        self.entries.set(slot, Some(Entry { seq: s, value }));
    }

    /// Overwrites the value stored for sequence `s` in place, when present.
    pub fn update_value(&mut self, s: u16, value: T) -> (r: bool)
        requires
            old(self).wf(),
        ensures
            final(self).wf(),
            final(self).cap() == old(self).cap(),
            final(self).head() == old(self).head(),
            r == old(self).contains(s),
            r ==> final(self).contains(s) && final(self).value_at(s) == value,
            !r ==> *final(self) == *old(self),
            forall|t: u16|
                t != s ==> #[trigger] final(self).contains(t) == old(self).contains(t),
            forall|t: u16|
                t != s && #[trigger] final(self).contains(t) ==> final(self).value_at(t) == old(
                    self,
                ).value_at(t),
    {
        let slot = (s as usize) % self.entries.len();
        let hit = match &self.entries[slot] {
            Some(e) => e.seq == s,
            None => false,
        };
        if hit {
            self.entries.set(slot, Some(Entry { seq: s, value }));
            true
        } else {
            false
        }
    }

    /// Returns the redundant-ack pair: the head sequence, and a 32-bit mask
    /// whose bit `i` is set iff sequence `head - i` is retrievable.
    #[verifier::loop_isolation(false)]
    pub fn ack_bits(&self) -> (r: (u16, u32))
        requires
            self.wf(),
        ensures
            r.0 == self.head(),
            mask_matches(*self, r.0, r.1),
    {
        let ack = self.sequence;
        let mut ack_bits: u32 = 0;
        let mut i: u32 = 0;
        proof {
            lemma_nth_bit_zero();
        }
        while i < 32
        invariant
            i <= 32,
            forall|j: u32|
                j < i ==> (#[trigger] nth_bit(ack_bits, j) <==> self.contains(
                    wrap16_sub(self.head(), j as u16),
                )),
            forall|j: u32| i <= j < 32 ==> !(#[trigger] nth_bit(ack_bits, j)),
        decreases 32 - i,
        {
            if self.get(ack.wrapping_sub(i as u16)).is_some() {
                proof {
                    lemma_nth_bit_or(ack_bits, i);
                }
                ack_bits = ack_bits | (1u32 << i);
            }
            i = i + 1;
        }
        (ack, ack_bits)
    }

    /// Two retrievable sequences sharing a slot are the same sequence.
    pub proof fn lemma_slot_unique(self, a: u16, b: u16)
        requires
            self.wf(),
            self.contains(a),
            self.contains(b),
            self.slot_of(a) == self.slot_of(b),
        ensures
            a == b,
    {
    }

    /// True when every retrievable sequence lies within the window of
    /// `capacity` sequences ending at the head.
    pub open spec fn within_window(self) -> bool {
        forall|t: u16| #[trigger] self.contains(t) ==> wrap16_sub(self.head(), t) < self.cap()
    }

    /// A buffer whose entries lie within the window does not hold the
    /// successor of its head: the sequence a connection allocates next is
    /// not a sequence still tracked.
    pub proof fn lemma_successor_not_tracked(self)
        requires
            self.wf(),
            self.within_window(),
        ensures
            !self.contains(wrap16_add(self.head(), 1)),
    {
        assert(wrap16_sub(self.head(), wrap16_add(self.head(), 1)) == 0xffff);
    }

    /// Every buffer holds at most `capacity` retrievable sequences: the law
    /// that the sliding window is bounded, whatever inserts came before.
    pub proof fn lemma_at_most_capacity(self)
        requires
            self.wf(),
        ensures
            Set::new(|s: u16| self.contains(s)).finite(),
            Set::new(|s: u16| self.contains(s)).len() <= self.cap(),
    {
        let n = self.cap() as int;
        let filled = Set::new(|i: int| 0 <= i < n && self.entries@[i] is Some);
        let g = |i: int| self.entries@[i].unwrap().seq;
        let present = Set::new(|s: u16| self.contains(s));
        assert(filled.subset_of(set_int_range(0, n)));
        lemma_int_range(0, n);
        lemma_len_subset(filled, set_int_range(0, n));
        assert forall|s: u16| present.contains(s) implies filled.map(g).contains(s) by {
            assert(filled.contains(self.slot_of(s)) && g(self.slot_of(s)) == s);
        }
        assert(present =~= filled.map(g));
        lemma_map_size_bound(filled, present, g);
    }
}

/// How `insert(s, v)` relates the buffer before (`b0`) and after (`b1`):
/// a sequence older than the window leaves the buffer untouched; otherwise
/// the value lands under `s`, the head advances when `s` is newer, and
/// exactly the swept or displaced entries disappear.
pub open spec fn stored<T>(b0: SequenceBuffer<T>, b1: SequenceBuffer<T>, s: u16, v: T) -> bool {
    let stale = more_recent(wrap16_sub(b0.head(), b0.cap() as u16), s);
    &&& (stale ==> b1 == b0)
    &&& (!stale ==> {
        &&& b1.head() == if more_recent(s, b0.head()) {
            s
        } else {
            b0.head()
        }
        &&& b1.contains(s)
        &&& b1.value_at(s) == v
        &&& forall|t: u16|
            t != s ==> ((#[trigger] b1.contains(t)) <==> (b0.contains(t) && b0.slot_of(t)
                != b0.slot_of(s) && !(more_recent(s, b0.head()) && b0.swept(s, t))))
        &&& forall|t: u16|
            t != s && #[trigger] b1.contains(t) ==> b1.value_at(t) == b0.value_at(t)
    })
}

proof fn lemma_is_pow2_65536()
    ensures
        is_pow2(0x10000),
{
    reveal(is_pow2);
    assert(is_pow2(1int));
    assert(is_pow2(2int));
    assert(is_pow2(4int));
    assert(is_pow2(8int));
    assert(is_pow2(16int));
    assert(is_pow2(32int));
    assert(is_pow2(64int));
    assert(is_pow2(128int));
    assert(is_pow2(256int));
    assert(is_pow2(512int));
    assert(is_pow2(1024int));
    assert(is_pow2(2048int));
    assert(is_pow2(4096int));
    assert(is_pow2(8192int));
    assert(is_pow2(16384int));
    assert(is_pow2(32768int));
    assert(is_pow2(65536int));
}

proof fn lemma_pow2_divides(n: int, m: int)
    requires
        is_pow2(n),
        is_pow2(m),
        n <= m,
    ensures
        m % n == 0,
    decreases m,
{
    reveal(is_pow2);
    if n != 1 {
        assert(n % 2 == 0 && is_pow2(n / 2) && n >= 2);
        assert(m != 1 && m % 2 == 0 && is_pow2(m / 2) && m >= 2);
        lemma_pow2_divides(n / 2, m / 2);
        let a = m / 2;
        let b = n / 2;
        let q = a / b;
        assert(m == 2 * a);
        assert(n == 2 * b);
        lemma_fundamental_div_mod(a, b);
        assert(a == b * q);
        assert(m == n * q) by (nonlinear_arith)
            requires
                m == 2 * a,
                n == 2 * b,
                a == b * q,
        ;
        lemma_mod_multiples_vanish(q, 0, n);
    }
}

/// Inserting the successor of the head — the way a connection's allocator
/// fills the sent tracker — preserves the window invariant, provided the
/// capacity is a power of two (so slots realign identically across the
/// 16-bit wrap; a capacity that is not a power of two can leave an entry
/// drifting past the window there).  Starting from an empty buffer, whose
/// first insert is the head itself, every tracked sequence therefore stays
/// within the window, and by `lemma_successor_not_tracked` the next
/// allocated sequence is never one still tracked.
pub proof fn lemma_successor_insert_preserves_window<T>(
    b0: SequenceBuffer<T>,
    b1: SequenceBuffer<T>,
    s: u16,
    v: T,
)
    requires
        b0.wf(),
        b1.cap() == b0.cap(),
        is_pow2(b0.cap() as int),
        b0.within_window(),
        stored(b0, b1, s, v),
        s == wrap16_add(b0.head(), 1) || (s == b0.head() && forall|t: u16| !b0.contains(t)),
    ensures
        b1.within_window(),
{
    let n = b0.cap() as int;
    let h = b0.head();
    let stale = more_recent(wrap16_sub(h, b0.cap() as u16), s);
    if !stale {
        assert forall|t: u16| #[trigger] b1.contains(t) implies wrap16_sub(b1.head(), t)
            < b1.cap() by {
            if t != s {
                assert(b0.contains(t) && b0.slot_of(t) != b0.slot_of(s));
                if s == wrap16_add(h, 1) {
                    let behind0 = wrap16_sub(h, t);
                    assert(behind0 < n);
                    assert(wrap16_sub(s, t) == behind0 + 1);
                    if behind0 == n - 1 {
                        lemma_is_pow2_65536();
                        lemma_pow2_divides(n, 0x10000);
                        let k = 0x10000int / n;
                        lemma_fundamental_div_mod(0x10000int, n);
                        assert(0x10000int == n * k);
                        if t as int == s as int - n {
                            lemma_mod_multiples_vanish(-1, s as int, n);
                            assert(t as int == n * (-1) + s as int);
                        } else {
                            assert(t as int == s as int - n + 0x10000);
                            lemma_mod_multiples_vanish(k - 1, s as int, n);
                            assert(t as int == n * (k - 1) + s as int) by (nonlinear_arith)
                                requires
                                    t as int == s as int - n + 0x10000,
                                    0x10000 == n * k,
                            ;
                        }
                        assert(b0.slot_of(t) == b0.slot_of(s));
                        assert(false);
                    }
                }
            }
        }
    }
}

/// True when bit `i` of `mask` is set.
pub open spec fn nth_bit(mask: u32, i: u32) -> bool {
    mask & (1u32 << i) != 0
}

/// The redundant-ack relation: bit `i` of `mask` is set exactly when
/// sequence `ack - i` is retrievable in `b`, for the 32 most recent
/// sequences ending at `ack`.
pub open spec fn mask_matches<T>(b: SequenceBuffer<T>, ack: u16, mask: u32) -> bool {
    forall|i: u32| i < 32 ==> (#[trigger] nth_bit(mask, i) <==> b.contains(wrap16_sub(ack, i as u16)))
}

proof fn lemma_nth_bit_zero()
    by (bit_vector)
    ensures
        forall|j: u32| !nth_bit(0u32, j),
{
}

proof fn lemma_nth_bit_or(m: u32, i: u32)
    by (bit_vector)
    requires
        i < 32,
    ensures
        forall|j: u32|
            j < 32 ==> (#[trigger] nth_bit(m | (1u32 << i), j) <==> (j == i || nth_bit(m, j))),
{
}

} // verus!
