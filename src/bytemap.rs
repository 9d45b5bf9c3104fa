use vstd::prelude::*;

verus! {

/// Sum of the entries of `s`.
pub open spec fn total(s: Seq<u8>) -> nat
    decreases s.len(),
{
    if s.len() == 0 {
        0
    } else {
        total(s.drop_last()) + s.last() as nat
    }
}

/// Setting entry `i` of `s` to `v` changes the sum by the difference.
pub proof fn lemma_total_update(s: Seq<u8>, i: int, v: u8)
    requires
        0 <= i < s.len(),
    ensures
        total(s.update(i, v)) + s[i] == total(s) + v,
    decreases s.len(),
{
    if i == s.len() - 1 {
        assert(s.update(i, v).drop_last() =~= s.drop_last());
    } else {
        assert(s.update(i, v).drop_last() =~= s.drop_last().update(i, v));
        lemma_total_update(s.drop_last(), i, v);
    }
}

/// The sum is at most the largest byte times the number of entries.
pub proof fn lemma_total_bound(s: Seq<u8>)
    ensures
        total(s) <= 255 * s.len(),
    decreases s.len(),
{
    if s.len() > 0 {
        lemma_total_bound(s.drop_last());
    }
}

/// A sequence of zeros sums to zero.
pub proof fn lemma_total_zeros(n: nat)
    ensures
        total(Seq::new(n, |i: int| 0u8)) == 0,
    decreases n,
{
    if n > 0 {
        assert(Seq::new(n, |i: int| 0u8).drop_last() =~= Seq::new((n - 1) as nat, |i: int| 0u8));
        lemma_total_zeros((n - 1) as nat);
    }
}

/// Cell value after adding `by` to `v`: held at the largest byte rather than wrapped.
pub open spec fn raised(v: u8, by: u8) -> u8 {
    if v + by > u8::MAX {
        u8::MAX
    } else {
        (v + by) as u8
    }
}

/// Cell value after taking one from `v`: held at zero.
pub open spec fn lowered(v: u8) -> u8 {
    if v > 0 {
        (v - 1) as u8
    } else {
        0
    }
}

/// A fixed number of counters, one byte each, with the sum of all of them.
///
/// A counter never goes below zero, and stops at 255 rather than wrap.
#[derive(Debug)]
pub struct ByteMap {
    vec: Vec<u8>,
    count: usize,
}

impl View for ByteMap {
    type V = Seq<u8>;

    closed spec fn view(&self) -> Seq<u8> {
        self.vec@
    }
}

impl ByteMap {
    pub closed spec fn wf(&self) -> bool {
        &&& self.count == total(self.vec@)
        &&& 255 * self.vec@.len() <= usize::MAX
    }

    /// Makes `len` counters, all zero.
    pub fn new(len: usize) -> (r: ByteMap)
        requires
            255 * len <= usize::MAX,
        ensures
            r.wf(),
            r@ == Seq::new(len as nat, |i: int| 0u8),
    {
        let r = ByteMap { vec: vec![0u8; len], count: 0 };
        proof {
            assert(r@ =~= Seq::new(len as nat, |i: int| 0u8));
            lemma_total_zeros(len as nat);
        }
        r
    }

    /// Sum of all counters.
    pub fn count(&self) -> (r: usize)
        requires
            self.wf(),
        ensures
            r == total(self@),
    {
        self.count
    }

    /// Counter `byte_n`.
    pub fn get_byte(&self, byte_n: usize) -> (r: u8)
        requires
            byte_n < self@.len(),
        ensures
            r == self@[byte_n as int],
    {
        self.vec[byte_n]
    }

    /// Adds one to counter `byte_n`.
    pub fn inc_byte(&mut self, byte_n: usize)
        requires
            old(self).wf(),
            byte_n < old(self)@.len(),
        ensures
            final(self).wf(),
            final(self)@ == old(self)@.update(byte_n as int, raised(old(self)@[byte_n as int], 1)),
    {
        self.inc_byte_by(byte_n, 1);
    }

    /// Adds `by` to counter `byte_n`.
    pub fn inc_byte_by(&mut self, byte_n: usize, by: u8)
        requires
            old(self).wf(),
            byte_n < old(self)@.len(),
        ensures
            final(self).wf(),
            final(self)@ == old(self)@.update(byte_n as int, raised(old(self)@[byte_n as int], by)),
    {
        let ghost before = self@;
        let v = self.vec[byte_n];
        let nv = v.saturating_add(by);
        self.vec.set(byte_n, nv);
        proof {
            lemma_total_update(before, byte_n as int, nv);
            lemma_total_bound(self@);
        }
        self.count = self.count + (nv - v) as usize;
    }

    /// Takes one from counter `byte_n`, unless it is zero.
    pub fn dec_byte(&mut self, byte_n: usize)
        requires
            old(self).wf(),
            byte_n < old(self)@.len(),
        ensures
            final(self).wf(),
            final(self)@ == old(self)@.update(byte_n as int, lowered(old(self)@[byte_n as int])),
    {
        let ghost before = self@;
        if self.vec[byte_n] > 0 {
            let nv = self.vec[byte_n] - 1;
            self.vec.set(byte_n, nv);
            proof {
                lemma_total_update(before, byte_n as int, nv);
            }
            self.count = self.count - 1;
        } else {
            assert(self@ =~= before.update(byte_n as int, lowered(before[byte_n as int])));
        }
    }
}

} // verus!
