use vstd::prelude::*;

verus! {

/// Number of cells held by one word of the backing array.
pub const ITEM_BITS: usize = 8;

/// Whether bit `j` of `word` is set.
pub open spec fn bit_of(word: u8, j: u8) -> bool {
    word & (1u8 << j) != 0
}

/// Number of `true` entries of `s`.
pub open spec fn lit_count(s: Seq<bool>) -> nat
    decreases s.len(),
{
    if s.len() == 0 {
        0
    } else {
        lit_count(s.drop_last()) + if s.last() {
            1nat
        } else {
            0nat
        }
    }
}

/// Setting entry `i` of `s` to `v` changes the number of `true` entries by the difference.
pub proof fn lemma_lit_count_update(s: Seq<bool>, i: int, v: bool)
    requires
        0 <= i < s.len(),
    ensures
        lit_count(s.update(i, v)) + (if s[i] {
            1int
        } else {
            0int
        }) == lit_count(s) + (if v {
            1int
        } else {
            0int
        }),
    decreases s.len(),
{
    if i == s.len() - 1 {
        assert(s.update(i, v).drop_last() =~= s.drop_last());
    } else {
        assert(s.update(i, v).drop_last() =~= s.drop_last().update(i, v));
        lemma_lit_count_update(s.drop_last(), i, v);
    }
}

/// There are no more `true` entries than entries.
pub proof fn lemma_lit_count_bound(s: Seq<bool>)
    ensures
        lit_count(s) <= s.len(),
    decreases s.len(),
{
    if s.len() > 0 {
        lemma_lit_count_bound(s.drop_last());
    }
}

/// A sequence of `false` entries has no `true` entry.
pub proof fn lemma_lit_count_none(n: nat)
    ensures
        lit_count(Seq::new(n, |i: int| false)) == 0,
    decreases n,
{
    if n > 0 {
        assert(Seq::new(n, |i: int| false).drop_last() =~= Seq::new((n - 1) as nat, |i: int| false));
        lemma_lit_count_none((n - 1) as nat);
    }
}

proof fn lemma_bits_set(w: u8, j: u8, k: u8)
    requires
        j < 8,
        k < 8,
    ensures
        bit_of(w | (1u8 << j), k) == (k == j || bit_of(w, k)),
{
    assert(bit_of(w | (1u8 << j), k) == (k == j || bit_of(w, k))) by (bit_vector)
        requires
            j < 8,
            k < 8,
    ;
}

proof fn lemma_bits_clear(w: u8, j: u8, k: u8)
    requires
        j < 8,
        k < 8,
    ensures
        bit_of(w & !(1u8 << j), k) == (k != j && bit_of(w, k)),
{
    assert(bit_of(w & !(1u8 << j), k) == (k != j && bit_of(w, k))) by (bit_vector)
        requires
            j < 8,
            k < 8,
    ;
}

proof fn lemma_bits_zero(k: u8)
    requires
        k < 8,
    ensures
        !bit_of(0u8, k),
{
    assert(!bit_of(0u8, k)) by (bit_vector)
        requires
            k < 8,
    ;
}

/// A fixed number of on/off cells, packed eight to a byte, with the number of cells that are on.
///
/// Valid cell indices are `0..len`: the index equal to the length is out of bounds.
#[derive(Debug)]
pub struct BitMap {
    len: usize,
    vec: Vec<u8>,
    count: usize,
}

impl View for BitMap {
    type V = Seq<bool>;

    /// The state of each cell: cell `i` is bit `i % 8` of word `i / 8`.
    closed spec fn view(&self) -> Seq<bool> {
        Seq::new(self.len as nat, |i: int| bit_of(self.vec@[i / 8], (i % 8) as u8))
    }
}

impl BitMap {
    /// The backing words.
    pub closed spec fn words(&self) -> Seq<u8> {
        self.vec@
    }

    pub closed spec fn wf(&self) -> bool {
        &&& self.vec@.len() == (self.len + 7) / 8
        &&& self.count == lit_count(self@)
    }

    /// Makes `bit_len` cells, all off.
    pub fn new(bit_len: usize) -> (r: BitMap)
        ensures
            r.wf(),
            r@ == Seq::new(bit_len as nat, |i: int| false),
            r.words().len() == (bit_len + 7) / 8,
    {
        let vec_len = Self::calc_internal_size(bit_len);
        let r = BitMap { len: bit_len, vec: vec![0u8; vec_len], count: 0 };
        proof {
            assert forall|i: int| 0 <= i < bit_len implies r@[i] == false by {
                assert(r.vec@[i / 8] == 0u8);
                lemma_bits_zero((i % 8) as u8);
            }
            assert(r@ =~= Seq::new(bit_len as nat, |i: int| false));
            lemma_lit_count_none(bit_len as nat);
        }
        r
    }

    /// Number of words needed for `bit_len` cells.
    pub fn calc_internal_size(bit_len: usize) -> (r: usize)
        ensures
            r == (bit_len + 7) / 8,
    {
        if bit_len % ITEM_BITS == 0 {
            bit_len / ITEM_BITS
        } else {
            bit_len / ITEM_BITS + 1
        }
    }

    /// Index of the word that holds cell `bit_n`.
    pub fn get_item_index(bit_n: usize) -> (r: usize)
        ensures
            r == bit_n / 8,
    {
        bit_n / ITEM_BITS
    }

    /// The mask of cell `bit_n` within its word.
    fn shift(bit_n: usize) -> (r: u8)
        ensures
            r == 1u8 << ((bit_n % 8) as u8),
    {
        1u8 << ((bit_n % ITEM_BITS) as u8)
    }

    /// Word `i` of the backing array.
    pub fn word(&self, i: usize) -> (r: u8)
        requires
            self.wf(),
            i < self.words().len(),
        ensures
            r == self.words()[i as int],
            forall|k: u8|
                k < 8 && i * 8 + k < self@.len() ==> self@[i * 8 + k] == #[trigger] bit_of(r, k),
    {
        proof {
            assert forall|k: u8| k < 8 && i * 8 + k < self@.len() implies self@[i * 8 + k]
                == #[trigger] bit_of(self.vec@[i as int], k) by {
                assert((i * 8 + k) / 8 == i);
                assert((i * 8 + k) % 8 == k);
            }
        }
        self.vec[i]
    }

    /// Number of cells that are on.
    pub fn count(&self) -> (r: usize)
        requires
            self.wf(),
        ensures
            r == lit_count(self@),
    {
        self.count
    }

    /// Whether cell `bit_n` is on.
    pub fn get_bit(&self, bit_n: usize) -> (r: bool)
        requires
            self.wf(),
            bit_n < self@.len(),
        ensures
            r == self@[bit_n as int],
    {
        let i = Self::get_item_index(bit_n);
        (self.vec[i] & Self::shift(bit_n)) != 0
    }

    /// A map whose word of cell `bit_n` changed in that cell alone, to `v`, differs from this
    /// one in that cell alone.
    proof fn lemma_store(&self, other: &BitMap, bit_n: int, v: bool)
        requires
            self.vec@.len() == (self.len + 7) / 8,
            0 <= bit_n < self.len,
            other.len == self.len,
            other.vec@ == self.vec@.update(bit_n / 8, other.vec@[bit_n / 8]),
            forall|k: u8|
                k < 8 ==> #[trigger] bit_of(other.vec@[bit_n / 8], k) == if k == (bit_n % 8) as u8 {
                    v
                } else {
                    bit_of(self.vec@[bit_n / 8], k)
                },
        ensures
            other@ == self@.update(bit_n, v),
    {
        assert forall|i: int| 0 <= i < self.len implies other@[i] == self@.update(bit_n, v)[i] by {
            if i / 8 == bit_n / 8 {
                let k = (i % 8) as u8;
                assert(bit_of(other.vec@[bit_n / 8], k) == if k == (bit_n % 8) as u8 {
                    v
                } else {
                    bit_of(self.vec@[bit_n / 8], k)
                });
            }
        }
        assert(other@ =~= self@.update(bit_n, v));
    }

    /// Switches cell `bit_n` on.
    pub fn set_bit(&mut self, bit_n: usize)
        requires
            old(self).wf(),
            bit_n < old(self)@.len(),
        ensures
            final(self).wf(),
            final(self)@ == old(self)@.update(bit_n as int, true),
    {
        let i = Self::get_item_index(bit_n);
        if !self.get_bit(bit_n) {
            self.switch(i, bit_n, true);
        } else {
            assert(self@ =~= self@.update(bit_n as int, true));
        }
    }

    /// Switches cell `bit_n` off.
    pub fn reset_bit(&mut self, bit_n: usize)
        requires
            old(self).wf(),
            bit_n < old(self)@.len(),
        ensures
            final(self).wf(),
            final(self)@ == old(self)@.update(bit_n as int, false),
    {
        let i = Self::get_item_index(bit_n);
        if self.get_bit(bit_n) {
            self.switch(i, bit_n, false);
        } else {
            assert(self@ =~= self@.update(bit_n as int, false));
        }
    }

    /// Flips cell `bit_n`.
    pub fn toggle_bit(&mut self, bit_n: usize)
        requires
            old(self).wf(),
            bit_n < old(self)@.len(),
        ensures
            final(self).wf(),
            final(self)@ == old(self)@.update(bit_n as int, !old(self)@[bit_n as int]),
    {
        let i = Self::get_item_index(bit_n);
        // Read, then write, so that the count follows the change.
        if self.get_bit(bit_n) {
            self.switch(i, bit_n, false);
        } else {
            self.switch(i, bit_n, true);
        }
    }

    /// Sets cell `bit_n`, which lies in word `i` and is not `v` yet, to `v`, and keeps the count.
    fn switch(&mut self, i: usize, bit_n: usize, v: bool)
        requires
            old(self).wf(),
            bit_n < old(self)@.len(),
            i == bit_n / 8,
            old(self)@[bit_n as int] != v,
        ensures
            final(self).wf(),
            final(self)@ == old(self)@.update(bit_n as int, v),
    {
        let ghost before = *self;
        let mask = Self::shift(bit_n);
        let word = if v {
            self.vec[i] | mask
        } else {
            self.vec[i] & !mask
        };
        self.vec.set(i, word);
        proof {
            let j = (bit_n % 8) as u8;
            assert forall|k: u8| k < 8 implies #[trigger] bit_of(self.vec@[i as int], k) == if k == j {
                v
            } else {
                bit_of(before.vec@[i as int], k)
            } by {
                if v {
                    lemma_bits_set(before.vec@[i as int], j, k);
                } else {
                    lemma_bits_clear(before.vec@[i as int], j, k);
                }
            }
            before.lemma_store(self, bit_n as int, v);
            lemma_lit_count_update(before@, bit_n as int, v);
            lemma_lit_count_bound(self@);
        }
        if v {
            self.count = self.count + 1;
        } else {
            self.count = self.count - 1;
        }
    }
}

} // verus!
