//! A growable vector of bits packed into 64-bit words.
use vstd::prelude::*;

use crate::bits::{bit_of, lemma_flip_bit, lemma_set_bit, lemma_zero_word, max_len};

verus! {

/// A vector of bits, stored least significant bit first in 64-bit words.
pub struct BitVec {
    data: Vec<u64>,
    len: usize,
}

impl View for BitVec {
    type V = Seq<bool>;

    closed spec fn view(&self) -> Seq<bool> {
        Seq::new(self.len as nat, |i: int| bit_of(self.data@[i / 64], i % 64))
    }
}

impl BitVec {
    /// The vector's words hold exactly its bits, and the bits of the last word past
    /// the end are clear.
    pub closed spec fn wf(&self) -> bool {
        &&& self.len <= max_len()
        &&& self.data@.len() == (self.len as int + 63) / 64
        &&& forall|j: int|
            self.len <= j < self.data@.len() * 64 ==> !#[trigger] bit_of(self.data@[j / 64], j % 64)
    }

    /// A well-formed vector holds no more than `max_len()` bits.
    pub proof fn lemma_len_bound(&self)
        requires
            self.wf(),
        ensures
            self@.len() <= max_len(),
    {
    }

    /// Create an empty bit vector.
    pub fn new() -> (r: BitVec)
        ensures
            r.wf(),
            r@ == Seq::<bool>::empty(),
    {
        let r = BitVec { data: Vec::new(), len: 0 };
        assert(r@ =~= Seq::<bool>::empty());
        r
    }

    /// Create an empty bit vector with room for `capacity` bits.
    pub fn with_capacity(capacity: usize) -> (r: BitVec)
        ensures
            r.wf(),
            r@ == Seq::<bool>::empty(),
    {
        let r = BitVec { data: Vec::with_capacity(capacity / 64 + 1), len: 0 };
        assert(r@ =~= Seq::<bool>::empty());
        r
    }

    /// Create a bit vector of `len` cleared bits.
    pub fn from_zeros(len: usize) -> (r: BitVec)
        requires
            len <= max_len(),
        ensures
            r.wf(),
            r@ == Seq::new(len as nat, |i: int| false),
    {
        let words: usize = len / 64 + if len % 64 == 0 { 0 } else { 1 };
        let mut data: Vec<u64> = Vec::with_capacity(words);
        let mut k: usize = 0;
        while k < words
            invariant
                k <= words,
                data@.len() == k,
                forall|w: int| 0 <= w < k ==> data@[w] == 0u64,
            decreases words - k,
        {
            data.push(0u64);
            k = k + 1;
        }
        let r = BitVec { data, len };
        assert forall|j: int| 0 <= j < r.data@.len() * 64 implies !#[trigger] bit_of(
            r.data@[j / 64],
            j % 64,
        ) by {
            lemma_zero_word(j % 64);
        }
        assert(r@ =~= Seq::new(len as nat, |i: int| false));
        r
    }

    /// The number of bits.
    pub fn len(&self) -> (r: usize)
        requires
            self.wf(),
        ensures
            r == self@.len(),
    {
        self.len
    }

    /// Whether the vector holds no bit.
    pub fn is_empty(&self) -> (r: bool)
        requires
            self.wf(),
        ensures
            r == (self@.len() == 0),
    {
        self.len == 0
    }

    /// Append the least significant bit of `bit`.
    pub fn append_bit(&mut self, bit: u64)
        requires
            old(self).wf(),
            old(self)@.len() < max_len(),
        ensures
            final(self).wf(),
            final(self)@ == old(self)@.push(bit % 2 == 1),
    {
        let ghost old_self = *self;
        let pos = self.len;
        if pos % 64 == 0 {
            self.data.push(0u64);
        }
        let w: usize = pos / 64;
        let k: u64 = (pos % 64) as u64;
        let ghost before = self.data@;
        assert forall|j: int| 0 <= j < self.data@.len() * 64 && j >= pos implies !#[trigger] bit_of(
            self.data@[j / 64],
            j % 64,
        ) by {
            if j / 64 >= old_self.data@.len() {
                lemma_zero_word(j % 64);
            }
        }
        if bit % 2 == 1 {
            let old_word = self.data[w];
            self.data.set(w, old_word | (1u64 << k));
            proof {
                assert forall|j: int| 0 <= j < 64 implies bit_of(self.data@[w as int], j) == (j
                    == k as int || bit_of(old_word, j)) by {
                    lemma_set_bit(old_word, k, j);
                }
            }
        }
        self.len = pos + 1;
        proof {
            assert forall|i: int| 0 <= i < pos implies #[trigger] bit_of(self.data@[i / 64], i % 64) == bit_of(
                old_self.data@[i / 64],
                i % 64,
            ) by {
                if i / 64 == w as int {
                    assert(i % 64 != k as int);
                }
            }
            assert forall|j: int|
                self.len <= j < self.data@.len() * 64 implies !#[trigger] bit_of(
                self.data@[j / 64],
                j % 64,
            ) by {
                if j / 64 == w as int {
                    assert(j % 64 != k as int);
                    assert(!bit_of(before[j / 64], j % 64));
                } else {
                    assert(!bit_of(before[j / 64], j % 64));
                }
            }
            let p = pos as int;
            assert(bit_of(self.data@[p / 64], p % 64) == (bit % 2 == 1)) by {
                assert(!bit_of(before[p / 64], p % 64));
            }
            assert(self@ =~= old_self@.push(bit % 2 == 1));
        }
    }

    /// Append the `len` least significant bits of `bits`, least significant first.
    pub fn append_bits(&mut self, bits: u64, len: usize)
        requires
            old(self).wf(),
            len <= 64,
            old(self)@.len() + len <= max_len(),
        ensures
            final(self).wf(),
            final(self)@ == old(self)@ + Seq::new(len as nat, |j: int| bit_of(bits, j)),
    {
        let ghost start = self@;
        let mut j: usize = 0;
        while j < len
            invariant
                j <= len,
                len <= 64,
                self.wf(),
                start.len() + len <= max_len(),
                self@ == start + Seq::new(j as nat, |t: int| bit_of(bits, t)),
            decreases len - j,
        {
            let b = (bits >> (j as u64)) & 1u64;
            assert(b % 2 == 1 <==> bit_of(bits, j as int)) by {
                let jj = j as u64;
                assert(((bits >> jj) & 1u64) % 2 == 1 <==> (bits >> jj) & 1u64 == 1u64)
                    by (bit_vector);
            }
            self.append_bit(b);
            j = j + 1;
            assert(self@ =~= start + Seq::new(j as nat, |t: int| bit_of(bits, t)));
        }
    }

    /// Flip the bit at `pos`.
    pub fn flip_bit(&mut self, pos: usize)
        requires
            old(self).wf(),
            pos < old(self)@.len(),
        ensures
            final(self).wf(),
            final(self)@ == old(self)@.update(pos as int, !old(self)@[pos as int]),
    {
        let ghost old_self = *self;
        let w: usize = pos / 64;
        let k: u64 = (pos % 64) as u64;
        let old_word = self.data[w];
        self.data.set(w, old_word ^ (1u64 << k));
        proof {
            assert forall|j: int| 0 <= j < 64 implies bit_of(self.data@[w as int], j) == (if j
                == k as int {
                !bit_of(old_word, j)
            } else {
                bit_of(old_word, j)
            }) by {
                lemma_flip_bit(old_word, k, j);
            }
            assert forall|j: int|
                self.len <= j < self.data@.len() * 64 implies !#[trigger] bit_of(
                self.data@[j / 64],
                j % 64,
            ) by {
                assert(!bit_of(old_self.data@[j / 64], j % 64));
                if j / 64 == w as int {
                    assert(j % 64 != k as int);
                }
            }
            assert(self@ =~= old_self@.update(pos as int, !old_self@[pos as int]));
        }
    }

    /// The number of words the bits are packed in.
    pub(crate) fn num_words(&self) -> (r: usize)
        requires
            self.wf(),
        ensures
            r as int == (self@.len() + 63) / 64,
    {
        self.data.len()
    }

    /// The word holding bits `64 * w` to `64 * w + 63`; bits past the end are clear.
    pub(crate) fn word(&self, w: usize) -> (r: u64)
        requires
            self.wf(),
            w < (self@.len() + 63) / 64,
        ensures
            forall|j: int|
                0 <= j < 64 ==> #[trigger] bit_of(r, j) == (64 * w + j < self@.len() && self@[64
                    * w + j]),
    {
        let r = self.data[w];
        proof {
            assert forall|j: int| 0 <= j < 64 implies #[trigger] bit_of(r, j) == (64 * w + j
                < self@.len() && self@[64 * w + j]) by {
                let i = 64 * w + j;
                assert(i / 64 == w as int && i % 64 == j);
                if i >= self.len {
                    assert(!bit_of(self.data@[i / 64], i % 64));
                }
            }
        }
        r
    }

    /// The bit at `pos`, as 0 or 1.
    pub fn get_unchecked(&self, pos: usize) -> (r: u64)
        requires
            self.wf(),
            pos < self@.len(),
        ensures
            r == (if self@[pos as int] { 1u64 } else { 0u64 }),
    {
        let word = self.data[pos / 64];
        let k: u64 = (pos % 64) as u64;
        let r = (word >> k) & 1u64;
        assert(r == 0u64 || r == 1u64) by (bit_vector)
            requires
                r == (word >> k) & 1u64,
        ;
        r
    }

    /// The bit at `pos` as 0 or 1, or `None` past the end.
    pub fn get(&self, pos: usize) -> (r: Option<u64>)
        requires
            self.wf(),
        ensures
            r == (if pos < self@.len() {
                Some(if self@[pos as int] { 1u64 } else { 0u64 })
            } else {
                None
            }),
    {
        if pos < self.len {
            Some(self.get_unchecked(pos))
        } else {
            None
        }
    }

    /// The `len` bits from `pos` on, the bit at `pos` least significant.
    pub fn get_bits(&self, pos: usize, len: usize) -> (r: u64)
        requires
            self.wf(),
            len <= 64,
            pos + len <= self@.len(),
        ensures
            forall|j: int| 0 <= j < 64 ==> bit_of(r, j) == (j < len && self@[pos + j]),
    {
        let mut r: u64 = 0;
        let mut j: usize = 0;
        proof {
            assert forall|t: int| 0 <= t < 64 implies bit_of(r, t) == (t < j && self@[pos + t]) by {
                lemma_zero_word(t);
            }
        }
        while j < len
            invariant
                self.wf(),
                j <= len,
                len <= 64,
                pos + len <= self@.len(),
                forall|t: int| 0 <= t < 64 ==> bit_of(r, t) == (t < j && self@[pos + t]),
            decreases len - j,
        {
            let b = self.get_unchecked(pos + j);
            let ghost old_r = r;
            if b == 1 {
                r = r | (1u64 << (j as u64));
                proof {
                    assert forall|t: int| 0 <= t < 64 implies bit_of(r, t) == (t == j as int
                        || bit_of(old_r, t)) by {
                        lemma_set_bit(old_r, j as u64, t);
                    }
                }
            }
            j = j + 1;
        }
        r
    }
}

} // verus!
