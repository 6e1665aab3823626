//! A bit vector with rank and select support.
use vstd::prelude::*;

use crate::bit_vec::BitVec;
use crate::bits::{bit_of, max_len};

verus! {

/// The number of set bits among the first `p` bits of `s`.
pub open spec fn ones(s: Seq<bool>, p: int) -> int
    decreases p,
{
    if p <= 0 {
        0
    } else {
        ones(s, p - 1) + if s[p - 1] {
            1int
        } else {
            0int
        }
    }
}

/// The number of clear bits among the first `p` bits of `s`.
pub open spec fn zeros(s: Seq<bool>, p: int) -> int {
    p - ones(s, p)
}

/// The 1-rank of position `p`: the set bits before it, or all of them past the end.
pub open spec fn rank1_spec(s: Seq<bool>, p: int) -> int {
    if p < s.len() {
        ones(s, p)
    } else {
        ones(s, s.len() as int)
    }
}

/// The 0-rank of position `p`: the clear bits before it, or all of them past the end.
pub open spec fn rank0_spec(s: Seq<bool>, p: int) -> int {
    if p < s.len() {
        zeros(s, p)
    } else {
        zeros(s, s.len() as int)
    }
}

/// `p` holds the set bit with `k` set bits before it.
pub open spec fn is_select1(s: Seq<bool>, k: int, p: int) -> bool {
    0 <= p < s.len() && s[p] && ones(s, p) == k
}

/// `p` holds the clear bit with `k` clear bits before it.
pub open spec fn is_select0(s: Seq<bool>, k: int, p: int) -> bool {
    0 <= p < s.len() && !s[p] && zeros(s, p) == k
}

/// The position of the set bit of rank `k` (counted from 0), or the length when
/// there are not that many set bits.
pub open spec fn select1_spec(s: Seq<bool>, k: int) -> int {
    if exists|p: int| is_select1(s, k, p) {
        choose|p: int| is_select1(s, k, p)
    } else {
        s.len() as int
    }
}

/// The position of the clear bit of rank `k` (counted from 0), or the length when
/// there are not that many clear bits.
pub open spec fn select0_spec(s: Seq<bool>, k: int) -> int {
    if exists|p: int| is_select0(s, k, p) {
        choose|p: int| is_select0(s, k, p)
    } else {
        s.len() as int
    }
}

/// The number of set bits among the `m` least significant bits of `w`.
pub open spec fn word_ones(w: u64, m: int) -> int
    decreases m,
{
    if m <= 0 {
        0
    } else {
        word_ones(w, m - 1) + if bit_of(w, m - 1) {
            1int
        } else {
            0int
        }
    }
}

/// Counting set bits steps by at most one per position.
pub proof fn lemma_ones_step(s: Seq<bool>, p: int, q: int)
    requires
        0 <= p <= q,
    ensures
        ones(s, p) <= ones(s, q) <= ones(s, p) + (q - p),
    decreases q - p,
{
    if p < q {
        lemma_ones_step(s, p, q - 1);
    }
}

/// Two positions holding set bits with the same rank are the same position.
pub proof fn lemma_select1_unique(s: Seq<bool>, k: int, p: int)
    requires
        is_select1(s, k, p),
    ensures
        select1_spec(s, k) == p,
{
    let q = choose|q: int| is_select1(s, k, q);
    if q < p {
        lemma_ones_step(s, q + 1, p);
    } else if p < q {
        lemma_ones_step(s, p + 1, q);
    }
}

/// Two positions holding clear bits with the same rank are the same position.
pub proof fn lemma_select0_unique(s: Seq<bool>, k: int, p: int)
    requires
        is_select0(s, k, p),
    ensures
        select0_spec(s, k) == p,
{
    let q = choose|q: int| is_select0(s, k, q);
    if q < p {
        lemma_ones_step(s, q + 1, p);
    } else if p < q {
        lemma_ones_step(s, p + 1, q);
    }
}

/// With no more than `k` set bits, no set bit has rank `k`.
pub proof fn lemma_select1_none(s: Seq<bool>, k: int)
    requires
        ones(s, s.len() as int) <= k,
    ensures
        select1_spec(s, k) == s.len(),
{
    if exists|p: int| is_select1(s, k, p) {
        let p = choose|p: int| is_select1(s, k, p);
        lemma_ones_step(s, p + 1, s.len() as int);
    }
}

/// With no more than `k` clear bits, no clear bit has rank `k`.
pub proof fn lemma_select0_none(s: Seq<bool>, k: int)
    requires
        zeros(s, s.len() as int) <= k,
    ensures
        select0_spec(s, k) == s.len(),
{
    if exists|p: int| is_select0(s, k, p) {
        let p = choose|p: int| is_select0(s, k, p);
        lemma_ones_step(s, p + 1, s.len() as int);
    }
}

/// Below the number of set bits, every rank has its set bit.
proof fn lemma_select1_exists(s: Seq<bool>, k: int, m: int) -> (p: int)
    requires
        0 <= k < ones(s, m),
        0 <= m <= s.len(),
    ensures
        0 <= p < m,
        is_select1(s, k, p),
    decreases m,
{
    if k < ones(s, m - 1) {
        lemma_select1_exists(s, k, m - 1)
    } else {
        m - 1
    }
}

/// Below the number of clear bits, every rank has its clear bit.
proof fn lemma_select0_exists(s: Seq<bool>, k: int, m: int) -> (p: int)
    requires
        0 <= k < zeros(s, m),
        0 <= m <= s.len(),
    ensures
        0 <= p < m,
        is_select0(s, k, p),
    decreases m,
{
    if k < zeros(s, m - 1) {
        lemma_select0_exists(s, k, m - 1)
    } else {
        m - 1
    }
}

/// Select undoes rank on a set bit, and rank undoes select below the number of set
/// bits.
pub proof fn lemma_rank_select1(s: Seq<bool>, p: int, k: int)
    ensures
        0 <= p < s.len() && s[p] ==> select1_spec(s, rank1_spec(s, p)) == p,
        0 <= k < ones(s, s.len() as int) ==> rank1_spec(s, select1_spec(s, k)) == k,
{
    if 0 <= p < s.len() && s[p] {
        lemma_select1_unique(s, ones(s, p), p);
    }
    if 0 <= k < ones(s, s.len() as int) {
        let q = lemma_select1_exists(s, k, s.len() as int);
        lemma_select1_unique(s, k, q);
    }
}

/// Select undoes rank on a clear bit, and rank undoes select below the number of
/// clear bits.
pub proof fn lemma_rank_select0(s: Seq<bool>, p: int, k: int)
    ensures
        0 <= p < s.len() && !s[p] ==> select0_spec(s, rank0_spec(s, p)) == p,
        0 <= k < zeros(s, s.len() as int) ==> rank0_spec(s, select0_spec(s, k)) == k,
{
    if 0 <= p < s.len() && !s[p] {
        lemma_select0_unique(s, zeros(s, p), p);
    }
    if 0 <= k < zeros(s, s.len() as int) {
        let q = lemma_select0_exists(s, k, s.len() as int);
        lemma_select0_unique(s, k, q);
    }
}

/// The set bits of a word of a bit vector are those of the matching stretch of bits.
proof fn lemma_word_ones(s: Seq<bool>, base: int, w: u64, m: int)
    requires
        0 <= base,
        0 <= m <= 64,
        forall|j: int|
            0 <= j < 64 ==> #[trigger] bit_of(w, j) == (base + j < s.len() && s[base + j]),
    ensures
        base + m <= s.len() ==> word_ones(w, m) == ones(s, base + m) - ones(s, base),
        base <= s.len() < base + m ==> word_ones(w, m) == ones(s, s.len() as int) - ones(
            s,
            base,
        ),
    decreases m,
{
    if m > 0 {
        lemma_word_ones(s, base, w, m - 1);
        assert(bit_of(w, m - 1) == (base + m - 1 < s.len() && s[base + m - 1]));
    }
}

/// Count the set bits among the `m` least significant bits of `w`.
fn word_ones_low(w: u64, m: u64) -> (r: u64)
    requires
        m <= 64,
    ensures
        r == word_ones(w, m as int),
        r <= m,
{
    let mut r: u64 = 0;
    let mut j: u64 = 0;
    while j < m
        invariant
            j <= m <= 64,
            r == word_ones(w, j as int),
            r <= j,
        decreases m - j,
    {
        let b = (w >> j) & 1u64;
        assert(b == 1u64 || b == 0u64) by (bit_vector)
            requires
                b == (w >> j) & 1u64,
        ;
        r = r + b;
        j = j + 1;
    }
    r
}

/// A bit vector with support for rank and select queries.
pub struct RsVec {
    bits: BitVec,
    /// `word_ranks[w]` is the number of set bits before word `w`; one entry more
    /// than there are words, the last holding the total.
    word_ranks: Vec<usize>,
}

impl View for RsVec {
    type V = Seq<bool>;

    closed spec fn view(&self) -> Seq<bool> {
        self.bits@
    }
}

impl RsVec {
    /// The rank directory agrees with the bits.
    pub closed spec fn wf(&self) -> bool {
        &&& self.bits.wf()
        &&& self.word_ranks@.len() == (self.bits@.len() + 63) / 64 + 1
        &&& forall|w: int|
            0 <= w < self.word_ranks@.len() ==> #[trigger] self.word_ranks@[w] == ones(
                self.bits@,
                if 64 * w <= self.bits@.len() {
                    64 * w
                } else {
                    self.bits@.len() as int
                },
            )
    }

    /// A well-formed vector holds no more than `max_len()` bits.
    pub proof fn lemma_len_bound(&self)
        requires
            self.wf(),
        ensures
            self@.len() <= max_len(),
    {
        self.bits.lemma_len_bound();
    }

    /// Build rank and select support over the bits of `bits`.
    pub fn from_bit_vec(bits: BitVec) -> (r: RsVec)
        requires
            bits.wf(),
        ensures
            r.wf(),
            r@ == bits@,
    {
        let n = bits.num_words();
        proof {
            bits.lemma_len_bound();
        }
        let mut word_ranks: Vec<usize> = Vec::with_capacity(n + 1);
        word_ranks.push(0);
        let mut total: usize = 0;
        let mut w: usize = 0;
        while w < n
            invariant
                bits.wf(),
                n == (bits@.len() + 63) / 64,
                w <= n,
                word_ranks@.len() == w + 1,
                total == word_ranks@[w as int],
                bits@.len() <= max_len(),
                forall|v: int|
                    0 <= v <= w ==> #[trigger] word_ranks@[v] == ones(
                        bits@,
                        if 64 * v <= bits@.len() {
                            64 * v
                        } else {
                            bits@.len() as int
                        },
                    ),
            decreases n - w,
        {
            let word = bits.word(w);
            let c = word_ones_low(word, 64);
            proof {
                lemma_word_ones(bits@, 64 * w, word, 64);
                lemma_ones_step(bits@, 0, bits@.len() as int);
                if 64 * w + 64 <= bits@.len() {
                    lemma_ones_step(bits@, 0, 64 * w + 64);
                }
            }
            total = total + c as usize;
            word_ranks.push(total);
            w = w + 1;
        }
        RsVec { bits, word_ranks }
    }

    /// The number of bits.
    pub fn len(&self) -> (r: usize)
        requires
            self.wf(),
        ensures
            r == self@.len(),
    {
        self.bits.len()
    }

    /// Whether the vector holds no bit.
    pub fn is_empty(&self) -> (r: bool)
        requires
            self.wf(),
        ensures
            r == (self@.len() == 0),
    {
        self.bits.is_empty()
    }

    /// The bit at `pos` as 0 or 1, or `None` past the end.
    pub fn get(&self, pos: usize) -> (r: Option<u64>)
        requires
            self.wf(),
        ensures
            r == (if pos < self@.len() {
                Some(if self@[pos as int] { 1u64 } else { 0u64 })
            } else {
                None
            }),
    {
        self.bits.get(pos)
    }

    /// The bit at `pos`, as 0 or 1.
    pub fn get_unchecked(&self, pos: usize) -> (r: u64)
        requires
            self.wf(),
            pos < self@.len(),
        ensures
            r == (if self@[pos as int] { 1u64 } else { 0u64 }),
    {
        self.bits.get_unchecked(pos)
    }

    /// The `len` bits from `pos` on, the bit at `pos` least significant.
    pub fn get_bits_unchecked(&self, pos: usize, len: usize) -> (r: u64)
        requires
            self.wf(),
            len <= 64,
            pos + len <= self@.len(),
        ensures
            forall|j: int| 0 <= j < 64 ==> bit_of(r, j) == (j < len && self@[pos + j]),
    {
        self.bits.get_bits(pos, len)
    }

    /// The number of set bits before position `pos`; past the end, all of them.
    pub fn rank1(&self, pos: usize) -> (r: usize)
        requires
            self.wf(),
        ensures
            r == rank1_spec(self@, pos as int),
    {
        let len = self.bits.len();
        proof {
            self.lemma_len_bound();
        }
        if pos >= len {
            let n = self.bits.num_words();
            assert(self.word_ranks@[n as int] == ones(self@, len as int));
            return self.word_ranks[n];
        }
        let w = pos / 64;
        let word = self.bits.word(w);
        let c = word_ones_low(word, (pos % 64) as u64);
        proof {
            lemma_word_ones(self@, 64 * w, word, (pos % 64) as int);
            assert(self.word_ranks@[w as int] == ones(self@, 64 * w));
            lemma_ones_step(self@, 64 * w, pos as int);
            lemma_ones_step(self@, 0, pos as int);
        }
        self.word_ranks[w] + c as usize
    }

    /// The number of clear bits before position `pos`; past the end, all of them.
    pub fn rank0(&self, pos: usize) -> (r: usize)
        requires
            self.wf(),
        ensures
            r == rank0_spec(self@, pos as int),
    {
        let len = self.bits.len();
        let p = if pos < len {
            pos
        } else {
            len
        };
        let ones_before = self.rank1(p);
        proof {
            lemma_ones_step(self@, 0, p as int);
        }
        p - ones_before
    }

    /// The position of the set bit of rank `rank`, or the length when there are
    /// not that many set bits.
    pub fn select1(&self, rank: usize) -> (r: usize)
        requires
            self.wf(),
        ensures
            r == select1_spec(self@, rank as int),
    {
        let len = self.bits.len();
        let n = self.bits.num_words();
        let total = self.word_ranks[n];
        proof {
            self.lemma_len_bound();
            assert(self.word_ranks@[n as int] == ones(self@, len as int));
        }
        if rank >= total {
            proof {
                lemma_select1_none(self@, rank as int);
            }
            return len;
        }
        let mut lo: usize = 0;
        let mut hi: usize = n;
        assert(self.word_ranks@[0] == 0);
        while hi - lo > 1
            invariant
                self.wf(),
                n == (self@.len() + 63) / 64,
                lo < hi <= n,
                self.word_ranks@[lo as int] <= rank < self.word_ranks@[hi as int],
            decreases hi - lo,
        {
            let mid = lo + (hi - lo) / 2;
            if self.word_ranks[mid] <= rank {
                lo = mid;
            } else {
                hi = mid;
            }
        }
        let base = self.word_ranks[lo];
        let word = self.bits.word(lo);
        let target = rank - base;
        proof {
            assert(self.word_ranks@[lo as int] == ones(self@, 64 * lo));
            lemma_word_ones(self@, 64 * lo, word, 64);
        }
        let mut j: u64 = 0;
        let mut seen: usize = 0;
        while j < 64
            invariant
                self.wf(),
                lo < n,
                n == (self@.len() + 63) / 64,
                j <= 64,
                seen == word_ones(word, j as int),
                base == ones(self@, 64 * lo),
                target == rank - base,
                seen <= target,
                target < word_ones(word, 64),
                forall|t: int|
                    0 <= t < 64 ==> #[trigger] bit_of(word, t) == (64 * lo + t < self@.len()
                        && self@[64 * lo + t]),
            decreases 64 - j,
        {
            let b = (word >> j) & 1u64;
            assert(b == 1u64 || b == 0u64) by (bit_vector)
                requires
                    b == (word >> j) & 1u64,
            ;
            assert(bit_of(word, j as int) == (b == 1u64));
            if b == 1 && seen == target {
                proof {
                    self.lemma_len_bound();
                }
                let p = 64 * lo + j as usize;
                proof {
                    lemma_word_ones(self@, 64 * lo, word, j as int);
                    assert(bit_of(word, j as int));
                    assert(64 * lo + j < self@.len() && self@[64 * lo + j]);
                    assert(ones(self@, 64 * lo + j) == ones(self@, 64 * lo) + seen);
                    assert(p as int == 64 * lo + j);
                    assert(is_select1(self@, rank as int, p as int));
                    lemma_select1_unique(self@, rank as int, p as int);
                }
                return p;
            }
            seen = seen + b as usize;
            j = j + 1;
            proof {
                if j == 64 {
                    assert(false);
                }
            }
        }
        proof {
            assert(false);
        }
        len
    }

    /// The position of the clear bit of rank `rank`, or the length when there are
    /// not that many clear bits.
    pub fn select0(&self, rank: usize) -> (r: usize)
        requires
            self.wf(),
        ensures
            r == select0_spec(self@, rank as int),
    {
        let len = self.bits.len();
        let n = self.bits.num_words();
        proof {
            self.lemma_len_bound();
            assert(self.word_ranks@[n as int] == ones(self@, len as int));
            lemma_ones_step(self@, 0, len as int);
        }
        let total = len - self.word_ranks[n];
        if rank >= total {
            proof {
                lemma_select0_none(self@, rank as int);
            }
            return len;
        }
        let mut lo: usize = 0;
        let mut hi: usize = n;
        assert(self.word_ranks@[0] == 0);
        while hi - lo > 1
            invariant
                self.wf(),
                n == (self@.len() + 63) / 64,
                len == self@.len(),
                total == zeros(self@, len as int),
                lo < hi <= n,
                zeros(self@, 64 * lo) <= rank,
                rank < (if hi == n {
                    total as int
                } else {
                    zeros(self@, 64 * hi)
                }),
            decreases hi - lo,
        {
            let mid = lo + (hi - lo) / 2;
            proof {
                assert(self.word_ranks@[mid as int] == ones(self@, 64 * mid));
                lemma_ones_step(self@, 0, 64 * mid);
            }
            if 64 * mid - self.word_ranks[mid] <= rank {
                lo = mid;
            } else {
                hi = mid;
            }
        }
        let word = self.bits.word(lo);
        proof {
            assert(self.word_ranks@[lo as int] == ones(self@, 64 * lo));
            lemma_ones_step(self@, 0, 64 * lo);
        }
        let base = 64 * lo - self.word_ranks[lo];
        let target = rank - base;
        let mut j: u64 = 0;
        let mut seen: usize = 0;
        while j < 64
            invariant
                self.wf(),
                lo < n,
                n == (self@.len() + 63) / 64,
                len == self@.len(),
                total == zeros(self@, len as int),
                j <= 64,
                64 * lo + j <= len,
                len <= max_len(),
                base == zeros(self@, 64 * lo),
                target == rank - base,
                64 * lo + j <= len ==> seen == zeros(self@, 64 * lo + j) - base,
                seen <= target,
                rank < (if lo + 1 == n {
                    total as int
                } else {
                    zeros(self@, 64 * lo + 64)
                }),
                forall|t: int|
                    0 <= t < 64 ==> #[trigger] bit_of(word, t) == (64 * lo + t < self@.len()
                        && self@[64 * lo + t]),
            decreases 64 - j,
        {
            if 64 * lo + j as usize >= len {
                proof {
                    assert(64 * lo + j == len);
                    assert(lo + 1 == n);
                    assert(false);
                }
                return len;
            }
            let b = (word >> j) & 1u64;
            assert(b == 1u64 || b == 0u64) by (bit_vector)
                requires
                    b == (word >> j) & 1u64,
            ;
            assert(bit_of(word, j as int) == (b == 1u64));
            if b == 0 && seen == target {
                let p = 64 * lo + j as usize;
                proof {
                    assert(is_select0(self@, rank as int, p as int));
                    lemma_select0_unique(self@, rank as int, p as int);
                }
                return p;
            }
            seen = seen + (1 - b) as usize;
            j = j + 1;
        }
        proof {
            assert(64 * lo + 64 <= len);
            if lo + 1 == n {
                assert(64 * lo + 64 == len);
            }
            assert(false);
        }
        len
    }
}

} // verus!
