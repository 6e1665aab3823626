//! A min-max tree over the blocks of a parentheses sequence: for every run of
//! blocks it holds the least and greatest excess reached in it, so that a search
//! for a target excess skips, in logarithmic time, the blocks that cannot hold it.
use vstd::prelude::*;

use crate::bit_vec::BitVec;
use crate::bits::max_len;
use crate::trees::{
    excess_before, excess_max, excess_min, lemma_excess_lipschitz, lemma_excess_min_max_bound,
    lemma_excess_min_max_split, lemma_excess_min_max_sub,
};

verus! {

/// The number of blocks of `bs` bits that cover `len` bits.
pub open spec fn num_blocks(len: int, bs: int) -> int {
    (len + bs - 1) / bs
}

/// The position after the last of the first `hi` blocks.
pub open spec fn blocks_end(s: Seq<bool>, bs: int, hi: int) -> int {
    if hi * bs < s.len() {
        hi * bs
    } else {
        s.len() as int
    }
}

/// The least excess reached just after a position of the blocks `lo..hi`.
pub open spec fn fwd_min_of(s: Seq<bool>, bs: int, lo: int, hi: int) -> int {
    excess_min(s, lo * bs + 1, blocks_end(s, bs, hi))
}

/// The greatest excess reached just after a position of the blocks `lo..hi`.
pub open spec fn fwd_max_of(s: Seq<bool>, bs: int, lo: int, hi: int) -> int {
    excess_max(s, lo * bs + 1, blocks_end(s, bs, hi))
}

/// The least excess reached just before a position of the blocks `lo..hi`.
pub open spec fn bwd_min_of(s: Seq<bool>, bs: int, lo: int, hi: int) -> int {
    excess_min(s, lo * bs, blocks_end(s, bs, hi) - 1)
}

/// The greatest excess reached just before a position of the blocks `lo..hi`.
pub open spec fn bwd_max_of(s: Seq<bool>, bs: int, lo: int, hi: int) -> int {
    excess_max(s, lo * bs, blocks_end(s, bs, hi) - 1)
}

/// The excess `t` is reached just after some position of block `b`.
pub open spec fn fwd_hit(s: Seq<bool>, bs: int, b: int, t: int) -> bool {
    fwd_min_of(s, bs, b, b + 1) <= t <= fwd_max_of(s, bs, b, b + 1)
}

/// The excess `t` is reached just before some position of block `b`.
pub open spec fn bwd_hit(s: Seq<bool>, bs: int, b: int, t: int) -> bool {
    bwd_min_of(s, bs, b, b + 1) <= t <= bwd_max_of(s, bs, b, b + 1)
}

/// The extremes of the excess over a run of blocks.
#[derive(Clone, Copy)]
pub struct ExcessRange {
    pub fwd_min: i64,
    pub fwd_max: i64,
    pub bwd_min: i64,
    pub bwd_max: i64,
}

/// `r` holds the extremes of the blocks `lo..hi`.
pub open spec fn range_ok(r: ExcessRange, s: Seq<bool>, bs: int, lo: int, hi: int) -> bool {
    &&& r.fwd_min == fwd_min_of(s, bs, lo, hi)
    &&& r.fwd_max == fwd_max_of(s, bs, lo, hi)
    &&& r.bwd_min == bwd_min_of(s, bs, lo, hi)
    &&& r.bwd_max == bwd_max_of(s, bs, lo, hi)
}

/// `nodes` holds from index `k` on, in pre-order, a tree over the blocks `lo..hi`:
/// its root at `k`, the tree of the first half at `k + 1`, that of the second half
/// after it.
pub open spec fn tree_ok(nodes: Seq<ExcessRange>, s: Seq<bool>, bs: int, k: int, lo: int, hi: int) -> bool
    decreases hi - lo,
{
    &&& 0 <= k
    &&& lo < hi
    &&& k + 2 * (hi - lo) - 1 <= nodes.len()
    &&& range_ok(nodes[k], s, bs, lo, hi)
    &&& (hi - lo > 1 ==> {
        let mid = lo + (hi - lo) / 2;
        &&& tree_ok(nodes, s, bs, k + 1, lo, mid)
        &&& tree_ok(nodes, s, bs, k + 2 * (mid - lo), mid, hi)
    })
}

/// A block index below the block count starts inside the bits, and conversely.
pub proof fn lemma_block_lt(len: int, bs: int, b: int)
    requires
        0 < bs,
        0 <= b,
        0 <= len,
    ensures
        (b < num_blocks(len, bs)) == (b * bs < len),
{
    let q = (len + bs - 1) / bs;
    let r = (len + bs - 1) % bs;
    vstd::arithmetic::div_mod::lemma_fundamental_div_mod(len + bs - 1, bs);
    assert(0 <= r < bs);
    assert(len + bs - 1 == bs * q + r);
    if b < q {
        assert(b * bs + bs <= q * bs) by (nonlinear_arith)
            requires
                b + 1 <= q,
                0 < bs,
        ;
        assert(b * bs < len) by (nonlinear_arith)
            requires
                b * bs + bs <= q * bs,
                0 <= r,
                len + bs - 1 == bs * q + r,
                r < bs,
        ;
    } else {
        assert(q * bs <= b * bs) by (nonlinear_arith)
            requires
                q <= b,
                0 < bs,
        ;
        assert(b * bs >= len) by (nonlinear_arith)
            requires
                q * bs <= b * bs,
                len + bs - 1 == bs * q + r,
                0 <= r,
                r < bs,
        ;
    }
}

/// The block count is the quotient, rounded up.
pub proof fn lemma_num_blocks_ceil(len: int, bs: int)
    requires
        0 < bs,
        0 <= len,
    ensures
        num_blocks(len, bs) == len / bs + if len % bs == 0 {
            0int
        } else {
            1int
        },
{
    let q = len / bs;
    let r = len % bs;
    vstd::arithmetic::div_mod::lemma_fundamental_div_mod(len, bs);
    let q2 = (len + bs - 1) / bs;
    let r2 = (len + bs - 1) % bs;
    vstd::arithmetic::div_mod::lemma_fundamental_div_mod(len + bs - 1, bs);
    assert(q2 == q + if r == 0 { 0int } else { 1int }) by (nonlinear_arith)
        requires
            len == bs * q + r,
            len + bs - 1 == bs * q2 + r2,
            0 <= r < bs,
            0 <= r2 < bs,
            0 < bs,
    ;
}

/// There are no more blocks than bits.
pub proof fn lemma_num_blocks_le(len: int, bs: int)
    requires
        0 < bs,
        0 <= len,
    ensures
        0 <= num_blocks(len, bs) <= len,
{
    lemma_num_blocks_ceil(len, bs);
    let nb = num_blocks(len, bs);
    if nb > 0 {
        lemma_block_lt(len, bs, nb - 1);
        assert(nb - 1 <= (nb - 1) * bs) by (nonlinear_arith)
            requires
                nb >= 1,
                bs >= 1,
        ;
    }
}

/// Multiplying by the block size keeps the order of block indices, and blocks are
/// `bs` apart.
pub proof fn lemma_block_mono(bs: int, a: int, b: int)
    requires
        0 < bs,
        a <= b,
    ensures
        a * bs <= b * bs,
        a < b ==> a * bs + bs <= b * bs,
        (a + 1) * bs == a * bs + bs,
{
    assert(a * bs <= b * bs) by (nonlinear_arith)
        requires
            0 < bs,
            a <= b,
    ;
    assert(a < b ==> a * bs + bs <= b * bs) by (nonlinear_arith)
        requires
            0 < bs,
    ;
    assert((a + 1) * bs == a * bs + bs) by (nonlinear_arith);
}

/// Position `k` lies in block `k / bs`; the excess just after it and just before
/// it are reached in that block.
pub proof fn lemma_block_of(s: Seq<bool>, bs: int, k: int)
    requires
        0 < bs,
        0 <= k < s.len(),
    ensures
        0 <= k / bs < num_blocks(s.len() as int, bs),
        (k / bs) * bs <= k < (k / bs) * bs + bs,
        k < blocks_end(s, bs, k / bs + 1),
        fwd_hit(s, bs, k / bs, excess_before(s, k + 1)),
        bwd_hit(s, bs, k / bs, excess_before(s, k)),
{
    let c = k / bs;
    vstd::arithmetic::div_mod::lemma_fundamental_div_mod(k, bs);
    assert(c * bs <= k < c * bs + bs) by (nonlinear_arith)
        requires
            k == bs * c + k % bs,
            0 <= k % bs < bs,
    ;
    assert(c >= 0) by (nonlinear_arith)
        requires
            k == bs * c + k % bs,
            0 <= k % bs < bs,
            0 <= k,
            0 < bs,
    ;
    lemma_block_lt(s.len() as int, bs, c);
    lemma_block_mono(bs, c, c + 1);
    lemma_excess_min_max_bound(s, c * bs + 1, blocks_end(s, bs, c + 1), k + 1);
    lemma_excess_min_max_bound(s, c * bs, blocks_end(s, bs, c + 1) - 1, k);
}

/// The range of one block lies inside the range of any run of blocks that holds it.
pub proof fn lemma_block_in_run(s: Seq<bool>, bs: int, lo: int, hi: int, c: int)
    requires
        0 < bs,
        0 <= lo <= c < hi <= num_blocks(s.len() as int, bs),
    ensures
        fwd_min_of(s, bs, lo, hi) <= fwd_min_of(s, bs, c, c + 1),
        fwd_max_of(s, bs, c, c + 1) <= fwd_max_of(s, bs, lo, hi),
        bwd_min_of(s, bs, lo, hi) <= bwd_min_of(s, bs, c, c + 1),
        bwd_max_of(s, bs, c, c + 1) <= bwd_max_of(s, bs, lo, hi),
{
    lemma_block_lt(s.len() as int, bs, c);
    lemma_block_mono(bs, lo, c);
    lemma_block_mono(bs, c + 1, hi);
    lemma_block_mono(bs, c, c + 1);
    lemma_excess_min_max_sub(s, lo * bs + 1, blocks_end(s, bs, hi), c * bs + 1, blocks_end(s, bs, c + 1));
    lemma_excess_min_max_sub(s, lo * bs, blocks_end(s, bs, hi) - 1, c * bs, blocks_end(s, bs, c + 1) - 1);
}

/// The extremes of a run of blocks combine those of its two halves.
pub proof fn lemma_run_split(s: Seq<bool>, bs: int, lo: int, mid: int, hi: int)
    requires
        0 < bs,
        0 <= lo < mid < hi <= num_blocks(s.len() as int, bs),
    ensures
        fwd_min_of(s, bs, lo, hi) == (if fwd_min_of(s, bs, lo, mid) <= fwd_min_of(s, bs, mid, hi) {
            fwd_min_of(s, bs, lo, mid)
        } else {
            fwd_min_of(s, bs, mid, hi)
        }),
        fwd_max_of(s, bs, lo, hi) == (if fwd_max_of(s, bs, lo, mid) >= fwd_max_of(s, bs, mid, hi) {
            fwd_max_of(s, bs, lo, mid)
        } else {
            fwd_max_of(s, bs, mid, hi)
        }),
        bwd_min_of(s, bs, lo, hi) == (if bwd_min_of(s, bs, lo, mid) <= bwd_min_of(s, bs, mid, hi) {
            bwd_min_of(s, bs, lo, mid)
        } else {
            bwd_min_of(s, bs, mid, hi)
        }),
        bwd_max_of(s, bs, lo, hi) == (if bwd_max_of(s, bs, lo, mid) >= bwd_max_of(s, bs, mid, hi) {
            bwd_max_of(s, bs, lo, mid)
        } else {
            bwd_max_of(s, bs, mid, hi)
        }),
{
    lemma_block_lt(s.len() as int, bs, mid);
    lemma_block_mono(bs, lo, mid);
    lemma_block_mono(bs, mid, hi);
    assert(blocks_end(s, bs, mid) == mid * bs);
    lemma_excess_min_max_split(s, lo * bs + 1, mid * bs, blocks_end(s, bs, hi));
    lemma_excess_min_max_split(s, lo * bs, mid * bs - 1, blocks_end(s, bs, hi) - 1);
}

/// A tree over blocks is unaffected by changes outside its stretch of nodes.
pub proof fn lemma_tree_frame(
    n1: Seq<ExcessRange>,
    n2: Seq<ExcessRange>,
    s: Seq<bool>,
    bs: int,
    k: int,
    lo: int,
    hi: int,
)
    requires
        tree_ok(n1, s, bs, k, lo, hi),
        k + 2 * (hi - lo) - 1 <= n2.len(),
        forall|i: int| k <= i < k + 2 * (hi - lo) - 1 ==> n1[i] == n2[i],
    ensures
        tree_ok(n2, s, bs, k, lo, hi),
    decreases hi - lo,
{
    if hi - lo > 1 {
        let mid = lo + (hi - lo) / 2;
        lemma_tree_frame(n1, n2, s, bs, k + 1, lo, mid);
        lemma_tree_frame(n1, n2, s, bs, k + 2 * (mid - lo), mid, hi);
    }
}

/// A min-max tree over the blocks of a parentheses sequence.
pub struct MinMaxTree {
    block_size: usize,
    num_blocks: usize,
    /// The excess before each block, and after the last one.
    boundary: Vec<i64>,
    /// The tree's nodes in pre-order.
    nodes: Vec<ExcessRange>,
    bits: Ghost<Seq<bool>>,
}

impl MinMaxTree {
    /// The parentheses the tree was built over.
    pub closed spec fn bits(&self) -> Seq<bool> {
        self.bits@
    }

    /// The number of bits per block.
    pub closed spec fn block_size(&self) -> int {
        self.block_size as int
    }

    /// The tree holds the extremes of every run of blocks it stands for, and the
    /// excess at each block boundary.
    pub closed spec fn wf(&self) -> bool {
        let s = self.bits@;
        let bs = self.block_size as int;
        &&& 0 < bs
        &&& s.len() <= max_len()
        &&& self.num_blocks == num_blocks(s.len() as int, bs)
        &&& self.boundary@.len() == self.num_blocks + 1
        &&& forall|b: int|
            0 <= b <= self.num_blocks ==> #[trigger] self.boundary@[b] == excess_before(
                s,
                blocks_end(s, bs, b),
            )
        &&& self.nodes@.len() <= 2 * max_len()
        &&& self.num_blocks > 0 ==> tree_ok(self.nodes@, s, bs, 0, 0, self.num_blocks as int)
    }

    /// The extremes of each block, and the excess at each block boundary.
    fn block_ranges(bits: &BitVec, bs: usize) -> (r: (Vec<ExcessRange>, Vec<i64>))
        requires
            bits.wf(),
            0 < bs,
        ensures
            r.0@.len() == num_blocks(bits@.len() as int, bs as int),
            forall|b: int|
                0 <= b < r.0@.len() ==> range_ok(#[trigger] r.0@[b], bits@, bs as int, b, b + 1),
            r.1@.len() == r.0@.len() + 1,
            forall|b: int|
                0 <= b <= r.0@.len() ==> #[trigger] r.1@[b] == excess_before(
                    bits@,
                    blocks_end(bits@, bs as int, b),
                ),
    {
        let ghost s = bits@;
        let len = bits.len();
        proof {
            bits.lemma_len_bound();
        }
        let nb = len / bs + if len % bs == 0 {
            0
        } else {
            1
        };
        proof {
            lemma_num_blocks_ceil(len as int, bs as int);
        }
        let mut ranges: Vec<ExcessRange> = Vec::with_capacity(nb);
        let mut boundary: Vec<i64> = Vec::with_capacity(nb + 1);
        let mut e: i64 = 0;
        let mut b: usize = 0;
        assert(0 * (bs as int) == 0);
        while b < nb
            invariant
                bits.wf(),
                s == bits@,
                len == s.len(),
                len <= max_len(),
                0 < bs,
                nb == num_blocks(len as int, bs as int),
                b <= nb,
                ranges@.len() == b,
                boundary@.len() == b,
                e == excess_before(s, blocks_end(s, bs as int, b as int)),
                forall|c: int| 0 <= c < b ==> range_ok(#[trigger] ranges@[c], s, bs as int, c, c + 1),
                forall|c: int|
                    0 <= c < b ==> #[trigger] boundary@[c] == excess_before(
                        s,
                        blocks_end(s, bs as int, c),
                    ),
            decreases nb - b,
        {
            proof {
                lemma_block_lt(len as int, bs as int, b as int);
                lemma_block_mono(bs as int, b as int, b as int + 1);
            }
            let start = b * bs;
            let end = if len - start > bs {
                start + bs
            } else {
                len
            };
            assert(end == blocks_end(s, bs as int, b + 1));
            assert(blocks_end(s, bs as int, b as int) == start);
            boundary.push(e);
            let mut bwd_min = e;
            let mut bwd_max = e;
            let first = bits.get_unchecked(start);
            proof {
                lemma_excess_lipschitz(s, 0, start + 1);
            }
            if first == 1 {
                e = e + 1;
            } else {
                e = e - 1;
            }
            let mut fwd_min = e;
            let mut fwd_max = e;
            let mut i = start + 1;
            while i < end
                invariant
                    bits.wf(),
                    s == bits@,
                    len == s.len(),
                    len <= max_len(),
                    start < i <= end <= len,
                    e == excess_before(s, i as int),
                    fwd_min == excess_min(s, start + 1, i as int),
                    fwd_max == excess_max(s, start + 1, i as int),
                    bwd_min == excess_min(s, start as int, i - 1),
                    bwd_max == excess_max(s, start as int, i - 1),
                decreases end - i,
            {
                if e < bwd_min {
                    bwd_min = e;
                }
                if e > bwd_max {
                    bwd_max = e;
                }
                let bit = bits.get_unchecked(i);
                proof {
                    lemma_excess_lipschitz(s, 0, i + 1);
                }
                if bit == 1 {
                    e = e + 1;
                } else {
                    e = e - 1;
                }
                if e < fwd_min {
                    fwd_min = e;
                }
                if e > fwd_max {
                    fwd_max = e;
                }
                i = i + 1;
            }
            ranges.push(ExcessRange { fwd_min, fwd_max, bwd_min, bwd_max });
            b = b + 1;
        }
        boundary.push(e);
        (ranges, boundary)
    }

    /// Append, in pre-order, the tree over the blocks `lo..hi` built from the
    /// extremes of each block.
    fn build(
        leaves: &Vec<ExcessRange>,
        lo: usize,
        hi: usize,
        nodes: &mut Vec<ExcessRange>,
        Ghost(s): Ghost<Seq<bool>>,
        Ghost(bs): Ghost<int>,
    )
        requires
            0 < bs,
            lo < hi <= leaves@.len(),
            leaves@.len() == num_blocks(s.len() as int, bs),
            forall|b: int| 0 <= b < leaves@.len() ==> range_ok(#[trigger] leaves@[b], s, bs, b, b + 1),
            old(nodes)@.len() + 2 * (hi - lo) <= leaves@.len() * 2,
            leaves@.len() <= max_len(),
        ensures
            final(nodes)@.len() == old(nodes)@.len() + 2 * (hi - lo) - 1,
            forall|i: int| 0 <= i < old(nodes)@.len() ==> final(nodes)@[i] == old(nodes)@[i],
            tree_ok(final(nodes)@, s, bs, old(nodes)@.len() as int, lo as int, hi as int),
        decreases hi - lo,
    {
        let k = nodes.len();
        if hi - lo == 1 {
            nodes.push(leaves[lo]);
            return ;
        }
        let mid = lo + (hi - lo) / 2;
        nodes.push(leaves[lo]);
        Self::build(leaves, lo, mid, nodes, Ghost(s), Ghost(bs));
        let ghost after_left = nodes@;
        Self::build(leaves, mid, hi, nodes, Ghost(s), Ghost(bs));
        let left = nodes[k + 1];
        let right = nodes[k + 2 * (mid - lo)];
        proof {
            lemma_tree_frame(after_left, nodes@, s, bs, k + 1, lo as int, mid as int);
        }
        let node = ExcessRange {
            fwd_min: if left.fwd_min <= right.fwd_min {
                left.fwd_min
            } else {
                right.fwd_min
            },
            fwd_max: if left.fwd_max >= right.fwd_max {
                left.fwd_max
            } else {
                right.fwd_max
            },
            bwd_min: if left.bwd_min <= right.bwd_min {
                left.bwd_min
            } else {
                right.bwd_min
            },
            bwd_max: if left.bwd_max >= right.bwd_max {
                left.bwd_max
            } else {
                right.bwd_max
            },
        };
        let ghost before_set = nodes@;
        nodes.set(k, node);
        proof {
            lemma_run_split(s, bs, lo as int, mid as int, hi as int);
            lemma_tree_frame(before_set, nodes@, s, bs, k + 1, lo as int, mid as int);
            lemma_tree_frame(before_set, nodes@, s, bs, k + 2 * (mid - lo), mid as int, hi as int);
        }
    }

    /// Build the min-max tree over `bits` in blocks of `block_size` bits.
    pub fn excess_tree(bits: &BitVec, block_size: usize) -> (r: MinMaxTree)
        requires
            bits.wf(),
            0 < block_size,
        ensures
            r.wf(),
            r.bits() == bits@,
            r.block_size() == block_size,
    {
        let (leaves, boundary) = Self::block_ranges(bits, block_size);
        let nb = leaves.len();
        proof {
            bits.lemma_len_bound();
            lemma_num_blocks_le(bits@.len() as int, block_size as int);
        }
        let mut nodes: Vec<ExcessRange> = Vec::with_capacity(2 * nb);
        if nb > 0 {
            Self::build(&leaves, 0, nb, &mut nodes, Ghost(bits@), Ghost(block_size as int));
        }
        MinMaxTree { block_size, num_blocks: nb, boundary, nodes, bits: Ghost(bits@) }
    }

    /// The first block of `lo..hi`, not before `from`, in which the excess `t` is
    /// reached just after some position.
    fn search_fwd(&self, k: usize, lo: usize, hi: usize, from: usize, t: i64) -> (r: Option<usize>)
        requires
            self.wf(),
            tree_ok(self.nodes@, self.bits@, self.block_size as int, k as int, lo as int, hi as int),
            hi <= self.num_blocks,
        ensures
            match r {
                Some(b) => lo <= b < hi && from <= b && fwd_hit(
                    self.bits@,
                    self.block_size as int,
                    b as int,
                    t as int,
                ) && forall|c: int|
                    lo <= c < b && from <= c ==> !#[trigger] fwd_hit(
                        self.bits@,
                        self.block_size as int,
                        c,
                        t as int,
                    ),
                None => forall|c: int|
                    lo <= c < hi && from <= c ==> !#[trigger] fwd_hit(
                        self.bits@,
                        self.block_size as int,
                        c,
                        t as int,
                    ),
            },
        decreases hi - lo,
    {
        let ghost s = self.bits@;
        let ghost bs = self.block_size as int;
        if hi <= from {
            return None;
        }
        let node = self.nodes[k];
        if t < node.fwd_min || t > node.fwd_max {
            proof {
                assert forall|c: int| lo <= c < hi && from <= c implies !#[trigger] fwd_hit(
                    s,
                    bs,
                    c,
                    t as int,
                ) by {
                    lemma_block_in_run(s, bs, lo as int, hi as int, c);
                }
            }
            return None;
        }
        if hi - lo == 1 {
            return Some(lo);
        }
        let mid = lo + (hi - lo) / 2;
        match self.search_fwd(k + 1, lo, mid, from, t) {
            Some(b) => Some(b),
            None => self.search_fwd(k + 2 * (mid - lo), mid, hi, from, t),
        }
    }

    /// The last block of `lo..hi`, before `until`, in which the excess `t` is
    /// reached just before some position.
    fn search_bwd(&self, k: usize, lo: usize, hi: usize, until: usize, t: i64) -> (r: Option<usize>)
        requires
            self.wf(),
            tree_ok(self.nodes@, self.bits@, self.block_size as int, k as int, lo as int, hi as int),
            hi <= self.num_blocks,
        ensures
            match r {
                Some(b) => lo <= b < hi && b < until && bwd_hit(
                    self.bits@,
                    self.block_size as int,
                    b as int,
                    t as int,
                ) && forall|c: int|
                    b < c < hi && c < until ==> !#[trigger] bwd_hit(
                        self.bits@,
                        self.block_size as int,
                        c,
                        t as int,
                    ),
                None => forall|c: int|
                    lo <= c < hi && c < until ==> !#[trigger] bwd_hit(
                        self.bits@,
                        self.block_size as int,
                        c,
                        t as int,
                    ),
            },
        decreases hi - lo,
    {
        let ghost s = self.bits@;
        let ghost bs = self.block_size as int;
        if until <= lo {
            return None;
        }
        let node = self.nodes[k];
        if t < node.bwd_min || t > node.bwd_max {
            proof {
                assert forall|c: int| lo <= c < hi && c < until implies !#[trigger] bwd_hit(
                    s,
                    bs,
                    c,
                    t as int,
                ) by {
                    lemma_block_in_run(s, bs, lo as int, hi as int, c);
                }
            }
            return None;
        }
        if hi - lo == 1 {
            return Some(lo);
        }
        let mid = lo + (hi - lo) / 2;
        match self.search_bwd(k + 2 * (mid - lo), mid, hi, until, t) {
            Some(b) => Some(b),
            None => self.search_bwd(k + 1, lo, mid, until, t),
        }
    }

    /// The number of blocks.
    pub fn num_blocks(&self) -> (r: usize)
        requires
            self.wf(),
        ensures
            r == num_blocks(self.bits().len() as int, self.block_size()),
    {
        self.num_blocks
    }

    /// Find the first block after `block_index` that reaches the excess that
    /// remains to go, `relative_excess`, from the end of block `block_index`.
    /// Returns that block and the excess that remains from its start.
    pub fn fwd_search(&self, block_index: usize, relative_excess: i64) -> (r: Option<(usize, i64)>)
        requires
            self.wf(),
            block_index < num_blocks(self.bits().len() as int, self.block_size()),
            -2 * max_len() <= relative_excess <= 2 * max_len(),
            -2 * max_len() <= excess_before(
                self.bits(),
                blocks_end(self.bits(), self.block_size(), block_index + 1),
            ) + relative_excess <= 2 * max_len(),
        ensures
            ({
                let s = self.bits();
                let bs = self.block_size();
                let t = excess_before(s, blocks_end(s, bs, block_index + 1)) + relative_excess;
                match r {
                    Some((b, rel)) => block_index < b < num_blocks(s.len() as int, bs) && fwd_hit(
                        s,
                        bs,
                        b as int,
                        t,
                    ) && rel == t - excess_before(s, b * bs) && forall|c: int|
                        block_index < c < b ==> !#[trigger] fwd_hit(s, bs, c, t),
                    None => forall|c: int|
                        block_index < c < num_blocks(s.len() as int, bs) ==> !#[trigger] fwd_hit(
                            s,
                            bs,
                            c,
                            t,
                        ),
                }
            }),
    {
        let ghost s = self.bits@;
        let ghost bs = self.block_size as int;
        if block_index + 1 >= self.num_blocks {
            return None;
        }
        let t = self.boundary[block_index + 1] + relative_excess;
        match self.search_fwd(0, 0, self.num_blocks, block_index + 1, t) {
            Some(b) => {
                proof {
                    lemma_block_lt(s.len() as int, bs, b as int);
                    lemma_block_mono(bs, b as int, b as int + 1);
                    assert(blocks_end(s, bs, b as int) == b * bs);
                    lemma_excess_lipschitz(s, 0, b * bs);
                    let w = crate::trees::lemma_excess_between(
                        s,
                        b * bs + 1,
                        blocks_end(s, bs, b + 1),
                        t as int,
                    );
                    lemma_excess_lipschitz(s, 0, w);
                }
                Some((b, t - self.boundary[b]))
            },
            None => None,
        }
    }

    /// Find the last block before `block_index` that reaches the excess that
    /// remains to go, `relative_excess`, from the start of block `block_index`
    /// backwards. Returns that block and the excess that remains from its end.
    pub fn bwd_search(&self, block_index: usize, relative_excess: i64) -> (r: Option<(usize, i64)>)
        requires
            self.wf(),
            block_index < num_blocks(self.bits().len() as int, self.block_size()),
            -2 * max_len() <= relative_excess <= 2 * max_len(),
            -2 * max_len() <= excess_before(self.bits(), block_index * self.block_size())
                + relative_excess <= 2 * max_len(),
        ensures
            ({
                let s = self.bits();
                let bs = self.block_size();
                let t = excess_before(s, block_index * bs) + relative_excess;
                match r {
                    Some((b, rel)) => b < block_index && bwd_hit(s, bs, b as int, t) && rel == t
                        - excess_before(s, (b + 1) * bs) && forall|c: int|
                        b < c < block_index ==> !#[trigger] bwd_hit(s, bs, c, t),
                    None => forall|c: int|
                        0 <= c < block_index ==> !#[trigger] bwd_hit(s, bs, c, t),
                }
            }),
    {
        let ghost s = self.bits@;
        let ghost bs = self.block_size as int;
        proof {
            lemma_block_lt(s.len() as int, bs, block_index as int);
            assert(blocks_end(s, bs, block_index as int) == block_index * bs);
        }
        if block_index == 0 {
            return None;
        }
        let t = self.boundary[block_index] + relative_excess;
        match self.search_bwd(0, 0, self.num_blocks, block_index, t) {
            Some(b) => {
                proof {
                    lemma_block_lt(s.len() as int, bs, b as int + 1);
                    lemma_block_mono(bs, b as int, b as int + 1);
                    assert(blocks_end(s, bs, b + 1) == (b + 1) * bs);
                    lemma_excess_lipschitz(s, 0, (b + 1) * bs);
                    let w = crate::trees::lemma_excess_between(
                        s,
                        b * bs,
                        blocks_end(s, bs, b + 1) - 1,
                        t as int,
                    );
                    lemma_excess_lipschitz(s, 0, w);
                }
                Some((b, t - self.boundary[b + 1]))
            },
            None => None,
        }
    }
}

} // verus!
