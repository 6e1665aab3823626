//! A succinct tree data structure backed by the balanced parentheses representation.
use vstd::prelude::*;

use crate::bit_vec::BitVec;
use crate::bits::{bit_of, lemma_bits_equal, max_len};
use crate::rs_vec::{lemma_ones_step, ones, select1_spec, RsVec};
use crate::trees::mmt::{blocks_end, lemma_block_lt, lemma_block_mono, lemma_block_of, MinMaxTree};
use crate::trees::{excess_before, lemma_excess_lipschitz, lemma_excess_ones, step};

pub mod builder;
pub mod laws;
pub mod lookup_query;

// re-export the builder at the level of the tree
pub use builder::BpDfsBuilder;

use lookup_query::{
    byte_excess, lemma_byte_excess, process_block_bwd, process_block_fwd, LOOKUP_BLOCK_SIZE,
};

verus! {

/// The value of an opening parenthesis.
pub const OPEN_PAREN: u64 = 1;

/// The value of a closing parenthesis.
pub const CLOSE_PAREN: u64 = 0;

/// A block size the tree supports: a positive multiple of the byte searches' width,
/// no larger than the longest bit vector.
pub open spec fn valid_block_size(bs: int) -> bool {
    &&& 0 < bs
    &&& bs % (LOOKUP_BLOCK_SIZE as int) == 0
    &&& bs <= max_len()
}

/// `j` is a position after `index` where the excess, up to and including it,
/// exceeds that up to and including `index` by `rel`.
pub open spec fn fwd_match(s: Seq<bool>, index: int, rel: int, j: int) -> bool {
    &&& index < j < s.len()
    &&& excess_before(s, j + 1) - excess_before(s, index + 1) == rel
}

/// `i` is a position before `index` where the excess before it exceeds the excess
/// before `index` by `rel`, `index` being a position of `s`.
pub open spec fn bwd_match(s: Seq<bool>, index: int, rel: int, i: int) -> bool {
    &&& 0 <= i < index < s.len()
    &&& excess_before(s, i) - excess_before(s, index) == rel
}

/// The relative excess that leads `level` levels up: `-level`, wrapping as a
/// signed 64-bit number does.
pub open spec fn level_rel(level: u64) -> i64 {
    let l = level as i64;
    if l == i64::MIN {
        l
    } else {
        (-l) as i64
    }
}

/// The excess, relative to position `index`, of the opening parenthesis that
/// encloses it: one less for an opening parenthesis, two less for a closing one.
pub open spec fn enclose_excess(s: Seq<bool>, index: int) -> int {
    if s[index] {
        -1
    } else {
        -2
    }
}

/// `r` is the first position after `index` that `fwd_match`es, or `None` if there
/// is none.
pub open spec fn is_fwd_search(s: Seq<bool>, index: int, rel: int, r: Option<usize>) -> bool {
    match r {
        Some(j) => fwd_match(s, index, rel, j as int) && forall|k: int|
            index < k < j ==> !#[trigger] fwd_match(s, index, rel, k),
        None => forall|k: int| !#[trigger] fwd_match(s, index, rel, k),
    }
}

/// `r` is the last position before `index` that `bwd_match`es, or `None` if there
/// is none.
pub open spec fn is_bwd_search(s: Seq<bool>, index: int, rel: int, r: Option<usize>) -> bool {
    match r {
        Some(i) => bwd_match(s, index, rel, i as int) && forall|k: int|
            i < k < index ==> !#[trigger] bwd_match(s, index, rel, k),
        None => forall|k: int| !#[trigger] bwd_match(s, index, rel, k),
    }
}

/// The bits of a chunk read from `pos` fit a byte, whose bits are those of `s`.
proof fn lemma_chunk_byte(s: Seq<bool>, pos: int, chunk: u64)
    requires
        forall|j: int| 0 <= j < 64 ==> bit_of(chunk, j) == (j < 8 && s[pos + j]),
    ensures
        chunk < 256,
        forall|t: int| 0 <= t < 8 ==> #[trigger] bit_of((chunk as u8) as u64, t) == s[pos + t],
{
    let low = chunk & 255u64;
    assert forall|j: int| 0 <= j < 64 implies bit_of(chunk, j) == bit_of(low, j) by {
        let jj = j as u64;
        assert(((chunk & 255u64) >> jj) & 1u64 == 1u64 <==> (jj < 8 && (chunk >> jj) & 1u64 == 1u64))
            by (bit_vector)
            requires
                jj < 64,
        ;
    }
    lemma_bits_equal(chunk, low);
    assert(low < 256) by (bit_vector)
        requires
            low == chunk & 255u64,
    ;
}

/// A succinct tree data structure based on balanced parenthesis expressions.
/// A tree with `n` nodes is encoded in a bit vector using `2n` bits plus the rank/select overhead
/// of the [`RsVec`] implementation.
/// Additionally, a small pointerless min-max tree stores
/// additional meta information required to perform most tree operations.
///
/// The tree is thus pointer-less and succinct.
/// It supports tree navigation operations between parent, child, and sibling nodes, both in
/// depth-first search order and in level order.
/// The searches run in `O(log n)` block steps with small overheads.
///
/// ## Byte searches
/// Inside a block, the tree searches whole bytes of parentheses at a time where it can
/// (see [`lookup_query`]), and single parentheses at the block's ragged ends.
///
/// ## Block Size
/// The block size is the `BLOCK_SIZE` generic parameter, a positive multiple of 8;
/// 512 bits is a good default.
/// The block size should be chosen based on the expected size of the tree and the available memory.
/// Smaller block sizes increase the size of the supporting data structure but reduce the time
/// complexity of some operations by a constant amount.
///
/// ## Unbalanced Parentheses
/// The tree is implemented in a way to support unbalanced parenthesis expressions
/// (which encode invalid trees) without panicking.
/// The contract of every operation says what it returns for them too, in terms of the
/// excess of the parentheses; only the tree reading of those results needs balance.
/// The searches and `close`, `open`, `enclose`, `excess` and the level operations
/// take any position, empty trees included; the operations on a node take a node
/// handle, the position of an opening parenthesis.
///
/// [`RsVec`]: RsVec
pub struct BpTree<const BLOCK_SIZE: usize> {
    vec: RsVec,
    min_max_tree: MinMaxTree,
}

impl<const BLOCK_SIZE: usize> View for BpTree<BLOCK_SIZE> {
    type V = Seq<bool>;

    /// The parentheses: a set bit opens, a clear bit closes.
    closed spec fn view(&self) -> Seq<bool> {
        self.vec@
    }
}

impl<const BLOCK_SIZE: usize> BpTree<BLOCK_SIZE> {
    /// The min-max tree is built over the tree's own bits.
    pub closed spec fn wf(&self) -> bool {
        &&& valid_block_size(BLOCK_SIZE as int)
        &&& self.vec.wf()
        &&& self.min_max_tree.wf()
        &&& self.min_max_tree.bits() == self.vec@
        &&& self.min_max_tree.block_size() == BLOCK_SIZE as int
    }

    /// A well-formed tree holds no more than `max_len()` parentheses.
    pub proof fn lemma_len_bound(&self)
        requires
            self.wf(),
        ensures
            self@.len() <= max_len(),
    {
        self.vec.lemma_len_bound();
    }

    /// Construct a new `BpTree` from a given bit vector.
    pub fn from_bit_vector(bv: BitVec) -> (r: Self)
        requires
            bv.wf(),
            valid_block_size(BLOCK_SIZE as int),
        ensures
            r.wf(),
            r@ == bv@,
    {
        let min_max_tree = MinMaxTree::excess_tree(&bv, BLOCK_SIZE);
        let vec = RsVec::from_bit_vec(bv);
        Self { vec, min_max_tree }
    }

    /// Search the block `block_index` forward from just after `start_index` for a
    /// position where the excess relative to `start_index` is `relative_excess`.
    /// On failure `relative_excess` holds what remains at the end of the block.
    fn fwd_search_block(&self, start_index: usize, block_index: usize, relative_excess: &mut i64) -> (r:
        Result<usize, ()>)
        requires
            self.wf(),
            block_index * BLOCK_SIZE <= start_index + 1 < block_index * BLOCK_SIZE + BLOCK_SIZE,
            start_index + 1 < self@.len(),
            i64::MIN + BLOCK_SIZE <= *old(relative_excess) <= i64::MAX - BLOCK_SIZE,
        ensures
            ({
                let s = self@;
                let e = blocks_end(s, BLOCK_SIZE as int, block_index + 1);
                let r0 = *old(relative_excess) as int;
                match r {
                    Ok(i) => start_index < i < e && fwd_match(s, start_index as int, r0, i as int)
                        && forall|k: int|
                        start_index < k < i ==> !#[trigger] fwd_match(s, start_index as int, r0, k),
                    Err(()) => (forall|k: int|
                        start_index < k < e ==> !#[trigger] fwd_match(s, start_index as int, r0, k))
                        && *final(relative_excess) == r0 - (excess_before(s, e) - excess_before(
                        s,
                        start_index + 1,
                    )),
                }
            }),
    {
        let ghost s = self@;
        let ghost bs = BLOCK_SIZE as int;
        let ghost r0 = *relative_excess as int;
        let ghost p0 = excess_before(s, start_index + 1);
        let len = self.vec.len();
        proof {
            self.vec.lemma_len_bound();
            lemma_block_mono(bs, block_index as int, block_index + 1);
            assert((block_index + 1) * bs <= 2 * max_len());
            assert((block_index + 1) * BLOCK_SIZE <= usize::MAX);
        }
        let base = block_index * BLOCK_SIZE;
        let end_pos = base + BLOCK_SIZE;
        let block_boundary = if end_pos < len {
            end_pos
        } else {
            len
        };
        assert(block_boundary == blocks_end(s, bs, block_index + 1));
        // the boundary at which we can start with byte searches
        let lookup_start = (start_index + LOOKUP_BLOCK_SIZE as usize) / LOOKUP_BLOCK_SIZE as usize
            * LOOKUP_BLOCK_SIZE as usize;
        let lookup_boundary = if lookup_start < block_boundary {
            lookup_start
        } else {
            block_boundary
        };
        let mut i = start_index + 1;
        while i < lookup_boundary
            invariant
                self.wf(),
                s == self@,
                bs == BLOCK_SIZE as int,
                len == s.len(),
                len <= max_len(),
                start_index + 1 <= i <= lookup_boundary <= block_boundary <= len,
                block_boundary == blocks_end(s, bs, block_index + 1),
                i64::MIN + bs <= r0 <= i64::MAX - bs,
                block_boundary <= start_index + 1 + bs,
                r0 == *old(relative_excess),
                p0 == excess_before(s, start_index + 1),
                *relative_excess == r0 - (excess_before(s, i as int) - p0),
                forall|k: int| start_index < k < i ==> !#[trigger] fwd_match(s, start_index as int, r0, k),
            decreases lookup_boundary - i,
        {
            let bit = self.vec.get_unchecked(i);
            proof {
                lemma_excess_lipschitz(s, start_index + 1, i as int);
                assert(excess_before(s, i + 1) == excess_before(s, i as int) + step(s, i as int));
            }
            if bit == 1 {
                *relative_excess = *relative_excess - 1;
            } else {
                *relative_excess = *relative_excess + 1;
            }
            if *relative_excess == 0 {
                assert(fwd_match(s, start_index as int, r0, i as int));
                assert(i < blocks_end(s, bs, block_index + 1));
                return Ok(i);
            }
            i = i + 1;
        }
        // the boundary up to which we can use byte searches
        let lower_lookup_end = block_boundary / LOOKUP_BLOCK_SIZE as usize
            * LOOKUP_BLOCK_SIZE as usize;
        let upper_lookup_boundary = if lookup_boundary < lower_lookup_end {
            lower_lookup_end
        } else {
            lookup_boundary
        };
        let mut i = lookup_boundary;
        while i < upper_lookup_boundary
            invariant
                self.wf(),
                s == self@,
                bs == BLOCK_SIZE as int,
                len == s.len(),
                len <= max_len(),
                start_index + 1 <= lookup_boundary <= i <= upper_lookup_boundary <= block_boundary
                    <= len,
                block_boundary == blocks_end(s, bs, block_index + 1),
                (upper_lookup_boundary - i) % 8 == 0,
                i64::MIN + bs <= r0 <= i64::MAX - bs,
                block_boundary <= start_index + 1 + bs,
                r0 == *old(relative_excess),
                p0 == excess_before(s, start_index + 1),
                *relative_excess == r0 - (excess_before(s, i as int) - p0),
                forall|k: int| start_index < k < i ==> !#[trigger] fwd_match(s, start_index as int, r0, k),
            decreases upper_lookup_boundary - i,
        {
            let chunk = self.vec.get_bits_unchecked(i, LOOKUP_BLOCK_SIZE as usize);
            proof {
                lemma_chunk_byte(s, i as int, chunk);
                lemma_excess_lipschitz(s, start_index + 1, i as int);
            }
            let block = chunk as u8;
            let ghost before = *relative_excess;
            proof {
                assert forall|m: int| 0 <= m <= 8 implies #[trigger] byte_excess(block, m) == excess_before(s, i + m) - excess_before(s, i as int) by {
                    lemma_byte_excess(s, i as int, block, m);
                }
            }
            match process_block_fwd(block, relative_excess) {
                Ok(idx) => {
                    proof {
                        assert forall|k: int| start_index < k < i + idx implies !#[trigger] fwd_match(
                            s,
                            start_index as int,
                            r0,
                            k,
                        ) by {
                            if k >= i {
                                assert(before != byte_excess(block, k - i + 1));
                            }
                        }
                    }
                    assert(i + idx < blocks_end(s, bs, block_index + 1));
                    return Ok(i + idx as usize);
                },
                Err(()) => {
                    proof {
                        assert forall|k: int| start_index < k < i + 8 implies !#[trigger] fwd_match(
                            s,
                            start_index as int,
                            r0,
                            k,
                        ) by {
                            if k >= i {
                                assert(before != byte_excess(block, k - i + 1));
                            }
                        }
                    }
                },
            }
            i = i + LOOKUP_BLOCK_SIZE as usize;
        }
        // if the upper_lookup_boundary isn't the block_boundary (which happens in non-full
        // blocks, i.e. the last block in the vector)
        let mut i = upper_lookup_boundary;
        while i < block_boundary
            invariant
                self.wf(),
                s == self@,
                bs == BLOCK_SIZE as int,
                len == s.len(),
                len <= max_len(),
                start_index + 1 <= i <= block_boundary <= len,
                block_boundary == blocks_end(s, bs, block_index + 1),
                i64::MIN + bs <= r0 <= i64::MAX - bs,
                block_boundary <= start_index + 1 + bs,
                r0 == *old(relative_excess),
                p0 == excess_before(s, start_index + 1),
                *relative_excess == r0 - (excess_before(s, i as int) - p0),
                forall|k: int| start_index < k < i ==> !#[trigger] fwd_match(s, start_index as int, r0, k),
            decreases block_boundary - i,
        {
            let bit = self.vec.get_unchecked(i);
            proof {
                lemma_excess_lipschitz(s, start_index + 1, i as int);
                assert(excess_before(s, i + 1) == excess_before(s, i as int) + step(s, i as int));
            }
            if bit == 1 {
                *relative_excess = *relative_excess - 1;
            } else {
                *relative_excess = *relative_excess + 1;
            }
            if *relative_excess == 0 {
                assert(i < blocks_end(s, bs, block_index + 1));
                return Ok(i);
            }
            i = i + 1;
        }
        Err(())
    }

    /// Search the block `block_index` backward from just before `start_index` for a
    /// position where the excess before it, relative to the excess before
    /// `start_index`, is `relative_excess`. On failure `relative_excess` holds what
    /// remains at the start of the block.
    fn bwd_search_block(&self, start_index: usize, block_index: usize, relative_excess: &mut i64) -> (r:
        Result<usize, ()>)
        requires
            self.wf(),
            block_index * BLOCK_SIZE < start_index <= block_index * BLOCK_SIZE + BLOCK_SIZE,
            start_index <= self@.len(),
            i64::MIN + BLOCK_SIZE <= *old(relative_excess) <= i64::MAX - BLOCK_SIZE,
        ensures
            ({
                let s = self@;
                let b0 = block_index * BLOCK_SIZE;
                let r0 = *old(relative_excess) as int;
                let p = excess_before(s, start_index as int);
                match r {
                    Ok(i) => b0 <= i < start_index && excess_before(s, i as int) - p == r0
                        && forall|k: int|
                        i < k < start_index ==> #[trigger] excess_before(s, k) - p != r0,
                    Err(()) => (forall|k: int|
                        b0 <= k < start_index ==> #[trigger] excess_before(s, k) - p != r0)
                        && *final(relative_excess) == r0 + (p - excess_before(s, b0)),
                }
            }),
    {
        let ghost s = self@;
        let ghost bs = BLOCK_SIZE as int;
        let ghost r0 = *relative_excess as int;
        let ghost p = excess_before(s, start_index as int);
        proof {
            self.vec.lemma_len_bound();
            lemma_block_mono(bs, block_index as int, block_index + 1);
            lemma_multiple_of_byte(block_index as int, bs);
        }
        let block_boundary = block_index * BLOCK_SIZE;
        // the boundary at which we can start with byte searches
        let lookup_start = (start_index - 1) / LOOKUP_BLOCK_SIZE as usize
            * LOOKUP_BLOCK_SIZE as usize;
        let lookup_boundary = if lookup_start > block_boundary {
            lookup_start
        } else {
            block_boundary
        };
        let mut i = start_index;
        while i > lookup_boundary
            invariant
                self.wf(),
                s == self@,
                bs == BLOCK_SIZE as int,
                block_boundary == block_index * bs,
                block_boundary <= lookup_boundary <= i <= start_index <= s.len(),
                s.len() <= max_len(),
                i64::MIN + bs <= r0 <= i64::MAX - bs,
                start_index <= block_boundary + bs,
                r0 == *old(relative_excess),
                p == excess_before(s, start_index as int),
                *relative_excess == r0 + (p - excess_before(s, i as int)),
                forall|k: int| i <= k < start_index ==> #[trigger] excess_before(s, k) - p != r0,
            decreases i,
        {
            i = i - 1;
            let bit = self.vec.get_unchecked(i);
            proof {
                lemma_excess_lipschitz(s, i + 1, start_index as int);
                assert(excess_before(s, i + 1) == excess_before(s, i as int) + step(s, i as int));
            }
            if bit == 1 {
                *relative_excess = *relative_excess + 1;
            } else {
                *relative_excess = *relative_excess - 1;
            }
            if *relative_excess == 0 {
                return Ok(i);
            }
        }
        let mut i = lookup_boundary;
        while i > block_boundary
            invariant
                self.wf(),
                s == self@,
                bs == BLOCK_SIZE as int,
                block_boundary == block_index * bs,
                block_boundary <= i <= lookup_boundary <= start_index <= s.len(),
                (i - block_boundary) % 8 == 0,
                s.len() <= max_len(),
                i64::MIN + bs <= r0 <= i64::MAX - bs,
                start_index <= block_boundary + bs,
                r0 == *old(relative_excess),
                p == excess_before(s, start_index as int),
                *relative_excess == r0 + (p - excess_before(s, i as int)),
                forall|k: int| i <= k < start_index ==> #[trigger] excess_before(s, k) - p != r0,
            decreases i,
        {
            i = i - LOOKUP_BLOCK_SIZE as usize;
            let chunk = self.vec.get_bits_unchecked(i, LOOKUP_BLOCK_SIZE as usize);
            proof {
                lemma_chunk_byte(s, i as int, chunk);
                lemma_excess_lipschitz(s, i + 8, start_index as int);
            }
            let block = chunk as u8;
            let ghost before = *relative_excess;
            proof {
                assert forall|m: int| 0 <= m <= 8 implies #[trigger] byte_excess(block, m)
                    == excess_before(s, i + m) - excess_before(s, i as int) by {
                    lemma_byte_excess(s, i as int, block, m);
                }
            }
            match process_block_bwd(block, relative_excess) {
                Ok(idx) => {
                    proof {
                        assert forall|k: int| i + idx < k < start_index implies #[trigger] excess_before(
                            s,
                            k,
                        ) - p != r0 by {
                            if k < i + 8 {
                                assert(before + byte_excess(block, 8) - byte_excess(block, k - i)
                                    != 0);
                            }
                        }
                    }
                    return Ok(i + idx as usize);
                },
                Err(()) => {
                    proof {
                        assert forall|k: int| i <= k < start_index implies #[trigger] excess_before(
                            s,
                            k,
                        ) - p != r0 by {
                            if k < i + 8 {
                                assert(before + byte_excess(block, 8) - byte_excess(block, k - i)
                                    != 0);
                            }
                        }
                    }
                },
            }
        }
        Err(())
    }

    /// Search for a position where the excess relative to the starting `index` is
    /// `relative_excess`. Returns `None` if no such position exists.
    /// The initial position is never considered in the search.
    /// Searches forward in the bit vector.
    ///
    /// # Arguments
    /// - `index`: The starting index.
    /// - `relative_excess`: The desired relative excess value.
    pub fn fwd_search(&self, index: usize, relative_excess: i64) -> (r: Option<usize>)
        requires
            self.wf(),
        ensures
            is_fwd_search(self@, index as int, relative_excess as int, r),
    {
        let ghost s = self@;
        let ghost bs = BLOCK_SIZE as int;
        let ghost r0 = relative_excess as int;
        let len = self.vec.len();
        proof {
            self.vec.lemma_len_bound();
        }
        // an empty tree has no position to find
        if len == 0 {
            return None;
        }
        // check for greater than or equal length minus one, because the last element
        // won't ever have a result from fwd_search
        if index >= len - 1 {
            return None;
        }
        // no position is further than the length away in excess
        if relative_excess > len as i64 || relative_excess < -(len as i64) {
            proof {
                assert forall|k: int| !#[trigger] fwd_match(s, index as int, r0, k) by {
                    if index < k < len {
                        lemma_excess_lipschitz(s, index + 1, k + 1);
                    }
                }
            }
            return None;
        }
        let mut rel = relative_excess;
        let block_index = (index + 1) / BLOCK_SIZE;
        proof {
            lemma_block_of(s, bs, index + 1);
            lemma_excess_lipschitz(s, 0, index + 1);
        }
        match self.fwd_search_block(index, block_index, &mut rel) {
            Ok(i) => Some(i),
            Err(()) => {
                let ghost e = blocks_end(s, bs, block_index + 1);
                let ghost t = excess_before(s, index + 1) + r0;
                proof {
                    lemma_excess_lipschitz(s, index + 1, e);
                    lemma_excess_lipschitz(s, 0, e);
                }
                // find the block that contains the desired relative excess
                match self.min_max_tree.fwd_search(block_index, rel) {
                    Some((block, rel2)) => {
                        let mut rel2 = rel2;
                        let ghost rb = rel2 as int;
                        proof {
                            lemma_block_lt(s.len() as int, bs, block as int);
                            lemma_block_mono(bs, 1, block as int);
                            lemma_block_mono(bs, block as int, block as int + 1);
                            lemma_block_mono(bs, block_index + 1, block as int);
                            let w = crate::trees::lemma_excess_between(
                                s,
                                block * bs + 1,
                                blocks_end(s, bs, block + 1),
                                t,
                            );
                            lemma_excess_lipschitz(s, 0, w);
                            lemma_excess_lipschitz(s, 0, block * bs);
                        }
                        // check the result block for the exact position
                        match self.fwd_search_block(block * BLOCK_SIZE - 1, block, &mut rel2) {
                            Ok(j) => {
                                proof {
                                    assert forall|k: int| index < k < j implies !#[trigger] fwd_match(
                                        s,
                                        index as int,
                                        r0,
                                        k,
                                    ) by {
                                        if e <= k < block * bs {
                                            lemma_block_of(s, bs, k);
                                            let c = k / bs;
                                            if c <= block_index {
                                                lemma_block_mono(bs, c, block_index as int);
                                            }
                                            if c >= block {
                                                lemma_block_mono(bs, block as int, c);
                                            }
                                        } else if k >= block * bs {
                                            assert(!fwd_match(s, block * bs - 1, rb, k));
                                        }
                                    }
                                }
                                Some(j)
                            },
                            Err(()) => {
                                // the min-max tree found the excess in this block, so the
                                // block search does not fail
                                proof {
                                    let w = crate::trees::lemma_excess_between(
                                        s,
                                        block * bs + 1,
                                        blocks_end(s, bs, block + 1),
                                        t,
                                    );
                                    assert(!fwd_match(s, block * bs - 1, rb, w - 1));
                                }
                                None
                            },
                        }
                    },
                    None => {
                        proof {
                            assert forall|k: int| !#[trigger] fwd_match(s, index as int, r0, k) by {
                                if index < k < len && k >= e {
                                    lemma_block_of(s, bs, k);
                                    let c = k / bs;
                                    if c <= block_index {
                                        lemma_block_mono(bs, c, block_index as int);
                                    }
                                }
                            }
                        }
                        None
                    },
                }
            },
        }
    }

    /// Search for a position where the excess relative to the starting `index` is
    /// `relative_excess`. Returns `None` if no such position exists.
    /// The initial position is never considered in the search.
    /// Searches backward in the bit vector.
    ///
    /// # Arguments
    /// - `index`: The starting index.
    /// - `relative_excess`: The desired relative excess value.
    pub fn bwd_search(&self, index: usize, relative_excess: i64) -> (r: Option<usize>)
        requires
            self.wf(),
        ensures
            is_bwd_search(self@, index as int, relative_excess as int, r),
    {
        let ghost s = self@;
        let ghost bs = BLOCK_SIZE as int;
        let ghost r0 = relative_excess as int;
        let len = self.vec.len();
        proof {
            self.vec.lemma_len_bound();
        }
        if index >= len {
            return None;
        }
        // if the index is 0, we cant have a valid result anyway, and this would overflow the
        // subtraction below, so we report None
        if index == 0 {
            return None;
        }
        // no position is further than the length away in excess
        if relative_excess > len as i64 || relative_excess < -(len as i64) {
            proof {
                assert forall|k: int| !#[trigger] bwd_match(s, index as int, r0, k) by {
                    if 0 <= k < index {
                        lemma_excess_lipschitz(s, k, index as int);
                    }
                }
            }
            return None;
        }
        // calculate the block we start searching in. It starts at index - 1, so we don't
        // accidentally search the mM tree and immediately find `index` as the position
        let block_index = (index - 1) / BLOCK_SIZE;
        let mut rel = relative_excess;
        proof {
            lemma_block_of(s, bs, index - 1);
            lemma_excess_lipschitz(s, 0, index as int);
        }
        match self.bwd_search_block(index, block_index, &mut rel) {
            Ok(i) => Some(i),
            Err(()) => {
                let ghost b0 = block_index * bs;
                let ghost t = excess_before(s, index as int) + r0;
                proof {
                    lemma_excess_lipschitz(s, b0, index as int);
                    lemma_excess_lipschitz(s, 0, b0);
                    lemma_block_lt(s.len() as int, bs, block_index as int);
                }
                // find the block that contains the desired relative excess
                match self.min_max_tree.bwd_search(block_index, rel) {
                    Some((block, rel2)) => {
                        let mut rel2 = rel2;
                        let ghost rb = rel2 as int;
                        proof {
                            lemma_block_mono(bs, block as int, block as int + 1);
                            lemma_block_mono(bs, block as int + 1, block_index as int);
                            lemma_block_lt(s.len() as int, bs, block as int + 1);
                            let w = crate::trees::lemma_excess_between(
                                s,
                                block * bs,
                                blocks_end(s, bs, block + 1) - 1,
                                t,
                            );
                            lemma_excess_lipschitz(s, 0, w);
                            lemma_excess_lipschitz(s, 0, (block + 1) * bs);
                        }
                        // check the result block for the exact position
                        match self.bwd_search_block((block + 1) * BLOCK_SIZE, block, &mut rel2) {
                            Ok(i) => {
                                proof {
                                    assert forall|k: int| i < k < index implies !#[trigger] bwd_match(
                                        s,
                                        index as int,
                                        r0,
                                        k,
                                    ) by {
                                        if (block + 1) * bs <= k < b0 {
                                            lemma_block_of(s, bs, k);
                                            let c = k / bs;
                                            if c <= block {
                                                lemma_block_mono(bs, c, block as int);
                                            }
                                            if c >= block_index {
                                                lemma_block_mono(bs, block_index as int, c);
                                            }
                                        } else if k < (block + 1) * bs {
                                            assert(excess_before(s, k) - excess_before(
                                                s,
                                                (block + 1) * bs,
                                            ) != rb);
                                        }
                                    }
                                }
                                Some(i)
                            },
                            Err(()) => {
                                // the min-max tree found the excess in this block, so the
                                // block search does not fail
                                proof {
                                    let w = crate::trees::lemma_excess_between(
                                        s,
                                        block * bs,
                                        blocks_end(s, bs, block + 1) - 1,
                                        t,
                                    );
                                    assert(excess_before(s, w) - excess_before(s, (block + 1) * bs)
                                        != rb);
                                }
                                None
                            },
                        }
                    },
                    None => {
                        proof {
                            assert forall|k: int| !#[trigger] bwd_match(s, index as int, r0, k) by {
                                if 0 <= k < b0 {
                                    lemma_block_of(s, bs, k);
                                    let c = k / bs;
                                    if c >= block_index {
                                        lemma_block_mono(bs, block_index as int, c);
                                    }
                                }
                            }
                        }
                        None
                    },
                }
            },
        }
    }

    /// Find the position of the matching closing parenthesis for the opening
    /// parenthesis at `index`. If the bit at `index` is not an opening parenthesis,
    /// the result is meaningless. If there is no matching closing parenthesis, `None`
    /// is returned.
    pub fn close(&self, index: usize) -> (r: Option<usize>)
        requires
            self.wf(),
        ensures
            is_fwd_search(self@, index as int, -1, r),
            r matches Some(j) ==> index < j < self@.len() && !self@[j as int],
    {
        if index >= self.vec.len() {
            return None;
        }
        let r = self.fwd_search(index, -1);
        proof {
            if let Some(j) = r {
                laws::lemma_fwd_search_lands(self@, index as int, -1, j);
            }
        }
        r
    }

    /// Find the position of the matching opening parenthesis for the closing
    /// parenthesis at `index`. If the bit at `index` is not a closing parenthesis,
    /// the result is meaningless. If there is no matching opening parenthesis, `None`
    /// is returned.
    pub fn open(&self, index: usize) -> (r: Option<usize>)
        requires
            self.wf(),
        ensures
            is_bwd_search(self@, index as int, -1, r),
            r matches Some(i) ==> i < index && self@[i as int],
    {
        if index >= self.vec.len() {
            return None;
        }
        let r = self.bwd_search(index, -1);
        proof {
            if let Some(i) = r {
                laws::lemma_bwd_search_lands(self@, index as int, -1, i);
            }
        }
        r
    }

    /// Find the position of the opening parenthesis that encloses the position
    /// `index`. This works regardless of whether the bit at `index` is an opening or
    /// closing parenthesis. If there is no enclosing parenthesis, `None` is returned.
    pub fn enclose(&self, index: usize) -> (r: Option<usize>)
        requires
            self.wf(),
        ensures
            if index < self@.len() {
                is_bwd_search(self@, index as int, enclose_excess(self@, index as int), r)
            } else {
                r is None
            },
            r matches Some(i) ==> i < index && self@[i as int],
    {
        if index >= self.vec.len() {
            return None;
        }
        let rel: i64 = if self.vec.get_unchecked(index) == 1 {
            -1
        } else {
            -2
        };
        let r = self.bwd_search(index, rel);
        proof {
            if let Some(i) = r {
                laws::lemma_bwd_search_lands(self@, index as int, rel as int, i);
            }
        }
        r
    }

    /// Get the excess of open parentheses up to and including the position `index`.
    /// The excess is the number of open parentheses minus the number of closing
    /// parentheses. If `index` is out of bounds, the total excess of the parentheses
    /// expression is returned.
    pub fn excess(&self, index: usize) -> (r: i64)
        requires
            self.wf(),
        ensures
            r == excess_before(
                self@,
                if index < self@.len() {
                    index + 1
                } else {
                    self@.len() as int
                },
            ),
    {
        let len = self.vec.len();
        proof {
            self.vec.lemma_len_bound();
        }
        let p = if index < len {
            index + 1
        } else {
            len
        };
        let ones = self.vec.rank1(p);
        let zeros = self.vec.rank0(p);
        proof {
            lemma_excess_ones(self@, p as int);
            lemma_ones_step(self@, 0, p as int);
        }
        ones as i64 - zeros as i64
    }

    /// Whether `node` is a node handle: the position of an opening parenthesis.
    pub open spec fn is_node(&self, node: int) -> bool {
        0 <= node < self@.len() && self@[node]
    }

    /// The root of the tree, or `None` if the tree is empty.
    pub fn root(&self) -> (r: Option<usize>)
        requires
            self.wf(),
        ensures
            r == if self@.len() == 0 {
                None::<usize>
            } else {
                Some(0usize)
            },
    {
        if self.vec.is_empty() {
            None
        } else {
            Some(0)
        }
    }

    /// The parent of `node`: the opening parenthesis that encloses it.
    pub fn parent(&self, node: usize) -> (r: Option<usize>)
        requires
            self.wf(),
            self.is_node(node as int),
        ensures
            r == parent_spec(self@, node as int),
            r matches Some(p) ==> p < node && self@[p as int] && excess_before(self@, p + 1)
                == excess_before(self@, node + 1) - 1,
    {
        let r = self.enclose(node);
        proof {
            self.vec.lemma_len_bound();
            lemma_bwd_search_unique(self@, node as int, -1, r);
            if r is Some {
                laws::lemma_parent_one_level_up(self@, node as int);
            }
        }
        r
    }

    /// The first child of `node`: the opening parenthesis right after it, if any.
    pub fn first_child(&self, node: usize) -> (r: Option<usize>)
        requires
            self.wf(),
            self.is_node(node as int),
        ensures
            r == first_child_spec(self@, node as int),
            r matches Some(c) ==> c == node + 1 && self@[c as int] && parent_spec(self@, c as int)
                == Some(node),
            r is None ==> forall|d: int|
                0 <= d < self@.len() && self@[d] ==> parent_spec(self@, d) != Some(node),
    {
        proof {
            self.vec.lemma_len_bound();
            laws::lemma_first_child_is_leftmost_child(self@, node as int);
        }
        if let Some(bit) = self.vec.get(node + 1) {
            if bit == OPEN_PAREN {
                return Some(node + 1);
            }
        }
        None
    }

    /// The next sibling of `node`: the opening parenthesis right after its closing
    /// one, if any.
    pub fn next_sibling(&self, node: usize) -> (r: Option<usize>)
        requires
            self.wf(),
            self.is_node(node as int),
        ensures
            r == next_sibling_spec(self@, node as int),
            r matches Some(w) ==> node < w < self@.len() && self@[w as int] && parent_spec(
                self@,
                w as int,
            ) == parent_spec(self@, node as int),
    {
        let c = self.close(node);
        proof {
            self.vec.lemma_len_bound();
            laws::lemma_next_sibling_is_sibling(self@, node as int);
            lemma_fwd_search_unique(self@, node as int, -1, c);
        }
        match c {
            Some(i) => match self.vec.get(i + 1) {
                Some(bit) => if bit == OPEN_PAREN {
                    Some(i + 1)
                } else {
                    None
                },
                None => None,
            },
            None => None,
        }
    }

    /// The previous sibling of `node`: the opening parenthesis matching a closing
    /// one right before it, if any.
    pub fn previous_sibling(&self, node: usize) -> (r: Option<usize>)
        requires
            self.wf(),
            self.is_node(node as int),
        ensures
            r == previous_sibling_spec(self@, node as int),
            r matches Some(u) ==> u < node && self@[u as int] && next_sibling_spec(self@, u as int)
                == Some(node),
    {
        proof {
            self.vec.lemma_len_bound();
            laws::lemma_previous_sibling_is_sibling(self@, node as int);
        }
        if node == 0 {
            None
        } else {
            match self.vec.get(node - 1) {
                Some(bit) => if bit == CLOSE_PAREN {
                    let r = self.open(node - 1);
                    proof {
                        lemma_bwd_search_unique(self@, node - 1, -1, r);
                    }
                    r
                } else {
                    None
                },
                None => None,
            }
        }
    }

    /// The last child of `node`: the opening parenthesis matching the closing one
    /// right before the end of `node`, if `node` has a child.
    pub fn last_child(&self, node: usize) -> (r: Option<usize>)
        requires
            self.wf(),
            self.is_node(node as int),
        ensures
            r == last_child_spec(self@, node as int),
            r matches Some(c) ==> node < c && self@[c as int] && parent_spec(self@, c as int)
                == Some(node) && next_sibling_spec(self@, c as int) is None,
    {
        proof {
            self.vec.lemma_len_bound();
            laws::lemma_last_child(self@, node as int);
            if let Some(c) = last_child_spec(self@, node as int) {
                laws::lemma_bwd_search_spec_valid(self@, c as int, -1);
            }
        }
        match self.vec.get(node + 1) {
            Some(bit) => if bit == OPEN_PAREN {
                let c = self.close(node);
                proof {
                    lemma_fwd_search_unique(self@, node as int, -1, c);
                }
                if let Some(i) = c {
                    let r = self.open(i - 1);
                    proof {
                        lemma_bwd_search_unique(self@, i - 1, -1, r);
                    }
                    r
                } else {
                    None
                }
            } else {
                None
            },
            None => None,
        }
    }

    /// The index of `node` in depth-first order: the opening parentheses before it.
    pub fn node_index(&self, node: usize) -> (r: usize)
        requires
            self.wf(),
            self.is_node(node as int),
        ensures
            r == ones(self@, node as int),
    {
        self.vec.rank1(node)
    }

    /// The handle of the node with depth-first index `index`: the position of the
    /// opening parenthesis of that rank, or the length if there is none.
    pub fn node_handle(&self, index: usize) -> (r: usize)
        requires
            self.wf(),
        ensures
            r == select1_spec(self@, index as int),
    {
        self.vec.select1(index)
    }

    /// Whether `node` is a leaf: a closing parenthesis follows it.
    pub fn is_leaf(&self, node: usize) -> (r: bool)
        requires
            self.wf(),
            self.is_node(node as int),
        ensures
            r == (node + 1 < self@.len() && !self@[node + 1]),
            r ==> forall|d: int|
                0 <= d < self@.len() && self@[d] ==> parent_spec(self@, d) != Some(node),
    {
        proof {
            self.vec.lemma_len_bound();
            laws::lemma_first_child_is_leftmost_child(self@, node as int);
        }
        match self.vec.get(node + 1) {
            Some(bit) => bit == CLOSE_PAREN,
            None => false,
        }
    }

    /// The depth of `node`: its excess less one, and 0 where that is negative.
    pub fn depth(&self, node: usize) -> (r: u64)
        requires
            self.wf(),
            self.is_node(node as int),
        ensures
            r == depth_spec(self@, node as int),
    {
        let e = self.excess(node);
        let excess: u64 = if e < 0 {
            0
        } else {
            e as u64
        };
        excess.saturating_sub(1)
    }

    /// The number of nodes: the opening parentheses.
    pub fn size(&self) -> (r: usize)
        requires
            self.wf(),
        ensures
            r == ones(self@, self@.len() as int),
    {
        self.vec.rank1(self.vec.len())
    }

    /// Whether the tree has no parentheses.
    pub fn is_empty(&self) -> (r: bool)
        requires
            self.wf(),
        ensures
            r == (self@.len() == 0),
    {
        self.vec.is_empty()
    }

    /// Whether `ancestor` is an ancestor of `descendant` (or the node itself):
    /// whether `descendant` lies between `ancestor` and its closing parenthesis.
    /// `None` if `ancestor` has no closing parenthesis.
    pub fn is_ancestor(&self, ancestor: usize, descendant: usize) -> (r: Option<bool>)
        requires
            self.wf(),
            self.is_node(ancestor as int),
            self.is_node(descendant as int),
        ensures
            r == match fwd_search_spec(self@, ancestor as int, -1) {
                Some(closing) => Some(ancestor <= descendant && descendant < closing),
                None => None,
            },
            r matches Some(b) ==> (descendant == ancestor ==> b),
            r matches Some(b) ==> (descendant < ancestor ==> !b),
    {
        let c = self.close(ancestor);
        proof {
            self.vec.lemma_len_bound();
            lemma_fwd_search_unique(self@, ancestor as int, -1, c);
            laws::lemma_fwd_search_spec_valid(self@, ancestor as int, -1);
        }
        match c {
            Some(closing) => Some(ancestor <= descendant && descendant < closing),
            None => None,
        }
    }

    /// The ancestor of `node` `level` levels up; `node` itself for level 0.
    /// A level past `i64::MAX` wraps as a signed number does.
    pub fn level_ancestor(&self, node: usize, level: u64) -> (r: Option<usize>)
        requires
            self.wf(),
        ensures
            r == level_ancestor_spec(self@, node as int, level),
            0 < level <= i64::MAX ==> (r matches Some(a) ==> a < node && self@[a as int]),
    {
        if level == 0 {
            return Some(node);
        }
        // if the level exceeds 2^63, we accept that the result is wrong
        let l = level as i64;
        let rel = if l == i64::MIN {
            l
        } else {
            -l
        };
        let r = self.bwd_search(node, rel);
        proof {
            self.vec.lemma_len_bound();
            lemma_bwd_search_unique(self@, node as int, rel as int, r);
            if let Some(a) = r {
                if level <= i64::MAX {
                    laws::lemma_bwd_search_lands(self@, node as int, rel as int, a);
                }
            }
        }
        r
    }

    /// The next node on the level of `node`, to its right.
    pub fn level_next(&self, node: usize) -> (r: Option<usize>)
        requires
            self.wf(),
        ensures
            r == level_next_spec(self@, node as int),
            r matches Some(y) ==> node < y < self@.len() && self@[y as int],
    {
        let c = self.close(node);
        proof {
            lemma_fwd_search_unique(self@, node as int, -1, c);
        }
        match c {
            Some(c) => {
                let r = self.fwd_search(c, 1);
                proof {
                    lemma_fwd_search_unique(self@, c as int, 1, r);
                    if let Some(y) = r {
                        laws::lemma_fwd_search_lands(self@, c as int, 1, y);
                    }
                }
                r
            },
            None => None,
        }
    }

    /// The previous node on the level of `node`, to its left.
    pub fn level_prev(&self, node: usize) -> (r: Option<usize>)
        requires
            self.wf(),
        ensures
            r == level_prev_spec(self@, node as int),
            r matches Some(x) ==> x < node && self@[x as int],
    {
        let b = self.bwd_search(node, 1);
        proof {
            lemma_bwd_search_unique(self@, node as int, 1, b);
        }
        match b {
            Some(p) => {
                let r = self.open(p);
                proof {
                    lemma_bwd_search_unique(self@, p as int, -1, r);
                    if let Some(x) = r {
                        laws::lemma_bwd_search_lands(self@, p as int, -1, x);
                    }
                }
                r
            },
            None => None,
        }
    }

    /// The leftmost node on level `level`; the root position for level 0.
    /// A level past `i64::MAX` wraps as a signed number does.
    pub fn level_leftmost(&self, level: u64) -> (r: Option<usize>)
        requires
            self.wf(),
        ensures
            r == if level == 0 {
                Some(0usize)
            } else {
                fwd_search_spec(self@, 0, (level as i64) as int)
            },
            0 < level <= i64::MAX ==> (r matches Some(w) ==> self@[w as int]),
    {
        // fwd_search doesn't support returning the input position
        if level == 0 {
            return Some(0);
        }
        // if the level exceeds 2^63, we accept that the result is wrong
        let r = self.fwd_search(0, level as i64);
        proof {
            lemma_fwd_search_unique(self@, 0, (level as i64) as int, r);
            if let Some(w) = r {
                if level <= i64::MAX {
                    laws::lemma_fwd_search_lands(self@, 0, (level as i64) as int, w);
                }
            }
        }
        r
    }

    /// The rightmost node on level `level`.
    /// A level past `i64::MAX` wraps as a signed number does.
    pub fn level_rightmost(&self, level: u64) -> (r: Option<usize>)
        requires
            self.wf(),
        ensures
            r == if ones(self@, self@.len() as int) == 0 {
                None
            } else {
                match bwd_search_spec(
                    self@,
                    2 * ones(self@, self@.len() as int) - 1,
                    (level as i64) as int,
                ) {
                    Some(p) => bwd_search_spec(self@, p as int, -1),
                    None => None,
                }
            },
            r matches Some(w) ==> self@[w as int],
    {
        proof {
            self.vec.lemma_len_bound();
            lemma_ones_step(self@, 0, self@.len() as int);
        }
        // a tree without nodes has no level
        if self.size() == 0 {
            return None;
        }
        // if the level exceeds 2^63, we accept that the result is wrong
        let b = self.bwd_search(self.size() * 2 - 1, level as i64);
        proof {
            lemma_bwd_search_unique(self@, 2 * ones(self@, self@.len() as int) - 1, (level as i64) as int, b);
        }
        match b {
            Some(p) => {
                let r = self.open(p);
                proof {
                    lemma_bwd_search_unique(self@, p as int, -1, r);
                    if let Some(w) = r {
                        laws::lemma_bwd_search_lands(self@, p as int, -1, w);
                    }
                }
                r
            },
            None => None,
        }
    }

    /// The number of nodes in the subtree of `node`, itself included: the opening
    /// parentheses between it and its closing one. `None` if it has no closing one.
    pub fn subtree_size(&self, node: usize) -> (r: Option<usize>)
        requires
            self.wf(),
            self.is_node(node as int),
        ensures
            r == match fwd_search_spec(self@, node as int, -1) {
                Some(c) => Some((ones(self@, c as int) - ones(self@, node as int)) as usize),
                None => None,
            },
            r matches Some(k) ==> k >= 1,
    {
        let c = self.close(node);
        proof {
            lemma_fwd_search_unique(self@, node as int, -1, c);
        }
        match c {
            Some(c) => {
                let a = self.vec.rank1(c);
                let b = self.vec.rank1(node);
                proof {
                    lemma_ones_step(self@, node as int, c as int);
                    lemma_ones_step(self@, node as int + 1, c as int);
                    assert(ones(self@, node as int + 1) == ones(self@, node as int) + 1);
                }
                Some(a - b)
            },
            None => None,
        }
    }

}

/// The result of a forward search, as `is_fwd_search` pins it down.
pub open spec fn fwd_search_spec(s: Seq<bool>, index: int, rel: int) -> Option<usize> {
    if exists|j: usize| #[trigger] is_fwd_search(s, index, rel, Some(j)) {
        Some(choose|j: usize| #[trigger] is_fwd_search(s, index, rel, Some(j)))
    } else {
        None
    }
}

/// The result of a backward search, as `is_bwd_search` pins it down.
pub open spec fn bwd_search_spec(s: Seq<bool>, index: int, rel: int) -> Option<usize> {
    if exists|i: usize| #[trigger] is_bwd_search(s, index, rel, Some(i)) {
        Some(choose|i: usize| #[trigger] is_bwd_search(s, index, rel, Some(i)))
    } else {
        None
    }
}

/// The parent of node `v`: the opening parenthesis that encloses it.
pub open spec fn parent_spec(s: Seq<bool>, v: int) -> Option<usize> {
    bwd_search_spec(s, v, -1)
}

/// The first child of node `v`: the opening parenthesis right after it, if any.
pub open spec fn first_child_spec(s: Seq<bool>, v: int) -> Option<usize> {
    if v + 1 < s.len() && s[v + 1] {
        Some((v + 1) as usize)
    } else {
        None
    }
}

/// The next sibling of node `v`: the opening parenthesis right after its closing
/// one, if any.
pub open spec fn next_sibling_spec(s: Seq<bool>, v: int) -> Option<usize> {
    match fwd_search_spec(s, v, -1) {
        Some(i) => if i + 1 < s.len() && s[i + 1] {
            Some((i + 1) as usize)
        } else {
            None
        },
        None => None,
    }
}

/// The previous sibling of node `v`: the opening parenthesis matching a closing one
/// right before it, if any.
pub open spec fn previous_sibling_spec(s: Seq<bool>, v: int) -> Option<usize> {
    if v > 0 && !s[v - 1] {
        bwd_search_spec(s, v - 1, -1)
    } else {
        None
    }
}

/// The last child of node `v`: the opening parenthesis matching the closing one
/// right before the end of `v`, if `v` has a child.
pub open spec fn last_child_spec(s: Seq<bool>, v: int) -> Option<usize> {
    if v + 1 < s.len() && s[v + 1] {
        match fwd_search_spec(s, v, -1) {
            Some(i) => bwd_search_spec(s, i - 1, -1),
            None => None,
        }
    } else {
        None
    }
}

/// The depth of node `v`: its excess less one, and 0 where that is negative.
pub open spec fn depth_spec(s: Seq<bool>, v: int) -> int {
    if excess_before(s, v + 1) >= 1 {
        excess_before(s, v + 1) - 1
    } else {
        0
    }
}

/// The ancestor of node `v` `level` levels up; `v` itself for level 0.
pub open spec fn level_ancestor_spec(s: Seq<bool>, v: int, level: u64) -> Option<usize> {
    if level == 0 {
        Some(v as usize)
    } else {
        bwd_search_spec(s, v, level_rel(level) as int)
    }
}

/// The next node on the level of node `v`, to its right.
pub open spec fn level_next_spec(s: Seq<bool>, v: int) -> Option<usize> {
    match fwd_search_spec(s, v, -1) {
        Some(c) => fwd_search_spec(s, c as int, 1),
        None => None,
    }
}

/// The previous node on the level of node `v`, to its left.
pub open spec fn level_prev_spec(s: Seq<bool>, v: int) -> Option<usize> {
    match bwd_search_spec(s, v, 1) {
        Some(p) => bwd_search_spec(s, p as int, -1),
        None => None,
    }
}

/// A forward search has one result.
pub proof fn lemma_fwd_search_unique(s: Seq<bool>, index: int, rel: int, r: Option<usize>)
    requires
        is_fwd_search(s, index, rel, r),
    ensures
        r == fwd_search_spec(s, index, rel),
{
    if exists|j: usize| #[trigger] is_fwd_search(s, index, rel, Some(j)) {
        let j = choose|j: usize| #[trigger] is_fwd_search(s, index, rel, Some(j));
        assert(fwd_match(s, index, rel, j as int));
        match r {
            Some(i) => {
                assert(fwd_match(s, index, rel, i as int));
                if i < j {
                    assert(!fwd_match(s, index, rel, i as int));
                } else if j < i {
                    assert(!fwd_match(s, index, rel, j as int));
                }
            },
            None => {},
        }
    }
}

/// A backward search has one result.
pub proof fn lemma_bwd_search_unique(s: Seq<bool>, index: int, rel: int, r: Option<usize>)
    requires
        is_bwd_search(s, index, rel, r),
    ensures
        r == bwd_search_spec(s, index, rel),
{
    if exists|j: usize| #[trigger] is_bwd_search(s, index, rel, Some(j)) {
        let j = choose|j: usize| #[trigger] is_bwd_search(s, index, rel, Some(j));
        assert(bwd_match(s, index, rel, j as int));
        match r {
            Some(i) => {
                assert(bwd_match(s, index, rel, i as int));
                if i < j {
                    assert(!bwd_match(s, index, rel, i as int));
                } else if j < i {
                    assert(!bwd_match(s, index, rel, j as int));
                }
            },
            None => {},
        }
    }
}

/// A block boundary is a multiple of the byte searches' width.
proof fn lemma_multiple_of_byte(b: int, bs: int)
    requires
        0 <= b,
        valid_block_size(bs),
    ensures
        (b * bs) % 8 == 0,
{
    let q = bs / 8;
    vstd::arithmetic::div_mod::lemma_fundamental_div_mod(bs, 8);
    assert(b * bs == (b * q) * 8) by (nonlinear_arith)
        requires
            bs == 8 * q,
    ;
    vstd::arithmetic::div_mod::lemma_mod_multiples_basic(b * q, 8);
}

} // verus!
