//! A depth-first builder for balanced-parentheses trees.
use vstd::prelude::*;

use crate::bit_vec::BitVec;
use crate::bits::max_len;
use crate::trees::bp::{valid_block_size, BpTree};
use crate::rs_vec::ones;
use crate::trees::{excess_before, lemma_excess_lipschitz, lemma_excess_ones, lemma_excess_push};

verus! {

/// What building the parentheses `bits` gives: the tree's parentheses when their
/// excess ends at zero, or else that excess.
pub open spec fn build_outcome(bits: Seq<bool>) -> Result<Seq<bool>, int> {
    if excess_before(bits, bits.len() as int) == 0 {
        Ok(bits)
    } else {
        Err(excess_before(bits, bits.len() as int))
    }
}

/// The parentheses a builder holding `bits` holds after a run of calls, `true`
/// standing for `enter_node` and `false` for `leave_node`.
pub open spec fn after_calls(bits: Seq<bool>, calls: Seq<bool>) -> Seq<bool>
    decreases calls.len(),
{
    if calls.len() == 0 {
        bits
    } else {
        after_calls(bits.push(calls[0]), calls.drop_first())
    }
}

/// Building succeeds exactly when as many parentheses open as close, and a failure
/// reports how many more open than close; a success keeps the parentheses as they
/// were written.
pub proof fn lemma_build_outcome(bits: Seq<bool>)
    ensures
        (build_outcome(bits) is Ok) == (2 * ones(bits, bits.len() as int) == bits.len()),
        build_outcome(bits) matches Ok(t) ==> t == bits,
        build_outcome(bits) matches Err(e) ==> e == ones(bits, bits.len() as int) - (bits.len()
            - ones(bits, bits.len() as int)) && e != 0,
{
    lemma_excess_ones(bits, bits.len() as int);
}

/// A run of calls appends its parentheses. Builders made by `new` and by
/// `with_capacity` both start empty, so after the same run they hold the same
/// parentheses, `calls`, and `build` gives both `build_outcome(calls)`.
pub proof fn lemma_after_calls(bits: Seq<bool>, calls: Seq<bool>)
    ensures
        after_calls(bits, calls) == bits + calls,
        after_calls(Seq::empty(), calls) == calls,
    decreases calls.len(),
{
    if calls.len() > 0 {
        lemma_after_calls(bits.push(calls[0]), calls.drop_first());
        assert(bits.push(calls[0]) + calls.drop_first() =~= bits + calls);
    }
    if calls.len() > 0 {
        lemma_after_calls(Seq::<bool>::empty().push(calls[0]), calls.drop_first());
        assert(Seq::<bool>::empty().push(calls[0]) + calls.drop_first() =~= calls);
    }
}

/// A builder for [`BpTree`]s using depth-first traversal of the tree: entering a
/// node writes an opening parenthesis, leaving it a closing one.
pub struct BpDfsBuilder<const BLOCK_SIZE: usize> {
    excess: i64,
    bit_vec: BitVec,
}

impl<const BLOCK_SIZE: usize> View for BpDfsBuilder<BLOCK_SIZE> {
    type V = Seq<bool>;

    /// The parentheses written so far.
    closed spec fn view(&self) -> Seq<bool> {
        self.bit_vec@
    }
}

impl<const BLOCK_SIZE: usize> BpDfsBuilder<BLOCK_SIZE> {
    /// The running excess is that of the parentheses written so far.
    pub closed spec fn wf(&self) -> bool {
        &&& self.bit_vec.wf()
        &&& self.excess == excess_before(self.bit_vec@, self.bit_vec@.len() as int)
    }

    /// Create new empty `DfsTreeBuilder`
    pub fn new() -> (r: Self)
        ensures
            r.wf(),
            r@ == Seq::<bool>::empty(),
    {
        Self { excess: 0, bit_vec: BitVec::new() }
    }

    /// Create a new empty `DfsTreeBuilder` with the given capacity for nodes.
    pub fn with_capacity(capacity: u64) -> (r: Self)
        requires
            capacity <= u64::MAX / 2,
        ensures
            r.wf(),
            r@ == Seq::<bool>::empty(),
    {
        Self { excess: 0, bit_vec: BitVec::with_capacity((capacity * 2) as usize) }
    }

    /// Enter a node: write an opening parenthesis.
    pub fn enter_node(&mut self)
        requires
            old(self).wf(),
            old(self)@.len() < max_len(),
        ensures
            final(self).wf(),
            final(self)@ == old(self)@.push(true),
    {
        proof {
            lemma_excess_lipschitz(self@, 0, self@.len() as int);
        }
        self.excess = self.excess + 1;
        self.bit_vec.append_bit(1);
        proof {
            lemma_excess_push(old(self)@, true);
        }
    }

    /// Leave a node: write a closing parenthesis.
    pub fn leave_node(&mut self)
        requires
            old(self).wf(),
            old(self)@.len() < max_len(),
        ensures
            final(self).wf(),
            final(self)@ == old(self)@.push(false),
    {
        proof {
            lemma_excess_lipschitz(self@, 0, self@.len() as int);
        }
        self.excess = self.excess - 1;
        self.bit_vec.append_bit(0);
        proof {
            lemma_excess_push(old(self)@, false);
        }
    }

    /// Build the tree. Fails with the excess of the parentheses written if they are
    /// not balanced to zero.
    pub fn build(self) -> (r: Result<BpTree<BLOCK_SIZE>, i64>)
        requires
            self.wf(),
            valid_block_size(BLOCK_SIZE as int),
        ensures
            match r {
                Ok(tree) => tree.wf() && build_outcome(self@) == Ok::<Seq<bool>, int>(tree@),
                Err(e) => build_outcome(self@) == Err::<Seq<bool>, int>(e as int),
            },
            (r is Ok) == (excess_before(self@, self@.len() as int) == 0),
            r matches Ok(tree) ==> tree@ == self@,
            r matches Err(e) ==> e == excess_before(self@, self@.len() as int),
    {
        if self.excess != 0 {
            Err(self.excess)
        } else {
            Ok(BpTree::from_bit_vector(self.bit_vec))
        }
    }
}

} // verus!
