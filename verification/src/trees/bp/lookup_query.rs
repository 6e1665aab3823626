//! Excess searches inside one byte of a parentheses sequence.
use vstd::prelude::*;

use crate::bits::bit_of;
use crate::trees::excess_before;

verus! {

/// The number of bits a byte search covers.
pub const LOOKUP_BLOCK_SIZE: u64 = 8;

/// The excess of the `m` least significant bits of `block`.
pub open spec fn byte_excess(block: u8, m: int) -> int
    decreases m,
{
    if m <= 0 {
        0
    } else {
        byte_excess(block, m - 1) + if bit_of(block as u64, m - 1) {
            1int
        } else {
            -1int
        }
    }
}

/// A byte whose bits are those of `s` from `pos` on has the excess of that stretch.
pub proof fn lemma_byte_excess(s: Seq<bool>, pos: int, block: u8, m: int)
    requires
        0 <= pos,
        0 <= m <= 8,
        forall|t: int| 0 <= t < 8 ==> #[trigger] bit_of(block as u64, t) == s[pos + t],
    ensures
        byte_excess(block, m) == excess_before(s, pos + m) - excess_before(s, pos),
    decreases m,
{
    if m > 0 {
        lemma_byte_excess(s, pos, block, m - 1);
        assert(bit_of(block as u64, m - 1) == s[pos + m - 1]);
    }
}

/// Scan the bits of `block` from the least significant one, subtracting each
/// parenthesis' excess from `relative_excess`, and report the first bit after which
/// it is zero. On failure `relative_excess` holds what remains after all eight bits.
pub fn process_block_fwd(block: u8, relative_excess: &mut i64) -> (r: Result<u64, ()>)
    requires
        i64::MIN + 8 <= *old(relative_excess) <= i64::MAX - 8,
    ensures
        match r {
            Ok(k) => k < 8 && *old(relative_excess) == byte_excess(block, k + 1) && forall|t: int|
                0 <= t < k ==> *old(relative_excess) != #[trigger] byte_excess(block, t + 1),
            Err(()) => (forall|t: int|
                0 <= t < 8 ==> *old(relative_excess) != #[trigger] byte_excess(block, t + 1))
                && *final(relative_excess) == *old(relative_excess) - byte_excess(block, 8),
        },
{
    let ghost r0 = *relative_excess;
    let mut k: u64 = 0;
    while k < 8
        invariant
            k <= 8,
            r0 == *old(relative_excess),
            i64::MIN + 8 <= r0 <= i64::MAX - 8,
            *relative_excess == r0 - byte_excess(block, k as int),
            -(k as int) <= byte_excess(block, k as int) <= k,
            forall|t: int| 0 <= t < k ==> r0 != #[trigger] byte_excess(block, t + 1),
        decreases 8 - k,
    {
        let bit = ((block as u64) >> k) & 1u64;
        assert(bit_of(block as u64, k as int) == (bit == 1u64));
        if bit == 1 {
            *relative_excess = *relative_excess - 1;
        } else {
            *relative_excess = *relative_excess + 1;
        }
        if *relative_excess == 0 {
            return Ok(k);
        }
        k = k + 1;
    }
    Err(())
}

/// Scan the bits of `block` from the most significant one, adding each
/// parenthesis' excess to `relative_excess`, and report the first bit after which
/// it is zero. On failure `relative_excess` holds what remains after all eight bits.
pub fn process_block_bwd(block: u8, relative_excess: &mut i64) -> (r: Result<u64, ()>)
    requires
        i64::MIN + 8 <= *old(relative_excess) <= i64::MAX - 8,
    ensures
        match r {
            Ok(k) => k < 8 && *old(relative_excess) + byte_excess(block, 8) - byte_excess(
                block,
                k as int,
            ) == 0 && forall|t: int|
                k < t < 8 ==> *old(relative_excess) + byte_excess(block, 8) - #[trigger] byte_excess(
                    block,
                    t,
                ) != 0,
            Err(()) => (forall|t: int|
                0 <= t < 8 ==> *old(relative_excess) + byte_excess(block, 8) - #[trigger] byte_excess(
                    block,
                    t,
                ) != 0) && *final(relative_excess) == *old(relative_excess) + byte_excess(block, 8),
        },
{
    let ghost r0 = *relative_excess;
    proof {
        lemma_byte_excess_bound(block, 8);
    }
    let mut k: u64 = 8;
    while k > 0
        invariant
            k <= 8,
            r0 == *old(relative_excess),
            i64::MIN + 8 <= r0 <= i64::MAX - 8,
            r0 - (8 - k) <= *relative_excess <= r0 + (8 - k),
            *relative_excess == r0 + byte_excess(block, 8) - byte_excess(block, k as int),
            forall|t: int| 0 <= t <= 8 ==> -t <= #[trigger] byte_excess(block, t) <= t,
            forall|t: int| k <= t < 8 ==> r0 + byte_excess(block, 8) - #[trigger] byte_excess(block, t)
                != 0,
        decreases k,
    {
        k = k - 1;
        let bit = ((block as u64) >> k) & 1u64;
        assert(bit_of(block as u64, k as int) == (bit == 1u64));
        assert(byte_excess(block, k + 1) == byte_excess(block, k as int) + if bit == 1u64 {
            1int
        } else {
            -1int
        });
        if bit == 1 {
            *relative_excess = *relative_excess + 1;
        } else {
            *relative_excess = *relative_excess - 1;
        }
        if *relative_excess == 0 {
            return Ok(k);
        }
    }
    Err(())
}

/// A byte's excess is bounded by its length.
proof fn lemma_byte_excess_bound(block: u8, m: int)
    requires
        0 <= m,
    ensures
        forall|t: int| 0 <= t <= m ==> -t <= #[trigger] byte_excess(block, t) <= t,
    decreases m,
{
    if m > 0 {
        lemma_byte_excess_bound(block, m - 1);
        assert(byte_excess(block, m) == byte_excess(block, m - 1) + if bit_of(block as u64, m - 1) {
            1int
        } else {
            -1int
        });
    }
}

} // verus!
