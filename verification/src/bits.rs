//! Bit-level facts about 64-bit words.
use vstd::prelude::*;

verus! {

/// Whether bit `k` (counted from the least significant end) of `w` is set.
pub open spec fn bit_of(w: u64, k: int) -> bool {
    0 <= k < 64 && (w >> (k as u64)) & 1u64 == 1u64
}

/// The largest number of bits a bit vector of this crate holds: an eighth of the
/// address space. No vector of words that large fits in memory, and below it every
/// bit position, count and excess, and the sum of three of them, fits in `usize`
/// and in `i64`.
pub open spec fn max_len() -> int {
    (usize::MAX / 8) as int
}

/// Two words whose bits all agree are equal.
pub proof fn lemma_bits_equal(a: u64, b: u64)
    requires
        forall|j: int| 0 <= j < 64 ==> bit_of(a, j) == bit_of(b, j),
    ensures
        a == b,
{
    let x = a ^ b;
    if x != 0 {
        vstd::std_specs::bits::axiom_u64_trailing_zeros(x);
        let t = vstd::std_specs::bits::u64_trailing_zeros(x) as u64;
        assert(t < 64);
        assert(bit_of(a, t as int) == bit_of(b, t as int));
        assert((x >> t) & 1u64 == 1u64);
        assert(false) by (bit_vector)
            requires
                x == a ^ b,
                (x >> t) & 1u64 == 1u64,
                ((a >> t) & 1u64 == 1u64) == ((b >> t) & 1u64 == 1u64),
        ;
    } else {
        assert(a == b) by (bit_vector)
            requires
                a ^ b == 0u64,
        ;
    }
}

/// A zero word has no bit set.
pub proof fn lemma_zero_word(k: int)
    ensures
        !bit_of(0u64, k),
{
    if 0 <= k < 64 {
        let kk = k as u64;
        assert((0u64 >> kk) & 1u64 == 0u64) by (bit_vector);
    }
}

/// Setting bit `k` sets it and leaves the other bits unchanged.
pub proof fn lemma_set_bit(w: u64, k: u64, j: int)
    requires
        k < 64,
    ensures
        bit_of(w | (1u64 << k), j) == (j == k as int || bit_of(w, j)),
{
    if 0 <= j < 64 {
        let jj = j as u64;
        assert(((w | (1u64 << k)) >> jj) & 1u64 == 1u64 <==> (jj == k || (w >> jj) & 1u64 == 1u64))
            by (bit_vector)
            requires
                k < 64,
                jj < 64,
        ;
    }
}

/// Flipping bit `k` toggles it and leaves the other bits unchanged.
pub proof fn lemma_flip_bit(w: u64, k: u64, j: int)
    requires
        k < 64,
    ensures
        bit_of(w ^ (1u64 << k), j) == (if j == k as int { !bit_of(w, j) } else { bit_of(w, j) }),
{
    if 0 <= j < 64 {
        let jj = j as u64;
        assert(((w ^ (1u64 << k)) >> jj) & 1u64 == 1u64 <==> (if jj == k {
            (w >> jj) & 1u64 != 1u64
        } else {
            (w >> jj) & 1u64 == 1u64
        })) by (bit_vector)
            requires
                k < 64,
                jj < 64,
        ;
    }
}

} // verus!
