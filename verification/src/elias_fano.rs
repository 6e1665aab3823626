//! An Elias-Fano encoding of a sequence of 64-bit integers: each value is split
//! into its low bits, stored verbatim, and its high bits, stored in unary in a
//! bit vector with rank and select support.
use vstd::prelude::*;

use crate::bit_vec::BitVec;
use crate::bits::{bit_of, lemma_bits_equal, max_len};
use crate::rs_vec::{
    is_select0, is_select1, lemma_ones_step, lemma_select0_none, lemma_select0_unique,
    lemma_select1_unique, ones, rank1_spec, select0_spec, select1_spec, RsVec,
};

verus! {

/// The number of low bits stored verbatim for a sequence of `n` values: one more
/// than the leading zeros of `n`, and at most 63 so that a shift by it stays
/// inside a word.
pub open spec fn lower_width_of(n: int) -> int {
    let w = vstd::std_specs::bits::u64_leading_zeros(n as u64) + 1;
    if w > 63 {
        63
    } else {
        w
    }
}

/// The high bits of the `k`-th value.
pub open spec fn high(data: Seq<u64>, k: int) -> u64 {
    data[k] >> (lower_width_of(data.len() as int) as u64)
}

/// The position of the `k`-th value's bit in the unary high-bits vector.
pub open spec fn upper_pos(data: Seq<u64>, k: int) -> int {
    high(data, k) + k + 1
}

/// Whether position `p` of the high-bits vector is set after the first `i` values
/// have each flipped the bit at their position.
pub open spec fn upper_flips(data: Seq<u64>, i: int, p: int) -> bool
    decreases i,
{
    if i <= 0 {
        false
    } else {
        upper_flips(data, i - 1, p) != (upper_pos(data, i - 1) == p)
    }
}

/// The high-bits vector of an encoding of `data`: `2n + 1` bits.
pub open spec fn upper_bits(data: Seq<u64>) -> Seq<bool> {
    Seq::new((2 * data.len() + 1) as nat, |p: int| upper_flips(data, data.len() as int, p))
}

/// The low bits of the first `i` values, `l` bits each, least significant first.
pub open spec fn lower_bits(data: Seq<u64>, l: int, i: int) -> Seq<bool> {
    Seq::new((i * l) as nat, |p: int| bit_of(data[p / l], p % l))
}

/// The `l` least significant bits of a word.
pub open spec fn low_mask(l: int) -> u64 {
    ((1u64 << (l as u64)) - 1) as u64
}

/// The value the encoding of `data` decodes at index `i`: the high bits recovered
/// from the position of the `i`-th set bit of the high-bits vector, joined to the
/// stored low bits. For sorted data this is `data[i]`.
pub open spec fn decoded(data: Seq<u64>, i: int) -> u64 {
    let l = lower_width_of(data.len() as int);
    ((((select1_spec(upper_bits(data), i) - i - 1) as u64) << (l as u64)) | (data[i] & low_mask(
        l,
    ))) as u64
}

/// The values never decrease.
pub open spec fn is_sorted(data: Seq<u64>) -> bool {
    forall|i: int, j: int| 0 <= i <= j < data.len() ==> data[i] <= data[j]
}

/// `r` is the predecessor of `n` in `data`: the greatest value at most `n`.
pub open spec fn is_predecessor(data: Seq<u64>, n: u64, r: u64) -> bool {
    &&& r <= n
    &&& exists|i: int| 0 <= i < data.len() && data[i] == r
    &&& forall|i: int| 0 <= i < data.len() && data[i] <= n ==> data[i] <= r
}

/// The predecessor of a value that is stored is that value.
pub proof fn lemma_predecessor_of_member(data: Seq<u64>, i: int, r: u64)
    requires
        0 <= i < data.len(),
        is_predecessor(data, data[i], r),
    ensures
        r == data[i],
{
}

/// Masking keeps exactly the `l` lowest bits.
proof fn lemma_low_mask_bit(w: u64, l: u64, j: int)
    requires
        l < 64,
    ensures
        bit_of(w & low_mask(l as int), j) == (j < l && bit_of(w, j)),
{
    if 0 <= j < 64 {
        let jj = j as u64;
        assert(((w & (((1u64 << l) - 1) as u64)) >> jj) & 1u64 == 1u64 <==> (jj < l && (w >> jj)
            & 1u64 == 1u64)) by (bit_vector)
            requires
                l < 64,
                jj < 64,
        ;
    }
}

/// A word is its high bits joined to its low bits.
proof fn lemma_high_low(w: u64, l: u64)
    requires
        l < 64,
    ensures
        ((w >> l) << l) | (w & low_mask(l as int)) == w,
{
    assert(((w >> l) << l) | (w & (((1u64 << l) - 1) as u64)) == w) by (bit_vector)
        requires
            l < 64,
    ;
}

/// Shifting right keeps the order of words.
proof fn lemma_shr_mono(a: u64, b: u64, l: u64)
    requires
        a <= b,
    ensures
        a >> l <= b >> l,
{
    assert(a >> l <= b >> l) by (bit_vector)
        requires
            a <= b,
    ;
}

/// Words with different high bits compare as their high bits do.
proof fn lemma_high_order(a: u64, b: u64, l: u64)
    ensures
        a >> l < b >> l ==> a < b,
{
    assert(a >> l < b >> l ==> a < b) by (bit_vector);
}

/// The most significant set bit of a nonzero word is at `63 - leading zeros`.
proof fn lemma_leading_zeros_top(i: u64)
    requires
        i >= 1,
    ensures
        0 <= vstd::std_specs::bits::u64_leading_zeros(i) <= 63,
        i >> ((63 - vstd::std_specs::bits::u64_leading_zeros(i)) as u64) == 1u64,
    decreases i,
{
    reveal(vstd::std_specs::bits::u64_leading_zeros);
    if i == 1 {
        assert(vstd::std_specs::bits::u64_leading_zeros(0) == 64);
        assert(1u64 >> 0u64 == 1u64) by (bit_vector);
    } else {
        let h = i / 2;
        lemma_leading_zeros_top(h);
        let k = (63 - vstd::std_specs::bits::u64_leading_zeros(h)) as u64;
        assert(h >> k == 1u64);
        assert(k < 63) by (bit_vector)
            requires
                h == i / 2,
                h >> k == 1u64,
                k <= 63,
        ;
        let k1 = (k + 1) as u64;
        assert(i >> k1 == 1u64) by (bit_vector)
            requires
                h == i / 2,
                h >> k == 1u64,
                k < 63,
                k1 == k + 1,
        ;
    }
}

/// The low width is between 1 and 63, and for a nonempty sequence it leaves no
/// high part above the number of values.
proof fn lemma_width_facts(n: u64)
    ensures
        1 <= lower_width_of(n as int) <= 63,
        n >= 1 ==> forall|w: u64| #[trigger] (w >> (lower_width_of(n as int) as u64)) <= n,
{
    if n == 0 {
        reveal(vstd::std_specs::bits::u64_leading_zeros);
        return ;
    }
    lemma_leading_zeros_top(n);
    let lz = vstd::std_specs::bits::u64_leading_zeros(n);
    let top = (63 - lz) as u64;
    assert(n >> top == 1u64);
    if lz == 63 {
        assert(n >> 0u64 == n) by (bit_vector);
        assert(lower_width_of(n as int) == 63);
        assert forall|w: u64| #[trigger] (w >> 63u64) <= n by {
            assert((w >> 63u64) <= 1u64) by (bit_vector);
        }
        return ;
    }
    let l = (lz + 1) as u64;
    assert forall|w: u64| #[trigger] (w >> l) <= n by {
        assert((w >> l) < n) by (bit_vector)
            requires
                n >> top == 1u64,
                l + top == 64,
                1 <= l <= 63,
        ;
    }
}

/// The number of the first `i` values whose high-bits position is below `p`.
pub open spec fn count_below(data: Seq<u64>, i: int, p: int) -> int
    decreases i,
{
    if i <= 0 {
        0
    } else {
        count_below(data, i - 1, p) + if upper_pos(data, i - 1) < p {
            1int
        } else {
            0int
        }
    }
}

/// The width facts for the data's own length.
proof fn lemma_data_width(data: Seq<u64>)
    requires
        data.len() <= u64::MAX,
    ensures
        1 <= lower_width_of(data.len() as int) <= 63,
        forall|k: int| 0 <= k < data.len() ==> #[trigger] high(data, k) <= data.len(),
{
    lemma_width_facts(data.len() as u64);
    assert forall|k: int| 0 <= k < data.len() implies #[trigger] high(data, k) <= data.len() by {
        assert((data[k] >> (lower_width_of(data.len() as int) as u64)) <= data.len() as u64);
    }
}

/// For sorted data the high parts never decrease and the high-bits positions
/// strictly increase.
proof fn lemma_positions_increase(data: Seq<u64>, k: int, m: int)
    requires
        is_sorted(data),
        0 <= k <= m < data.len(),
    ensures
        high(data, k) <= high(data, m),
        k < m ==> upper_pos(data, k) < upper_pos(data, m),
{
    lemma_shr_mono(data[k], data[m], lower_width_of(data.len() as int) as u64);
}

/// For sorted data a bit of the high-bits vector is set exactly where a value's
/// position falls.
proof fn lemma_flips_sorted(data: Seq<u64>, i: int, p: int)
    requires
        is_sorted(data),
        0 <= i <= data.len(),
    ensures
        upper_flips(data, i, p) == exists|k: int| 0 <= k < i && #[trigger] upper_pos(data, k) == p,
    decreases i,
{
    if i > 0 {
        lemma_flips_sorted(data, i - 1, p);
        if upper_pos(data, i - 1) == p {
            assert forall|k: int| 0 <= k < i - 1 implies #[trigger] upper_pos(data, k) != p by {
                lemma_positions_increase(data, k, i - 1);
            }
        }
    }
}

/// Counting positions below `p + 1` adds the value whose position is `p`, if any.
proof fn lemma_count_below_step(data: Seq<u64>, i: int, p: int)
    requires
        is_sorted(data),
        0 <= i <= data.len(),
    ensures
        count_below(data, i, p + 1) == count_below(data, i, p) + if exists|k: int|
            0 <= k < i && #[trigger] upper_pos(data, k) == p {
            1int
        } else {
            0int
        },
    decreases i,
{
    if i > 0 {
        lemma_count_below_step(data, i - 1, p);
        if upper_pos(data, i - 1) == p {
            assert forall|k: int| 0 <= k < i - 1 implies #[trigger] upper_pos(data, k) != p by {
                lemma_positions_increase(data, k, i - 1);
            }
        } else if exists|k: int| 0 <= k < i && #[trigger] upper_pos(data, k) == p {
            let k = choose|k: int| 0 <= k < i && #[trigger] upper_pos(data, k) == p;
            assert(0 <= k < i - 1);
        }
    }
}

/// Where the values below index `c` have positions below `p` and the others do
/// not, `c` of the first `m` values (or all `m` of them) are below `p`.
proof fn lemma_count_below_split(data: Seq<u64>, m: int, p: int, c: int)
    requires
        0 <= c <= data.len(),
        0 <= m <= data.len(),
        forall|k: int| 0 <= k < c ==> #[trigger] upper_pos(data, k) < p,
        forall|k: int| c <= k < data.len() ==> #[trigger] upper_pos(data, k) >= p,
    ensures
        count_below(data, m, p) == if m < c {
            m
        } else {
            c
        },
    decreases m,
{
    if m > 0 {
        lemma_count_below_split(data, m - 1, p, c);
    }
}

/// For sorted data the set bits before `p` of the high-bits vector are the values
/// whose positions are below `p`.
proof fn lemma_ones_upper(data: Seq<u64>, p: int)
    requires
        is_sorted(data),
        0 <= p <= 2 * data.len() + 1,
    ensures
        ones(upper_bits(data), p) == count_below(data, data.len() as int, p),
    decreases p,
{
    if p > 0 {
        lemma_ones_upper(data, p - 1);
        lemma_count_below_step(data, data.len() as int, p - 1);
        lemma_flips_sorted(data, data.len() as int, p - 1);
        let u = upper_bits(data);
        assert(u[p - 1] == upper_flips(data, data.len() as int, p - 1));
        assert(ones(u, p) == ones(u, p - 1) + if u[p - 1] {
            1int
        } else {
            0int
        });
        assert(count_below(data, data.len() as int, p) == count_below(
            data,
            data.len() as int,
            p - 1,
        ) + if exists|k: int| 0 <= k < data.len() && #[trigger] upper_pos(data, k) == p - 1 {
            1int
        } else {
            0int
        });
    } else {
        lemma_count_below_split(data, data.len() as int, 0, 0);
    }
}

/// For sorted data the `i`-th set bit of the high-bits vector is the `i`-th
/// value's position.
proof fn lemma_select1_upper(data: Seq<u64>, i: int)
    requires
        is_sorted(data),
        data.len() >= 1,
        data.len() <= u64::MAX,
        0 <= i < data.len(),
    ensures
        select1_spec(upper_bits(data), i) == upper_pos(data, i),
{
    lemma_data_width(data);
    let u = upper_bits(data);
    let g = upper_pos(data, i);
    assert(0 <= g < 2 * data.len() + 1);
    lemma_flips_sorted(data, data.len() as int, g);
    assert(u[g]);
    assert forall|k: int| 0 <= k < data.len() implies (#[trigger] upper_pos(data, k) < g) == (k
        < i) by {
        if k < i {
            lemma_positions_increase(data, k, i);
        } else {
            lemma_positions_increase(data, i, k);
        }
    }
    lemma_count_below_split(data, data.len() as int, g, i);
    lemma_ones_upper(data, g);
    assert(is_select1(u, i, g));
    lemma_select1_unique(u, i, g);
}

/// Sorted data splits at some index into the values whose high part is below `u`
/// and the others.
proof fn lemma_partition_point(data: Seq<u64>, u: int, m: int) -> (c: int)
    requires
        is_sorted(data),
        0 <= m <= data.len(),
    ensures
        0 <= c <= m,
        forall|k: int| 0 <= k < c ==> #[trigger] high(data, k) < u,
        forall|k: int| c <= k < m ==> #[trigger] high(data, k) >= u,
    decreases m,
{
    if m == 0 {
        0
    } else {
        let c = lemma_partition_point(data, u, m - 1);
        if c == m - 1 && high(data, m - 1) < u {
            m
        } else {
            if c < m - 1 {
                lemma_positions_increase(data, c, m - 1);
            }
            c
        }
    }
}

/// For sorted data, the set bits before the clear bit of rank `u` in the
/// high-bits vector are the values whose high part is below `u`.
proof fn lemma_rank_select0(data: Seq<u64>, u: int, c: int)
    requires
        is_sorted(data),
        data.len() >= 1,
        data.len() <= u64::MAX,
        0 <= u,
        0 <= c <= data.len(),
        forall|k: int| 0 <= k < c ==> #[trigger] high(data, k) < u,
        forall|k: int| c <= k < data.len() ==> #[trigger] high(data, k) >= u,
    ensures
        rank1_spec(upper_bits(data), select0_spec(upper_bits(data), u)) == c,
{
    lemma_data_width(data);
    let n = data.len() as int;
    let s = upper_bits(data);
    let p = u + c;
    if p < 2 * n + 1 {
        assert forall|k: int| 0 <= k < n implies (#[trigger] upper_pos(data, k) < p) == (k < c)
            && upper_pos(data, k) != p by {}
        lemma_flips_sorted(data, n, p);
        assert(!s[p]);
        lemma_count_below_split(data, n, p, c);
        lemma_ones_upper(data, p);
        assert(is_select0(s, u, p));
        lemma_select0_unique(s, u, p);
    } else {
        if c < n {
            assert(high(data, c) >= u);
            assert(false);
        }
        assert forall|k: int| 0 <= k < n implies #[trigger] upper_pos(data, k) < 2 * n + 1 by {}
        lemma_count_below_split(data, n, 2 * n + 1, n);
        lemma_ones_upper(data, 2 * n + 1);
        lemma_select0_none(s, u);
    }
}

/// The values of sorted data are what their encoding decodes: the high part is
/// recovered from the high-bits vector, the low part is stored as is.
pub proof fn lemma_decoded_sorted(data: Seq<u64>, i: int)
    requires
        is_sorted(data),
        data.len() <= u64::MAX,
        0 <= i < data.len(),
    ensures
        decoded(data, i) == data[i],
{
    lemma_data_width(data);
    lemma_select1_upper(data, i);
    let l = lower_width_of(data.len() as int) as u64;
    assert((select1_spec(upper_bits(data), i) - i - 1) as u64 == data[i] >> l);
    lemma_high_low(data[i], l);
}

/// An Elias-Fano encoding of a sequence of 64-bit values. Each value is split into
/// `lower_len` low bits, stored verbatim, and its high part, stored in unary: value
/// `i` sets bit `high + i + 1` of the high-bits vector, which has `2n + 1` bits for
/// `n` values. Access and predecessor queries go through rank and select on it.
pub struct EliasFanoVec {
    upper_vec: RsVec,
    lower_vec: BitVec,
    lower_len: usize,
    data: Ghost<Seq<u64>>,
}

impl View for EliasFanoVec {
    type V = Seq<u64>;

    /// The values the vector was built from.
    closed spec fn view(&self) -> Seq<u64> {
        self.data@
    }
}

impl EliasFanoVec {
    /// The high-bits vector and the low bits encode the values.
    pub closed spec fn wf(&self) -> bool {
        let data = self.data@;
        let n = data.len() as int;
        &&& 2 * n + 1 <= max_len()
        &&& self.lower_len == lower_width_of(n)
        &&& self.upper_vec.wf()
        &&& self.upper_vec@ == upper_bits(data)
        &&& self.lower_vec.wf()
        &&& self.lower_vec@ == lower_bits(data, self.lower_len as int, n)
    }

    /// Create a new Elias-Fano vector by compressing the given data.
    pub fn new(data: &Vec<u64>) -> (r: Self)
        requires
            data@.len() * 64 <= max_len(),
        ensures
            r.wf(),
            r@ == data@,
    {
        let ghost d = data@;
        let n = data.len();
        let lower_width = (n as u64).leading_zeros() as usize + 1;
        // a shift by the width stays inside a word
        let lower_width = if lower_width > 63 {
            63
        } else {
            lower_width
        };
        proof {
            lemma_width_facts(n as u64);
            assert(n * lower_width <= 64 * n) by (nonlinear_arith)
                requires
                    lower_width <= 63,
            ;
        }
        let mut upper_vec = BitVec::from_zeros(n * 2 + 1);
        let mut lower_vec = BitVec::with_capacity(n * lower_width);
        let mut i: usize = 0;
        assert(upper_vec@ =~= Seq::new((2 * n + 1) as nat, |p: int| upper_flips(d, 0, p)));
        assert(lower_vec@ =~= lower_bits(d, lower_width as int, 0));
        while i < n
            invariant
                d == data@,
                n == d.len(),
                n * 64 <= max_len(),
                lower_width == lower_width_of(n as int),
                1 <= lower_width <= 63,
                n >= 1 ==> forall|w: u64| #[trigger] (w >> (lower_width as u64)) <= n,
                i <= n,
                upper_vec.wf(),
                upper_vec@ == Seq::new((2 * n + 1) as nat, |p: int| upper_flips(d, i as int, p)),
                lower_vec.wf(),
                lower_vec@ == lower_bits(d, lower_width as int, i as int),
            decreases n - i,
        {
            let word = data[i];
            let lw = lower_width as u64;
            assert(1u64 << lw >= 1u64) by (bit_vector)
                requires
                    lw <= 63,
            ;
            let upper = (word >> (lower_width as u64)) as usize;
            let lower = word & ((1u64 << (lower_width as u64)) - 1);
            assert(upper <= n);
            let ghost before = upper_vec@;
            upper_vec.flip_bit(upper + i + 1);
            proof {
                assert(upper_vec@ =~= Seq::new(
                    (2 * n + 1) as nat,
                    |p: int| upper_flips(d, i + 1, p),
                ));
            }
            let ghost lower_before = lower_vec@;
            proof {
                assert(lower_vec@.len() == i * lower_width);
                assert((i + 1) * lower_width == i * lower_width + lower_width) by (nonlinear_arith);
                assert((i + 1) * lower_width <= 64 * n) by (nonlinear_arith)
                    requires
                        i < n,
                        lower_width <= 63,
                ;
            }
            lower_vec.append_bits(lower, lower_width);
            proof {
                let l = lower_width as int;
                assert forall|p: int| 0 <= p < (i + 1) * l implies #[trigger] lower_vec@[p] == bit_of(
                    d[p / l],
                    p % l,
                ) by {
                    if p >= i * l {
                        let j = p - i * l;
                        vstd::arithmetic::div_mod::lemma_fundamental_div_mod_converse(p, l, i as int, j);
                        lemma_low_mask_bit(word, lower_width as u64, j);
                    }
                }
                assert(lower_vec@ =~= lower_bits(d, l, i + 1));
            }
            i = i + 1;
        }
        proof {
            assert(upper_vec@ =~= upper_bits(d));
            upper_vec.lemma_len_bound();
        }
        Self {
            upper_vec: RsVec::from_bit_vec(upper_vec),
            lower_vec,
            lower_len: lower_width,
            data: Ghost(d),
        }
    }

    /// Returns the number of elements in the vector.
    pub fn len(&self) -> (r: usize)
        requires
            self.wf(),
        ensures
            r == self@.len(),
    {
        let ghost n = self@.len() as int;
        proof {
            lemma_width_facts(n as u64);
            assert(self.lower_len > 0);
            assert(self.lower_vec@.len() == n * self.lower_len);
            vstd::arithmetic::div_mod::lemma_fundamental_div_mod_converse(
                n * self.lower_len,
                self.lower_len as int,
                n,
                0,
            );
        }
        self.lower_vec.len() / self.lower_len
    }

    /// Returns true if the vector is empty.
    pub fn is_empty(&self) -> (r: bool)
        requires
            self.wf(),
        ensures
            r == (self@.len() == 0),
    {
        self.len() == 0
    }

    /// The low bits read for value `k` are the value's low bits.
    proof fn lemma_lower_part(&self, k: int, r: u64)
        requires
            self.wf(),
            self@.len() >= 1,
            0 <= k < self@.len(),
            forall|j: int|
                0 <= j < 64 ==> bit_of(r, j) == (j < self.lower_len && self.lower_vec@[k
                    * self.lower_len + j]),
        ensures
            r == self@[k] & low_mask(self.lower_len as int),
    {
        let l = self.lower_len as int;
        lemma_data_width(self@);
        assert forall|j: int| 0 <= j < 64 implies bit_of(r, j) == bit_of(
            self@[k] & low_mask(l),
            j,
        ) by {
            lemma_low_mask_bit(self@[k], l as u64, j);
            if j < l {
                vstd::arithmetic::div_mod::lemma_fundamental_div_mod_converse(k * l + j, l, k, j);
                assert(k * l + j < self@.len() * l) by (nonlinear_arith)
                    requires
                        0 <= k < self@.len(),
                        0 <= j < l,
                ;
            }
        }
        lemma_bits_equal(r, self@[k] & low_mask(l));
    }

    /// Returns the element at the given index.
    pub fn get(&self, index: usize) -> (r: u64)
        requires
            self.wf(),
            index < self@.len(),
        ensures
            r == decoded(self@, index as int),
            is_sorted(self@) ==> r == self@[index as int],
    {
        let ghost data = self@;
        let ghost u = self.upper_vec@;
        proof {
            lemma_data_width(data);
            self.upper_vec.lemma_len_bound();
            self.lower_vec.lemma_len_bound();
            assert(self.lower_vec@.len() == data.len() * self.lower_len);
            // position 0 of the high-bits vector is never set
            assert(!u[0]) by {
                lemma_flips_zero(data, data.len() as int);
            }
            let sel = select1_spec(u, index as int);
            if exists|p: int| is_select1(u, index as int, p) {
                assert(is_select1(u, index as int, sel));
                assert(ones(u, 0) == 0);
                assert(ones(u, 1) == 0);
                lemma_ones_step(u, 1, sel);
            }
            assert(sel >= index + 1);
            assert((index + 1) * self.lower_len <= data.len() * self.lower_len) by (nonlinear_arith)
                requires
                    index < data.len(),
            ;
            assert((index + 1) * self.lower_len == index * self.lower_len + self.lower_len)
                by (nonlinear_arith);
            if is_sorted(data) {
                lemma_decoded_sorted(data, index as int);
            }
        }
        let upper = self.upper_vec.select1(index) - index - 1;
        let lower = self.lower_vec.get_bits(index * self.lower_len, self.lower_len);
        proof {
            self.lemma_lower_part(index as int, lower);
        }
        ((upper as u64) << (self.lower_len as u64)) | lower
    }

    /// The predecessor of `n`: the greatest value that is at most `n`.
    pub fn pred(&self, n: u64) -> (r: u64)
        requires
            self.wf(),
            is_sorted(self@),
            exists|i: int| 0 <= i < self@.len() && self@[i] <= n,
        ensures
            is_predecessor(self@, n, r),
    {
        let ghost data = self@;
        let ghost l = self.lower_len as u64;
        let len = self.len();
        proof {
            lemma_data_width(data);
            self.upper_vec.lemma_len_bound();
            self.lower_vec.lemma_len_bound();
            assert(self.lower_vec@.len() == data.len() * self.lower_len);
        }
        let upper = n >> (self.lower_len as u64);
        // every stored high part is at most `len`, so a larger one is above them all,
        // as is `len + 1`
        let (u, u1) = if upper <= len as u64 {
            (upper as usize, upper as usize + 1)
        } else {
            (len + 1, len + 1)
        };
        let ghost c0 = lemma_partition_point(data, u as int, data.len() as int);
        let ghost c1 = lemma_partition_point(data, u1 as int, data.len() as int);
        proof {
            lemma_rank_select0(data, u as int, c0);
            lemma_rank_select0(data, u1 as int, c1);
            // values whose high part is below `upper` are below `n`, those above are above it
            assert forall|k: int| 0 <= k < data.len() implies (#[trigger] high(data, k) < upper
                ==> data[k] < n) && (high(data, k) > upper ==> data[k] > n) by {
                lemma_high_order(data[k], n, l);
                lemma_high_order(n, data[k], l);
            }
        }
        let lower_bound = self.upper_vec.rank1(self.upper_vec.select0(u));
        let upper_bound = self.upper_vec.rank1(self.upper_vec.select0(u1));
        if lower_bound < upper_bound {
            proof {
                lemma_select1_upper(data, lower_bound as int);
                assert((lower_bound + 1) * self.lower_len <= data.len() * self.lower_len)
                    by (nonlinear_arith)
                    requires
                        lower_bound < data.len(),
                ;
                assert((lower_bound + 1) * self.lower_len == lower_bound * self.lower_len
                    + self.lower_len) by (nonlinear_arith);
            }
            let mut lower_candidate = self.lower_vec.get_bits(
                lower_bound * self.lower_len,
                self.lower_len,
            );
            let result_upper = ((self.upper_vec.select1(lower_bound) - lower_bound - 1) as u64)
                << (self.lower_len as u64);
            proof {
                self.lemma_lower_part(lower_bound as int, lower_candidate);
                lemma_high_low(data[lower_bound as int], l);
                assert(high(data, lower_bound as int) == upper);
            }
            if (result_upper | lower_candidate) <= n {
                let mut k = lower_bound + 1;
                while k < upper_bound
                    invariant
                        self.wf(),
                        data == self@,
                        is_sorted(data),
                        data.len() >= 1,
                        l == self.lower_len,
                        1 <= l <= 63,
                        self.lower_vec@.len() == data.len() * self.lower_len,
                        data.len() * self.lower_len <= max_len(),
                        lower_bound < k <= upper_bound <= data.len(),
                        forall|j: int|
                            lower_bound <= j < upper_bound ==> #[trigger] high(data, j) == upper,
                        result_upper == (upper << l),
                        (result_upper | lower_candidate) == data[k - 1],
                        data[k - 1] <= n,
                    decreases upper_bound - k,
                {
                    proof {
                        assert((k + 1) * self.lower_len <= data.len() * self.lower_len)
                            by (nonlinear_arith)
                            requires
                                k < data.len(),
                        ;
                        assert((k + 1) * self.lower_len == k * self.lower_len + self.lower_len)
                            by (nonlinear_arith);
                    }
                    let next_candidate = self.lower_vec.get_bits(k * self.lower_len, self.lower_len);
                    proof {
                        self.lemma_lower_part(k as int, next_candidate);
                        lemma_high_low(data[k as int], l);
                        assert(high(data, k as int) == upper);
                    }
                    if result_upper | next_candidate > n {
                        proof {
                            assert forall|i: int| 0 <= i < data.len() && data[i] <= n implies #[trigger] data[i]
                                <= data[k - 1] by {
                                if i >= k {
                                    assert(data[k as int] <= data[i]);
                                }
                            }
                        }
                        return result_upper | lower_candidate;
                    } else {
                        lower_candidate = next_candidate;
                    }
                    k = k + 1;
                }
                proof {
                    assert forall|i: int| 0 <= i < data.len() && data[i] <= n implies #[trigger] data[i]
                        <= data[upper_bound - 1] by {
                        if i >= upper_bound {
                            assert(high(data, i) >= u1);
                        }
                    }
                }
                return result_upper | lower_candidate;
            }
        }
        // the predecessor is the last value of the buckets below that of `n`
        proof {
            let w = choose|i: int| 0 <= i < data.len() && data[i] <= n;
            if lower_bound == 0 {
                if upper_bound > 0 {
                    assert(data[0] <= data[w]);
                } else {
                    assert(high(data, w) >= u1);
                }
            }
            assert forall|i: int| 0 <= i < data.len() && data[i] <= n implies #[trigger] data[i]
                <= data[lower_bound - 1] by {
                if i >= lower_bound {
                    if lower_bound < upper_bound {
                        assert(data[lower_bound as int] <= data[i]);
                    } else {
                        assert(high(data, i) >= u1);
                    }
                }
            }
            lemma_select1_upper(data, lower_bound - 1);
            assert(lower_bound * self.lower_len <= data.len() * self.lower_len) by (nonlinear_arith)
                requires
                    lower_bound <= data.len(),
            ;
            assert(lower_bound * self.lower_len == (lower_bound - 1) * self.lower_len
                + self.lower_len) by (nonlinear_arith);
        }
        let result_upper = ((self.upper_vec.select1(lower_bound - 1) - lower_bound) as u64)
            << (self.lower_len as u64);
        let lower_candidate = self.lower_vec.get_bits(
            (lower_bound - 1) * self.lower_len,
            self.lower_len,
        );
        proof {
            self.lemma_lower_part(lower_bound - 1, lower_candidate);
            lemma_high_low(data[lower_bound - 1], l);
        }
        result_upper | lower_candidate
    }
}

/// No value's position is 0.
proof fn lemma_flips_zero(data: Seq<u64>, i: int)
    requires
        0 <= i <= data.len(),
    ensures
        !upper_flips(data, i, 0),
    decreases i,
{
    if i > 0 {
        lemma_flips_zero(data, i - 1);
    }
}

} // verus!
