//! Trees encoded as balanced parentheses: an opening parenthesis is a set bit, a
//! closing one a clear bit. This module holds the excess model the trees are
//! specified over.
use vstd::prelude::*;

use crate::rs_vec::ones;

pub mod bp;
pub mod mmt;

verus! {

/// +1 for an opening parenthesis (a set bit), -1 for a closing one.
pub open spec fn step(s: Seq<bool>, k: int) -> int {
    if s[k] {
        1
    } else {
        -1
    }
}

/// The excess of the parentheses before position `p`: opening minus closing ones.
/// The excess up to and including position `i` is `excess_before(s, i + 1)`.
pub open spec fn excess_before(s: Seq<bool>, p: int) -> int
    decreases p,
{
    if p <= 0 {
        0
    } else {
        excess_before(s, p - 1) + step(s, p - 1)
    }
}

/// The least of `excess_before(s, j)` for `a <= j <= c`.
pub open spec fn excess_min(s: Seq<bool>, a: int, c: int) -> int
    decreases c - a,
{
    if c <= a {
        excess_before(s, a)
    } else {
        let m = excess_min(s, a, c - 1);
        let e = excess_before(s, c);
        if e < m {
            e
        } else {
            m
        }
    }
}

/// The greatest of `excess_before(s, j)` for `a <= j <= c`.
pub open spec fn excess_max(s: Seq<bool>, a: int, c: int) -> int
    decreases c - a,
{
    if c <= a {
        excess_before(s, a)
    } else {
        let m = excess_max(s, a, c - 1);
        let e = excess_before(s, c);
        if e > m {
            e
        } else {
            m
        }
    }
}

/// The excess is the number of set bits minus the number of clear bits.
pub proof fn lemma_excess_ones(s: Seq<bool>, p: int)
    requires
        0 <= p,
    ensures
        excess_before(s, p) == 2 * ones(s, p) - p,
    decreases p,
{
    if p > 0 {
        lemma_excess_ones(s, p - 1);
    }
}

/// The excess before `p` depends only on the bits before `p`.
pub proof fn lemma_excess_prefix(s: Seq<bool>, t: Seq<bool>, p: int)
    requires
        0 <= p <= s.len(),
        p <= t.len(),
        forall|k: int| 0 <= k < p ==> s[k] == t[k],
    ensures
        excess_before(s, p) == excess_before(t, p),
    decreases p,
{
    if p > 0 {
        lemma_excess_prefix(s, t, p - 1);
    }
}

/// Appending a parenthesis adds its step to the total excess.
pub proof fn lemma_excess_push(s: Seq<bool>, b: bool)
    ensures
        excess_before(s.push(b), s.len() + 1int) == excess_before(s, s.len() as int) + if b {
            1int
        } else {
            -1int
        },
{
    lemma_excess_prefix(s.push(b), s, s.len() as int);
}

/// The excess changes by at most one per position.
pub proof fn lemma_excess_lipschitz(s: Seq<bool>, p: int, q: int)
    requires
        0 <= p <= q,
    ensures
        p - q <= excess_before(s, q) - excess_before(s, p) <= q - p,
    decreases q - p,
{
    if p < q {
        lemma_excess_lipschitz(s, p, q - 1);
    }
}

/// Every excess in a range lies between the range's least and greatest.
pub proof fn lemma_excess_min_max_bound(s: Seq<bool>, a: int, c: int, j: int)
    requires
        a <= j <= c,
    ensures
        excess_min(s, a, c) <= excess_before(s, j) <= excess_max(s, a, c),
    decreases c - a,
{
    if j < c {
        lemma_excess_min_max_bound(s, a, c - 1, j);
    }
}

/// The least and the greatest excess of a range are attained in it.
pub proof fn lemma_excess_min_max_attained(s: Seq<bool>, a: int, c: int) -> (r: (int, int))
    requires
        a <= c,
    ensures
        a <= r.0 <= c,
        a <= r.1 <= c,
        excess_before(s, r.0) == excess_min(s, a, c),
        excess_before(s, r.1) == excess_max(s, a, c),
    decreases c - a,
{
    if c == a {
        (a, a)
    } else {
        let (i, j) = lemma_excess_min_max_attained(s, a, c - 1);
        let i2 = if excess_before(s, c) < excess_min(s, a, c - 1) {
            c
        } else {
            i
        };
        let j2 = if excess_before(s, c) > excess_max(s, a, c - 1) {
            c
        } else {
            j
        };
        (i2, j2)
    }
}

/// The extremes of a range bound those of any range inside it.
pub proof fn lemma_excess_min_max_sub(s: Seq<bool>, a: int, c: int, a2: int, c2: int)
    requires
        a <= a2 <= c2 <= c,
    ensures
        excess_min(s, a, c) <= excess_min(s, a2, c2),
        excess_max(s, a2, c2) <= excess_max(s, a, c),
{
    let (i, j) = lemma_excess_min_max_attained(s, a2, c2);
    lemma_excess_min_max_bound(s, a, c, i);
    lemma_excess_min_max_bound(s, a, c, j);
}

/// The extremes of a range split at `m` combine those of its two parts.
pub proof fn lemma_excess_min_max_split(s: Seq<bool>, a: int, m: int, c: int)
    requires
        a <= m < c,
    ensures
        excess_min(s, a, c) == (if excess_min(s, a, m) <= excess_min(s, m + 1, c) {
            excess_min(s, a, m)
        } else {
            excess_min(s, m + 1, c)
        }),
        excess_max(s, a, c) == (if excess_max(s, a, m) >= excess_max(s, m + 1, c) {
            excess_max(s, a, m)
        } else {
            excess_max(s, m + 1, c)
        }),
    decreases c - a,
{
    if c > m + 1 {
        lemma_excess_min_max_split(s, a, m, c - 1);
    }
}

/// Walking in steps of one, the excess takes every value between its least and
/// its greatest in a range.
pub proof fn lemma_excess_between(s: Seq<bool>, a: int, c: int, t: int) -> (j: int)
    requires
        a <= c,
        excess_min(s, a, c) <= t <= excess_max(s, a, c),
    ensures
        a <= j <= c,
        excess_before(s, j) == t,
    decreases c - a,
{
    if excess_before(s, c) == t {
        c
    } else {
        assert(c > a);
        if excess_min(s, a, c - 1) <= t <= excess_max(s, a, c - 1) {
            lemma_excess_between(s, a, c - 1, t)
        } else {
            lemma_excess_min_max_bound(s, a, c - 1, c - 1);
            assert(false);
            c
        }
    }
}

} // verus!
