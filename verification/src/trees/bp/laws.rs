//! What the navigation operations of a balanced-parentheses tree promise together.
use vstd::prelude::*;

use crate::bits::max_len;
use crate::rs_vec::{ones, select1_spec};
use crate::trees::bp::{
    bwd_match, bwd_search_spec, depth_spec, enclose_excess, first_child_spec, fwd_match,
    fwd_search_spec, is_bwd_search, is_fwd_search, last_child_spec, lemma_bwd_search_unique,
    lemma_fwd_search_unique, level_ancestor_spec, level_next_spec, level_prev_spec, level_rel,
    next_sibling_spec, parent_spec, previous_sibling_spec,
};
use crate::trees::{excess_before, lemma_excess_between, lemma_excess_min_max_bound, step};

verus! {

/// A balanced parenthesis sequence: the excess never drops below zero and ends at
/// zero.
pub open spec fn is_balanced(s: Seq<bool>) -> bool {
    &&& excess_before(s, s.len() as int) == 0
    &&& forall|p: int| 0 <= p <= s.len() ==> #[trigger] excess_before(s, p) >= 0
}

/// Walking forward from above `t` without meeting `t`, the excess stays above it.
proof fn lemma_stays_above(s: Seq<bool>, a: int, b: int, t: int)
    requires
        0 <= a <= b,
        excess_before(s, a) > t,
        forall|q: int| a < q <= b ==> #[trigger] excess_before(s, q) != t,
    ensures
        forall|q: int| a <= q <= b ==> #[trigger] excess_before(s, q) > t,
    decreases b - a,
{
    if a < b {
        lemma_stays_above(s, a, b - 1, t);
        assert(excess_before(s, b) == excess_before(s, b - 1) + step(s, b - 1));
    }
}

/// Walking forward from below `t` without meeting `t`, the excess stays below it.
proof fn lemma_stays_below(s: Seq<bool>, a: int, b: int, t: int)
    requires
        0 <= a <= b,
        excess_before(s, a) < t,
        forall|q: int| a < q <= b ==> #[trigger] excess_before(s, q) != t,
    ensures
        forall|q: int| a <= q <= b ==> #[trigger] excess_before(s, q) < t,
    decreases b - a,
{
    if a < b {
        lemma_stays_below(s, a, b - 1, t);
        assert(excess_before(s, b) == excess_before(s, b - 1) + step(s, b - 1));
    }
}

/// Walking backward from above `t` without meeting `t`, the excess stays above it.
proof fn lemma_stays_above_back(s: Seq<bool>, a: int, b: int, t: int)
    requires
        0 <= a <= b,
        excess_before(s, b) > t,
        forall|q: int| a <= q < b ==> #[trigger] excess_before(s, q) != t,
    ensures
        forall|q: int| a <= q <= b ==> #[trigger] excess_before(s, q) > t,
    decreases b - a,
{
    if a < b {
        lemma_stays_above_back(s, a + 1, b, t);
        assert(excess_before(s, a + 1) == excess_before(s, a) + step(s, a));
    }
}

/// Walking backward from below `t` without meeting `t`, the excess stays below it.
proof fn lemma_stays_below_back(s: Seq<bool>, a: int, b: int, t: int)
    requires
        0 <= a <= b,
        excess_before(s, b) < t,
        forall|q: int| a <= q < b ==> #[trigger] excess_before(s, q) != t,
    ensures
        forall|q: int| a <= q <= b ==> #[trigger] excess_before(s, q) < t,
    decreases b - a,
{
    if a < b {
        lemma_stays_below_back(s, a + 1, b, t);
        assert(excess_before(s, a + 1) == excess_before(s, a) + step(s, a));
    }
}

/// Where a forward match exists, a first one does.
proof fn lemma_first_fwd(s: Seq<bool>, index: int, rel: int, j: int) -> (f: int)
    requires
        fwd_match(s, index, rel, j),
    ensures
        fwd_match(s, index, rel, f),
        f <= j,
        forall|k: int| index < k < f ==> !#[trigger] fwd_match(s, index, rel, k),
    decreases j - index,
{
    if exists|k: int| index < k < j && #[trigger] fwd_match(s, index, rel, k) {
        let k = choose|k: int| index < k < j && #[trigger] fwd_match(s, index, rel, k);
        lemma_first_fwd(s, index, rel, k)
    } else {
        j
    }
}

/// Where a backward match exists, a last one does.
proof fn lemma_last_bwd(s: Seq<bool>, index: int, rel: int, i: int) -> (l: int)
    requires
        bwd_match(s, index, rel, i),
    ensures
        bwd_match(s, index, rel, l),
        i <= l,
        forall|k: int| l < k < index ==> !#[trigger] bwd_match(s, index, rel, k),
    decreases index - i,
{
    if exists|k: int| i < k < index && #[trigger] bwd_match(s, index, rel, k) {
        let k = choose|k: int| i < k < index && #[trigger] bwd_match(s, index, rel, k);
        lemma_last_bwd(s, index, rel, k)
    } else {
        i
    }
}

/// The result that `fwd_search_spec` names is the forward search's result.
pub proof fn lemma_fwd_search_spec_valid(s: Seq<bool>, index: int, rel: int)
    requires
        s.len() <= max_len(),
        0 <= index,
    ensures
        is_fwd_search(s, index, rel, fwd_search_spec(s, index, rel)),
{
    if !exists|j: usize| #[trigger] is_fwd_search(s, index, rel, Some(j)) {
        if exists|k: int| #[trigger] fwd_match(s, index, rel, k) {
            let k = choose|k: int| #[trigger] fwd_match(s, index, rel, k);
            let f = lemma_first_fwd(s, index, rel, k);
            assert(is_fwd_search(s, index, rel, Some(f as usize)));
        }
    }
}

/// The result that `bwd_search_spec` names is the backward search's result.
pub proof fn lemma_bwd_search_spec_valid(s: Seq<bool>, index: int, rel: int)
    requires
        s.len() <= max_len(),
    ensures
        is_bwd_search(s, index, rel, bwd_search_spec(s, index, rel)),
{
    if !exists|j: usize| #[trigger] is_bwd_search(s, index, rel, Some(j)) {
        if exists|k: int| #[trigger] bwd_match(s, index, rel, k) {
            let k = choose|k: int| #[trigger] bwd_match(s, index, rel, k);
            let l = lemma_last_bwd(s, index, rel, k);
            assert(is_bwd_search(s, index, rel, Some(l as usize)));
        }
    }
}

/// Between an opening parenthesis and the first position where the excess falls
/// back to what it was before it, the excess stays above that level.
proof fn lemma_above_until_close(s: Seq<bool>, i: int, j: usize, k: int)
    requires
        0 <= i < s.len(),
        s[i],
        is_fwd_search(s, i, -1, Some(j)),
        i < k <= j,
    ensures
        excess_before(s, k) >= excess_before(s, i) + 1,
    decreases k - i,
{
    if k > i + 1 {
        lemma_above_until_close(s, i, j, k - 1);
        assert(!fwd_match(s, i, -1, k - 1));
    }
}

/// Between a closing parenthesis and the last position before it where the excess
/// is one less than before it, the excess stays at least at that level plus one.
proof fn lemma_above_since_open(s: Seq<bool>, j: int, i: usize, k: int)
    requires
        0 <= j < s.len(),
        !s[j],
        is_bwd_search(s, j, -1, Some(i)),
        i < k <= j,
    ensures
        excess_before(s, k) >= excess_before(s, j),
    decreases j - k,
{
    if k < j {
        lemma_above_since_open(s, j, i, k + 1);
        assert(!bwd_match(s, j, -1, k));
    }
}

/// `close` and `open` match each other: the closing parenthesis that `close` finds
/// for an opening one is a closing parenthesis, and `open` finds the opening one
/// back from it.
pub proof fn lemma_close_then_open(s: Seq<bool>, i: int)
    requires
        s.len() <= max_len(),
        0 <= i < s.len(),
        s[i],
        fwd_search_spec(s, i, -1) is Some,
    ensures
        ({
            let j = fwd_search_spec(s, i, -1)->0 as int;
            &&& !s[j]
            &&& bwd_search_spec(s, j, -1) == Some(i as usize)
        }),
{
    let j = choose|j: usize| #[trigger] is_fwd_search(s, i, -1, Some(j));
    assert(is_fwd_search(s, i, -1, Some(j)));
    lemma_above_until_close(s, i, j, j as int);
    assert(!s[j as int]);
    assert forall|k: int| i < k < j implies !#[trigger] bwd_match(s, j as int, -1, k) by {
        lemma_above_until_close(s, i, j, k);
    }
    assert(is_bwd_search(s, j as int, -1, Some(i as usize)));
    lemma_bwd_search_unique(s, j as int, -1, Some(i as usize));
}

/// `open` and `close` match each other: the opening parenthesis that `open` finds
/// for a closing one is an opening parenthesis, and `close` finds the closing one
/// back from it.
pub proof fn lemma_open_then_close(s: Seq<bool>, j: int)
    requires
        s.len() <= max_len(),
        0 <= j < s.len(),
        !s[j],
        bwd_search_spec(s, j, -1) is Some,
    ensures
        ({
            let i = bwd_search_spec(s, j, -1)->0 as int;
            &&& s[i]
            &&& fwd_search_spec(s, i, -1) == Some(j as usize)
        }),
{
    let i = choose|i: usize| #[trigger] is_bwd_search(s, j, -1, Some(i));
    assert(is_bwd_search(s, j, -1, Some(i)));
    lemma_above_since_open(s, j, i, i + 1);
    assert(s[i as int]);
    assert forall|k: int| i < k < j implies !#[trigger] fwd_match(s, i as int, -1, k) by {
        lemma_above_since_open(s, j, i, k + 1);
    }
    assert(is_fwd_search(s, i as int, -1, Some(j as usize)));
    lemma_fwd_search_unique(s, i as int, -1, Some(j as usize));
}

/// The parent of a node's first child is the node.
pub proof fn lemma_parent_of_first_child(s: Seq<bool>, v: int)
    requires
        s.len() <= max_len(),
        0 <= v,
        v + 1 < s.len(),
        s[v],
        s[v + 1],
    ensures
        bwd_search_spec(s, v + 1, enclose_excess(s, v + 1)) == Some(v as usize),
{
    assert(is_bwd_search(s, v + 1, -1, Some(v as usize)));
    lemma_bwd_search_unique(s, v + 1, -1, Some(v as usize));
}

/// The previous sibling of a node's next sibling is the node: the position before
/// the next sibling is a closing parenthesis, and the opening one it matches is
/// the node.
pub proof fn lemma_previous_of_next_sibling(s: Seq<bool>, v: int)
    requires
        s.len() <= max_len(),
        0 <= v < s.len(),
        s[v],
        fwd_search_spec(s, v, -1) is Some,
    ensures
        ({
            let w = fwd_search_spec(s, v, -1)->0 + 1;
            &&& w > 0
            &&& !s[w - 1]
            &&& bwd_search_spec(s, w - 1, -1) == Some(v as usize)
        }),
{
    lemma_close_then_open(s, v);
}

/// The parent of a node is an opening parenthesis one level up: its excess is the
/// node's excess less one.
pub proof fn lemma_parent_one_level_up(s: Seq<bool>, v: int)
    requires
        s.len() <= max_len(),
        0 <= v < s.len(),
        s[v],
        bwd_search_spec(s, v, -1) is Some,
    ensures
        ({
            let p = bwd_search_spec(s, v, -1)->0 as int;
            &&& s[p]
            &&& excess_before(s, p + 1) == excess_before(s, v + 1) - 1
        }),
{
    let p = choose|i: usize| #[trigger] is_bwd_search(s, v, -1, Some(i));
    assert(is_bwd_search(s, v, -1, Some(p)));
    let pi = p as int;
    if pi + 1 < v {
        if excess_before(s, pi + 1) != excess_before(s, v) {
            assert(!bwd_match(s, v, -1, pi + 1));
            crate::trees::lemma_excess_min_max_bound(s, pi + 1, v, pi + 1);
            crate::trees::lemma_excess_min_max_bound(s, pi + 1, v, v);
            let k = crate::trees::lemma_excess_between(s, pi + 1, v, excess_before(s, v) - 1);
            assert(bwd_match(s, v, -1, k));
            assert(false);
        }
    }
}

/// The handle of a node's index is the node: `node_handle` undoes `node_index`.
pub proof fn lemma_handle_of_index(s: Seq<bool>, v: int)
    requires
        0 <= v < s.len(),
        s[v],
    ensures
        select1_spec(s, ones(s, v)) == v,
{
    crate::rs_vec::lemma_rank_select1(s, v, 0);
}

/// In a balanced sequence every opening parenthesis has its closing one, and `open`
/// finds the opening one back from it.
pub proof fn lemma_balanced_close_open(s: Seq<bool>, i: int)
    requires
        s.len() <= max_len(),
        is_balanced(s),
        0 <= i < s.len(),
        s[i],
    ensures
        fwd_search_spec(s, i, -1) is Some,
        ({
            let j = fwd_search_spec(s, i, -1)->0 as int;
            &&& !s[j]
            &&& bwd_search_spec(s, j, -1) == Some(i as usize)
        }),
{
    let n = s.len() as int;
    let e = excess_before(s, i);
    assert(excess_before(s, i + 1) == e + 1);
    assert(excess_before(s, i) >= 0);
    // the excess falls from `e + 1` back to 0, so it meets `e` on the way
    lemma_excess_min_max_bound(s, i + 1, n, i + 1);
    lemma_excess_min_max_bound(s, i + 1, n, n);
    let q = lemma_excess_between(s, i + 1, n, e);
    assert(fwd_match(s, i, -1, q - 1));
    lemma_fwd_search_spec_valid(s, i, -1);
    lemma_close_then_open(s, i);
}

/// In a balanced sequence every closing parenthesis has its opening one, and
/// `close` finds the closing one back from it.
pub proof fn lemma_balanced_open_close(s: Seq<bool>, j: int)
    requires
        s.len() <= max_len(),
        is_balanced(s),
        0 <= j < s.len(),
        !s[j],
    ensures
        bwd_search_spec(s, j, -1) is Some,
        ({
            let i = bwd_search_spec(s, j, -1)->0 as int;
            &&& s[i]
            &&& fwd_search_spec(s, i, -1) == Some(j as usize)
        }),
{
    let e = excess_before(s, j);
    assert(excess_before(s, j + 1) == e - 1);
    assert(excess_before(s, j + 1) >= 0);
    // the excess rises from 0 to `e`, so it meets `e - 1` before `j`
    lemma_excess_min_max_bound(s, 0, j, 0);
    lemma_excess_min_max_bound(s, 0, j, j);
    let q = lemma_excess_between(s, 0, j, e - 1);
    assert(bwd_match(s, j, -1, q));
    lemma_bwd_search_spec_valid(s, j, -1);
    lemma_open_then_close(s, j);
}

/// Between a node and its closing parenthesis the excess is above the node's, and
/// it is back to the node's just after.
proof fn lemma_close_facts(s: Seq<bool>, v: int)
    requires
        s.len() <= max_len(),
        0 <= v < s.len(),
        s[v],
        fwd_search_spec(s, v, -1) is Some,
    ensures
        ({
            let c = fwd_search_spec(s, v, -1)->0 as int;
            &&& v < c < s.len()
            &&& !s[c]
            &&& excess_before(s, c + 1) == excess_before(s, v)
            &&& excess_before(s, c) == excess_before(s, v) + 1
            &&& forall|k: int| v < k <= c ==> #[trigger] excess_before(s, k) >= excess_before(s, v) + 1
        }),
{
    lemma_fwd_search_spec_valid(s, v, -1);
    let c = fwd_search_spec(s, v, -1)->0;
    assert forall|k: int| v < k <= c implies #[trigger] excess_before(s, k) >= excess_before(s, v)
        + 1 by {
        lemma_above_until_close(s, v, c, k);
    }
    assert(excess_before(s, v + 1) == excess_before(s, v) + 1);
    assert(fwd_match(s, v, -1, c as int));
    assert(excess_before(s, c as int) >= excess_before(s, v) + 1);
    assert(excess_before(s, c + 1) == excess_before(s, c as int) + step(s, c as int));
}

/// Next and previous sibling are each other's inverse, and siblings share their
/// parent.
pub proof fn lemma_siblings(s: Seq<bool>, x: int, y: int)
    requires
        s.len() <= max_len(),
        0 <= x < s.len(),
        0 <= y < s.len(),
        s[x],
        s[y],
    ensures
        (next_sibling_spec(s, x) == Some(y as usize)) == (previous_sibling_spec(s, y) == Some(
            x as usize,
        )),
        next_sibling_spec(s, x) == Some(y as usize) ==> parent_spec(s, x) == parent_spec(s, y),
{
    if next_sibling_spec(s, x) == Some(y as usize) {
        lemma_close_then_open(s, x);
        lemma_close_facts(s, x);
        let c = fwd_search_spec(s, x, -1)->0 as int;
        assert(y == c + 1);
        // siblings share their parent: between them the excess stays at least theirs
        lemma_bwd_search_spec_valid(s, x, -1);
        let px = parent_spec(s, x);
        assert forall|k: int| x <= k < y implies #[trigger] excess_before(s, k) - excess_before(
            s,
            y,
        ) != -1 by {
            if k > x {
                assert(excess_before(s, k) >= excess_before(s, x) + 1);
            }
        }
        match px {
            Some(i) => {
                assert forall|k: int| i < k < y implies !#[trigger] bwd_match(s, y, -1, k) by {
                    if k < x {
                        assert(!bwd_match(s, x, -1, k));
                    }
                }
                assert(is_bwd_search(s, y, -1, px));
            },
            None => {
                assert forall|k: int| !#[trigger] bwd_match(s, y, -1, k) by {
                    if 0 <= k < x {
                        assert(!bwd_match(s, x, -1, k));
                    }
                }
                assert(is_bwd_search(s, y, -1, px));
            },
        }
        lemma_bwd_search_unique(s, y, -1, px);
    }
    if previous_sibling_spec(s, y) == Some(x as usize) {
        lemma_open_then_close(s, y - 1);
    }
}

/// A node's last child has the node for its parent and no next sibling; in a
/// balanced sequence a node has a last child exactly when it has a first child.
pub proof fn lemma_last_child(s: Seq<bool>, v: int)
    requires
        s.len() <= max_len(),
        0 <= v < s.len(),
        s[v],
    ensures
        last_child_spec(s, v) matches Some(c) ==> parent_spec(s, c as int) == Some(v as usize)
            && next_sibling_spec(s, c as int) is None,
        is_balanced(s) ==> ((last_child_spec(s, v) is None) == (first_child_spec(s, v) is None)),
{
    if is_balanced(s) && v + 1 < s.len() && s[v + 1] {
        lemma_balanced_close_open(s, v);
    }
    if v + 1 < s.len() && s[v + 1] && fwd_search_spec(s, v, -1) is Some {
        lemma_close_facts(s, v);
        let i = fwd_search_spec(s, v, -1)->0 as int;
        let e = excess_before(s, v);
        // the parenthesis before `i` closes too, with excess `e + 2` before it
        assert(excess_before(s, i - 1) >= e + 1);
        assert(excess_before(s, i) == excess_before(s, i - 1) + step(s, i - 1));
        assert(!s[i - 1]);
        assert(excess_before(s, v + 1) == e + 1);
        assert(bwd_match(s, i - 1, -1, v + 1));
        lemma_bwd_search_spec_valid(s, i - 1, -1);
        let c = bwd_search_spec(s, i - 1, -1)->0 as int;
        assert(v + 1 <= c);
        lemma_open_then_close(s, i - 1);
        // the parent of `c` is `v`: between them the excess stays above `e`
        assert forall|k: int| v < k < c implies !#[trigger] bwd_match(s, c, -1, k) by {
            assert(excess_before(s, k) >= e + 1);
        }
        assert(is_bwd_search(s, c, -1, Some(v as usize)));
        lemma_bwd_search_unique(s, c, -1, Some(v as usize));
    }
}

/// In a balanced sequence the depth of a node is the excess before it, a node has
/// depth 0 exactly when it has no parent, and a parent is one level up.
pub proof fn lemma_depth(s: Seq<bool>, v: int)
    requires
        s.len() <= max_len(),
        is_balanced(s),
        0 <= v < s.len(),
        s[v],
    ensures
        depth_spec(s, v) == excess_before(s, v),
        (depth_spec(s, v) == 0) == (parent_spec(s, v) is None),
        parent_spec(s, v) matches Some(p) ==> s[p as int] && depth_spec(s, p as int) + 1 == depth_spec(
            s,
            v,
        ),
{
    let e = excess_before(s, v);
    assert(e >= 0);
    assert(excess_before(s, v + 1) == e + 1);
    lemma_bwd_search_spec_valid(s, v, -1);
    if e >= 1 {
        lemma_excess_min_max_bound(s, 0, v, 0);
        lemma_excess_min_max_bound(s, 0, v, v);
        let q = lemma_excess_between(s, 0, v, e - 1);
        assert(bwd_match(s, v, -1, q));
    } else {
        match parent_spec(s, v) {
            Some(i) => {
                assert(excess_before(s, i as int) >= 0);
            },
            None => {},
        }
    }
    if parent_spec(s, v) is Some {
        lemma_parent_one_level_up(s, v);
    }
}

/// The ancestor one level further up is the parent of the ancestor found; level 1
/// is the parent, level 0 the node itself, and in a balanced sequence there is no
/// ancestor past the root.
pub proof fn lemma_level_ancestor(s: Seq<bool>, v: int, k: u64)
    requires
        s.len() <= max_len(),
        0 <= v < s.len(),
        s[v],
        1 <= k < i64::MAX,
    ensures
        level_ancestor_spec(s, v, 0) == Some(v as usize),
        level_ancestor_spec(s, v, 1) == parent_spec(s, v),
        level_ancestor_spec(s, v, k) matches Some(a) ==> level_ancestor_spec(s, v, (k + 1) as u64)
            == parent_spec(s, a as int),
        is_balanced(s) ==> level_ancestor_spec(s, v, (depth_spec(s, v) + 1) as u64) is None,
{
    assert(level_rel(1) == -1);
    assert(level_rel(k) == -(k as int));
    assert(level_rel((k + 1) as u64) == -(k + 1));
    lemma_bwd_search_spec_valid(s, v, -(k as int));
    if level_ancestor_spec(s, v, k) is Some {
        let a = level_ancestor_spec(s, v, k)->0 as int;
        let t = excess_before(s, v) - k;
        assert(excess_before(s, a) == t);
        assert forall|q: int| a + 1 <= q < v implies #[trigger] excess_before(s, q) != t by {
            assert(!bwd_match(s, v, -(k as int), q));
        }
        lemma_stays_above_back(s, a + 1, v, t);
        lemma_bwd_search_spec_valid(s, a, -1);
        let pa = parent_spec(s, a);
        let rel = -(k + 1);
        assert forall|q: int| a <= q < v implies !#[trigger] bwd_match(s, v, rel, q) by {
            if q > a {
                assert(excess_before(s, q) > t);
            }
        }
        match pa {
            Some(i) => {
                assert forall|q: int| i < q < v implies !#[trigger] bwd_match(s, v, rel, q) by {
                    if q < a {
                        assert(!bwd_match(s, a, -1, q));
                    }
                }
                assert(is_bwd_search(s, v, rel, pa));
            },
            None => {
                assert forall|q: int| !#[trigger] bwd_match(s, v, rel, q) by {
                    if 0 <= q < a {
                        assert(!bwd_match(s, a, -1, q));
                    }
                }
                assert(is_bwd_search(s, v, rel, pa));
            },
        }
        lemma_bwd_search_unique(s, v, rel, pa);
    }
    if is_balanced(s) {
        let e = excess_before(s, v);
        assert(e >= 0);
        assert(excess_before(s, v + 1) == e + 1);
        assert(depth_spec(s, v) == e);
        crate::trees::lemma_excess_lipschitz(s, 0, v);
        let d = (e + 1) as u64;
        assert(level_rel(d) == -(e + 1));
        lemma_bwd_search_spec_valid(s, v, -(e + 1));
        match bwd_search_spec(s, v, -(e + 1)) {
            Some(i) => {
                assert(excess_before(s, i as int) >= 0);
            },
            None => {},
        }
    }
}

/// `level_next` and `level_prev` are each other's inverse; the next node on a level
/// lies to the right at the same excess, and in a balanced sequence no node in
/// between has the same depth.
pub proof fn lemma_level_next_prev(s: Seq<bool>, x: int, y: int)
    requires
        s.len() <= max_len(),
        0 <= x < s.len(),
        0 <= y < s.len(),
        s[x],
        s[y],
    ensures
        (level_next_spec(s, x) == Some(y as usize)) == (level_prev_spec(s, y) == Some(x as usize)),
        level_next_spec(s, x) == Some(y as usize) ==> {
            &&& x < y
            &&& excess_before(s, x) == excess_before(s, y)
            &&& is_balanced(s) ==> depth_spec(s, x) == depth_spec(s, y) && forall|z: int|
                x < z < y && s[z] ==> #[trigger] depth_spec(s, z) != depth_spec(s, x)
        },
{
    let ex = excess_before(s, x);
    let ey = excess_before(s, y);
    assert(excess_before(s, y + 1) == ey + 1);
    assert(excess_before(s, x + 1) == ex + 1);
    if level_next_spec(s, x) == Some(y as usize) {
        lemma_close_facts(s, x);
        lemma_close_then_open(s, x);
        let c = fwd_search_spec(s, x, -1)->0 as int;
        lemma_fwd_search_spec_valid(s, c, 1);
        // from just after `c` to `y` the excess stays below `ex + 1`
        assert(fwd_match(s, c, 1, y));
        assert forall|q: int| c + 1 < q <= y implies #[trigger] excess_before(s, q) != ex + 1 by {
            assert(!fwd_match(s, c, 1, q - 1));
        }
        lemma_stays_below(s, c + 1, y, ex + 1);
        assert(ey == ex);
        // so `c` is the last position before `y` with excess `ex + 1`
        assert forall|q: int| c < q < y implies !#[trigger] bwd_match(s, y, 1, q) by {
            assert(excess_before(s, q) < ex + 1);
        }
        assert(is_bwd_search(s, y, 1, Some(c as usize)));
        lemma_bwd_search_unique(s, y, 1, Some(c as usize));
        if is_balanced(s) {
            assert(excess_before(s, x) >= 0);
            assert forall|z: int| x < z < y && s[z] implies #[trigger] depth_spec(s, z)
                != depth_spec(s, x) by {
                assert(excess_before(s, z) >= 0);
                assert(excess_before(s, z + 1) == excess_before(s, z) + 1);
                if z > c {
                    assert(excess_before(s, z) < ex + 1);
                    assert(!fwd_match(s, c, 1, z));
                }
            }
        }
    }
    if level_prev_spec(s, y) == Some(x as usize) {
        lemma_bwd_search_spec_valid(s, y, 1);
        let p = bwd_search_spec(s, y, 1)->0 as int;
        assert(excess_before(s, p) == ey + 1);
        // from just after `p` to `y` the excess stays below `ey + 1`
        assert forall|q: int| p + 1 <= q < y implies #[trigger] excess_before(s, q) != ey + 1 by {
            assert(!bwd_match(s, y, 1, q));
        }
        lemma_stays_below_back(s, p + 1, y, ey + 1);
        assert(excess_before(s, p + 1) == excess_before(s, p) + step(s, p));
        assert(!s[p]);
        lemma_open_then_close(s, p);
        lemma_fwd_search_spec_valid(s, p, 1);
        assert(fwd_match(s, p, 1, y));
        assert forall|q: int| p < q < y implies !#[trigger] fwd_match(s, p, 1, q) by {
            assert(excess_before(s, q + 1) < ey + 1);
        }
        assert(is_fwd_search(s, p, 1, Some(y as usize)));
        lemma_fwd_search_unique(s, p, 1, Some(y as usize));
    }
}

/// The first child of a node is its leftmost child: a node whose parent is the
/// node, and no node before it has that parent. A node without a first child is
/// the parent of no node.
pub proof fn lemma_first_child_is_leftmost_child(s: Seq<bool>, v: int)
    requires
        s.len() <= max_len(),
        0 <= v < s.len(),
        s[v],
    ensures
        first_child_spec(s, v) matches Some(c) ==> {
            &&& v < c < s.len()
            &&& s[c as int]
            &&& parent_spec(s, c as int) == Some(v as usize)
            &&& forall|d: int|
                0 <= d < s.len() && s[d] && parent_spec(s, d) == Some(v as usize) ==> c <= d
        },
        first_child_spec(s, v) is None ==> forall|d: int|
            0 <= d < s.len() && s[d] ==> parent_spec(s, d) != Some(v as usize),
{
    if first_child_spec(s, v) is Some {
        let c = first_child_spec(s, v)->0 as int;
        assert(c == v + 1 && s[c]);
        lemma_parent_of_first_child(s, v);
        assert(enclose_excess(s, c) == -1);
        assert forall|d: int|
            0 <= d < s.len() && s[d] && parent_spec(s, d) == Some(v as usize) implies c <= d by {
            lemma_bwd_search_spec_valid(s, d, -1);
            assert(bwd_match(s, d, -1, v));
        }
    } else {
        assert forall|d: int| 0 <= d < s.len() && s[d] implies parent_spec(s, d) != Some(
            v as usize,
        ) by {
            if parent_spec(s, d) == Some(v as usize) {
                lemma_bwd_search_spec_valid(s, d, -1);
                assert(bwd_match(s, d, -1, v));
                // `v` is followed by a closing parenthesis, so the excess is back to
                // that before `v` two positions on, before it could reach `d`
                assert(!s[v + 1]);
                assert(excess_before(s, v + 1) == excess_before(s, v) + 1);
                assert(excess_before(s, v + 2) == excess_before(s, v + 1) - 1);
                if d > v + 2 {
                    assert(bwd_match(s, d, -1, v + 2));
                }
            }
        }
    }
}

/// The next sibling of a node is a node to its right, right after the node's
/// closing parenthesis, at the same excess and with the same parent; every node
/// right after that closing parenthesis is the next sibling.
pub proof fn lemma_next_sibling_is_sibling(s: Seq<bool>, v: int)
    requires
        s.len() <= max_len(),
        0 <= v < s.len(),
        s[v],
    ensures
        next_sibling_spec(s, v) matches Some(w) ==> {
            &&& v < w < s.len()
            &&& s[w as int]
            &&& is_fwd_search(s, v, -1, Some((w - 1) as usize))
            &&& excess_before(s, w as int) == excess_before(s, v)
            &&& parent_spec(s, w as int) == parent_spec(s, v)
        },
        forall|w: int|
            0 < w < s.len() && s[w] && is_fwd_search(s, v, -1, Some((w - 1) as usize))
                ==> next_sibling_spec(s, v) == Some(w as usize),
{
    if next_sibling_spec(s, v) is Some {
        let w = next_sibling_spec(s, v)->0 as int;
        lemma_close_facts(s, v);
        lemma_fwd_search_spec_valid(s, v, -1);
        lemma_siblings(s, v, w);
    }
    assert forall|w: int|
        0 < w < s.len() && s[w] && is_fwd_search(s, v, -1, Some((w - 1) as usize)) implies next_sibling_spec(
        s,
        v,
    ) == Some(w as usize) by {
        lemma_fwd_search_unique(s, v, -1, Some((w - 1) as usize));
    }
}

/// The previous sibling of a node is a node to its left whose next sibling is the
/// node.
pub proof fn lemma_previous_sibling_is_sibling(s: Seq<bool>, v: int)
    requires
        s.len() <= max_len(),
        0 <= v < s.len(),
        s[v],
    ensures
        previous_sibling_spec(s, v) matches Some(u) ==> {
            &&& u < v
            &&& s[u as int]
            &&& next_sibling_spec(s, u as int) == Some(v as usize)
        },
{
    if previous_sibling_spec(s, v) is Some {
        let u = previous_sibling_spec(s, v)->0 as int;
        lemma_bwd_search_spec_valid(s, v - 1, -1);
        lemma_open_then_close(s, v - 1);
        lemma_siblings(s, u, v);
    }
}

/// A forward search for a rise in excess ends on an opening parenthesis, one for a
/// fall on a closing one: the excess reaches its target only by a step in that
/// direction.
pub proof fn lemma_fwd_search_lands(s: Seq<bool>, index: int, rel: int, j: usize)
    requires
        0 <= index,
        rel != 0,
        is_fwd_search(s, index, rel, Some(j)),
    ensures
        s[j as int] == (rel > 0),
{
    let base = excess_before(s, index + 1);
    let t = base + rel;
    assert forall|q: int| index + 1 < q <= j implies #[trigger] excess_before(s, q) != t by {
        assert(!fwd_match(s, index, rel, q - 1));
    }
    if rel > 0 {
        lemma_stays_below(s, index + 1, j as int, t);
    } else {
        lemma_stays_above(s, index + 1, j as int, t);
    }
    assert(excess_before(s, j + 1) == excess_before(s, j as int) + step(s, j as int));
}

/// A backward search for a position of lower excess ends on an opening
/// parenthesis, one for higher excess on a closing one.
pub proof fn lemma_bwd_search_lands(s: Seq<bool>, index: int, rel: int, i: usize)
    requires
        rel != 0,
        is_bwd_search(s, index, rel, Some(i)),
    ensures
        s[i as int] == (rel < 0),
{
    let t = excess_before(s, index) + rel;
    assert forall|q: int| i + 1 <= q < index implies #[trigger] excess_before(s, q) != t by {
        assert(!bwd_match(s, index, rel, q));
    }
    if rel < 0 {
        lemma_stays_above_back(s, i + 1, index, t);
    } else {
        lemma_stays_below_back(s, i + 1, index, t);
    }
    assert(excess_before(s, i + 1) == excess_before(s, i as int) + step(s, i as int));
}

} // verus!
