use vers_vecs::{BitVec, BpDfsBuilder, BpTree};

fn next_word(state: &mut u64) -> u64 {
    let mut x = *state;
    x ^= x << 13;
    x ^= x >> 7;
    x ^= x << 17;
    *state = x;
    x
}

/// The bits of a parenthesis string: `(` is a set bit, `)` a clear one.
fn parens(s: &str) -> Vec<bool> {
    s.chars().map(|c| c == '(').collect()
}

fn bit_vec_of(bits: &[bool]) -> BitVec {
    let mut bv = BitVec::new();
    for &b in bits {
        bv.append_bit(if b { 1 } else { 0 });
    }
    bv
}

/// The excess of the parentheses before position `p`.
fn excess_before(bits: &[bool], p: usize) -> i64 {
    bits[..p].iter().map(|&b| if b { 1 } else { -1 }).sum()
}

fn naive_fwd(bits: &[bool], index: usize, rel: i64) -> Option<usize> {
    if index >= bits.len() {
        return None;
    }
    let base = excess_before(bits, index + 1);
    (index + 1..bits.len()).find(|&j| excess_before(bits, j + 1) - base == rel)
}

fn naive_bwd(bits: &[bool], index: usize, rel: i64) -> Option<usize> {
    if index >= bits.len() {
        return None;
    }
    let base = excess_before(bits, index);
    (0..index).rev().find(|&i| excess_before(bits, i) - base == rel)
}

fn check_searches<const B: usize>(bits: &[bool]) {
    let tree: BpTree<B> = BpTree::from_bit_vector(bit_vec_of(bits));
    for index in 0..bits.len() + 2 {
        for rel in -4i64..=4 {
            if !bits.is_empty() {
                assert_eq!(tree.fwd_search(index, rel), naive_fwd(bits, index, rel));
            }
            assert_eq!(tree.bwd_search(index, rel), naive_bwd(bits, index, rel));
        }
        assert_eq!(tree.close(index), naive_fwd(bits, index, -1));
        assert_eq!(tree.open(index), naive_bwd(bits, index, -1));
        let enclose_rel = if index < bits.len() && bits[index] { -1 } else { -2 };
        let expected = if index < bits.len() { naive_bwd(bits, index, enclose_rel) } else { None };
        assert_eq!(tree.enclose(index), expected);
        let excess_end = if index < bits.len() { index + 1 } else { bits.len() };
        assert_eq!(tree.excess(index), excess_before(bits, excess_end));
    }
}

/// A random balanced parenthesis expression of `nodes` nodes.
fn random_balanced(state: &mut u64, nodes: usize) -> Vec<bool> {
    let mut bits = Vec::new();
    let mut open = 0;
    let mut remaining = nodes;
    while remaining > 0 || open > 0 {
        let go_down = remaining > 0 && (open == 0 || next_word(state) % 2 == 0);
        if go_down {
            bits.push(true);
            open += 1;
            remaining -= 1;
        } else {
            bits.push(false);
            open -= 1;
        }
    }
    bits
}

#[test]
fn test_searches_small_blocks() {
    let mut state = 0x1234_5678_9abc_def1u64;
    for nodes in [0, 1, 2, 5, 17, 40] {
        let bits = random_balanced(&mut state, nodes);
        check_searches::<8>(&bits);
        check_searches::<16>(&bits);
        check_searches::<512>(&bits);
    }
}

#[test]
fn test_searches_unbalanced() {
    let mut state = 0x0f0f_1e1e_2d2d_3c3cu64;
    for len in [1, 3, 9, 33, 70] {
        let bits: Vec<bool> = (0..len).map(|_| next_word(&mut state) % 2 == 0).collect();
        check_searches::<8>(&bits);
        check_searches::<24>(&bits);
    }
    check_searches::<8>(&parens("))))(((("));
    check_searches::<8>(&parens("(((((((((((("));
}

#[test]
fn test_searches_large_tree() {
    let mut state = 0xdead_beef_cafe_f00du64;
    let bits = random_balanced(&mut state, 3000);
    let tree: BpTree<64> = BpTree::from_bit_vector(bit_vec_of(&bits));
    // every opening parenthesis is matched, both ways
    let mut stack = Vec::new();
    for (i, &b) in bits.iter().enumerate() {
        if b {
            stack.push(i);
        } else {
            let o = stack.pop().unwrap();
            assert_eq!(tree.close(o), Some(i));
            assert_eq!(tree.open(i), Some(o));
            assert_eq!(tree.enclose(i), stack.last().copied());
        }
    }
    // far searches cross many blocks
    for index in (0..bits.len()).step_by(97) {
        for rel in [-30i64, -7, 3, 12, 25] {
            assert_eq!(tree.fwd_search(index, rel), naive_fwd(&bits, index, rel));
            assert_eq!(tree.bwd_search(index, rel), naive_bwd(&bits, index, rel));
        }
    }
}

#[test]
fn test_search_far_excess() {
    let bits = parens("(()())");
    let tree: BpTree<8> = BpTree::from_bit_vector(bit_vec_of(&bits));
    assert_eq!(tree.fwd_search(0, i64::MAX), None);
    assert_eq!(tree.fwd_search(0, i64::MIN), None);
    assert_eq!(tree.bwd_search(5, i64::MIN), None);
    assert_eq!(tree.bwd_search(5, i64::MAX), None);
    assert_eq!(tree.fwd_search(5, -1), None);
    assert_eq!(tree.bwd_search(0, 0), None);
}

#[test]
fn test_navigation() {
    // (()(()))() : root 0 with children 1 and 3; 3 has child 4; 8 is a second root
    let bits = parens("(()(()))()");
    let tree: BpTree<8> = BpTree::from_bit_vector(bit_vec_of(&bits));
    assert_eq!(tree.root(), Some(0));
    assert_eq!(tree.size(), 5);
    assert!(!tree.is_empty());
    assert_eq!(tree.first_child(0), Some(1));
    assert_eq!(tree.first_child(1), None);
    assert_eq!(tree.last_child(0), Some(3));
    assert_eq!(tree.last_child(1), None);
    assert_eq!(tree.next_sibling(1), Some(3));
    assert_eq!(tree.next_sibling(3), None);
    assert_eq!(tree.next_sibling(0), Some(8));
    assert_eq!(tree.previous_sibling(3), Some(1));
    assert_eq!(tree.previous_sibling(1), None);
    assert_eq!(tree.previous_sibling(0), None);
    assert_eq!(tree.previous_sibling(8), Some(0));
    assert_eq!(tree.parent(4), Some(3));
    assert_eq!(tree.parent(3), Some(0));
    assert_eq!(tree.parent(0), None);
    assert_eq!(tree.node_index(4), 3);
    assert_eq!(tree.node_handle(3), 4);
    assert_eq!(tree.node_handle(9), 10);
    assert!(tree.is_leaf(1));
    assert!(!tree.is_leaf(3));
    assert_eq!(tree.depth(0), 0);
    assert_eq!(tree.depth(3), 1);
    assert_eq!(tree.depth(4), 2);
    assert_eq!(tree.is_ancestor(0, 4), Some(true));
    assert_eq!(tree.is_ancestor(3, 1), Some(false));
    assert_eq!(tree.is_ancestor(4, 4), Some(true));
    assert_eq!(tree.subtree_size(0), Some(4));
    assert_eq!(tree.subtree_size(3), Some(2));
    assert_eq!(tree.subtree_size(1), Some(1));
    assert_eq!(tree.level_ancestor(4, 0), Some(4));
    assert_eq!(tree.level_ancestor(4, 1), Some(3));
    assert_eq!(tree.level_ancestor(4, 2), Some(0));
    assert_eq!(tree.level_ancestor(4, 3), None);
    assert_eq!(tree.level_next(1), Some(3));
    assert_eq!(tree.level_prev(3), Some(1));
    assert_eq!(tree.level_leftmost(0), Some(0));
    assert_eq!(tree.level_leftmost(1), Some(1));
    assert_eq!(tree.level_leftmost(2), Some(4));
    assert_eq!(tree.level_rightmost(1), Some(3));
    assert_eq!(tree.level_rightmost(2), Some(4));
    assert_eq!(tree.level_rightmost(3), None);
}

#[test]
fn test_empty_tree() {
    let tree: BpTree<512> = BpTree::from_bit_vector(BitVec::new());
    assert!(tree.is_empty());
    assert_eq!(tree.root(), None);
    assert_eq!(tree.size(), 0);
    assert_eq!(tree.close(0), None);
    assert_eq!(tree.open(0), None);
    assert_eq!(tree.enclose(0), None);
    assert_eq!(tree.excess(0), 0);
    assert_eq!(tree.bwd_search(0, -1), None);
    assert_eq!(tree.fwd_search(0, 1), None);
    assert_eq!(tree.fwd_search(0, -1), None);
    assert_eq!(tree.level_rightmost(1), None);
    assert_eq!(tree.level_rightmost(0), None);
    assert_eq!(tree.level_leftmost(1), None);
    assert_eq!(tree.level_leftmost(0), Some(0));
}

#[test]
fn test_balanced_tree_laws() {
    let mut state = 0x7777_1234_abcd_0001u64;
    let bits = random_balanced(&mut state, 200);
    let tree: BpTree<16> = BpTree::from_bit_vector(bit_vec_of(&bits));
    for v in 0..bits.len() {
        if bits[v] {
            // close and open invert each other
            let c = tree.close(v).unwrap();
            assert!(!bits[c]);
            assert_eq!(tree.open(c), Some(v));
            // siblings
            if let Some(w) = tree.next_sibling(v) {
                assert_eq!(tree.previous_sibling(w), Some(v));
                assert_eq!(tree.parent(w), tree.parent(v));
            }
            // last and first child
            assert_eq!(tree.last_child(v).is_none(), tree.first_child(v).is_none());
            if let Some(l) = tree.last_child(v) {
                assert_eq!(tree.parent(l), Some(v));
                assert_eq!(tree.next_sibling(l), None);
            }
            // depth and parent
            assert_eq!(tree.depth(v) == 0, tree.parent(v).is_none());
            if let Some(p) = tree.parent(v) {
                assert_eq!(tree.depth(p) + 1, tree.depth(v));
            }
            // level ancestors
            assert_eq!(tree.level_ancestor(v, 1), tree.parent(v));
            for k in 1..4u64 {
                if let Some(a) = tree.level_ancestor(v, k) {
                    assert_eq!(tree.level_ancestor(v, k + 1), tree.parent(a));
                }
            }
            assert_eq!(tree.level_ancestor(v, tree.depth(v) + 1), None);
            // level next and previous
            if let Some(y) = tree.level_next(v) {
                assert!(v < y);
                assert_eq!(tree.level_prev(y), Some(v));
                assert_eq!(tree.depth(v), tree.depth(y));
                for z in v + 1..y {
                    if bits[z] {
                        assert_ne!(tree.depth(z), tree.depth(v));
                    }
                }
            }
        }
    }
}

#[test]
fn test_builders_agree() {
    let calls = [true, true, false, true, true, false, false, false];
    let mut a = BpDfsBuilder::<8>::new();
    let mut b = BpDfsBuilder::<8>::with_capacity(100);
    for &c in calls.iter() {
        if c {
            a.enter_node();
            b.enter_node();
        } else {
            a.leave_node();
            b.leave_node();
        }
    }
    let ta = a.build().expect("balanced");
    let tb = b.build().expect("balanced");
    assert_eq!(ta.size(), tb.size());
    for i in 0..calls.len() {
        assert_eq!(ta.excess(i), tb.excess(i));
    }
}

#[test]
fn test_dfs_builder() {
    let mut builder = BpDfsBuilder::<8>::with_capacity(4);
    builder.enter_node();
    builder.enter_node();
    builder.leave_node();
    builder.enter_node();
    builder.leave_node();
    builder.leave_node();
    let tree = builder.build().expect("balanced");
    assert_eq!(tree.size(), 3);
    assert_eq!(tree.close(0), Some(5));
    assert_eq!(tree.first_child(0), Some(1));
    assert_eq!(tree.next_sibling(1), Some(3));
}

#[test]
fn test_dfs_builder_unbalanced() {
    let mut builder = BpDfsBuilder::<16>::new();
    builder.enter_node();
    builder.enter_node();
    builder.leave_node();
    assert_eq!(builder.build().err(), Some(1));

    let mut builder = BpDfsBuilder::<16>::new();
    builder.leave_node();
    assert_eq!(builder.build().err(), Some(-1));
}

#[test]
fn test_excess_past_end() {
    let bits = parens("((()");
    let tree: BpTree<8> = BpTree::from_bit_vector(bit_vec_of(&bits));
    assert_eq!(tree.excess(0), 1);
    assert_eq!(tree.excess(2), 3);
    assert_eq!(tree.excess(3), 2);
    assert_eq!(tree.excess(4), 2);
    assert_eq!(tree.excess(usize::MAX), 2);
}
