use vers_vecs::{BitVec, RsVec};

fn next_word(state: &mut u64) -> u64 {
    let mut x = *state;
    x ^= x << 13;
    x ^= x >> 7;
    x ^= x << 17;
    *state = x;
    x
}

#[test]
fn test_bit_vec_append_get_flip() {
    let mut bv = BitVec::new();
    assert!(bv.is_empty());
    bv.append_bit(1);
    bv.append_bit(0);
    bv.append_bit(3);
    assert_eq!(bv.len(), 3);
    assert_eq!(bv.get(0), Some(1));
    assert_eq!(bv.get(1), Some(0));
    assert_eq!(bv.get(2), Some(1));
    assert_eq!(bv.get(3), None);
    bv.flip_bit(1);
    assert_eq!(bv.get_unchecked(1), 1);
    bv.flip_bit(1);
    assert_eq!(bv.get_unchecked(1), 0);
}

#[test]
fn test_bit_vec_bits_across_words() {
    let mut bv = BitVec::from_zeros(60);
    bv.append_bits(0b1011_0110, 8);
    bv.append_bits(u64::MAX, 64);
    assert_eq!(bv.len(), 132);
    assert_eq!(bv.get_bits(60, 8), 0b1011_0110);
    assert_eq!(bv.get_bits(58, 4), 0b1000);
    assert_eq!(bv.get_bits(68, 64), u64::MAX);
    assert_eq!(bv.get_bits(0, 60), 0);
    assert_eq!(bv.get_bits(62, 0), 0);
}

#[test]
fn test_rs_vec_rank_select() {
    let mut state = 0x9e37_79b9_7f4a_7c15u64;
    let mut bv = BitVec::with_capacity(1000);
    let mut bits = Vec::new();
    for _ in 0..1000 {
        let b = next_word(&mut state) % 3 == 0;
        bits.push(b);
        bv.append_bit(if b { 1 } else { 0 });
    }
    let rs = RsVec::from_bit_vec(bv);
    assert_eq!(rs.len(), 1000);
    let mut ones = 0;
    let mut zeros = 0;
    for (i, &b) in bits.iter().enumerate() {
        assert_eq!(rs.rank1(i), ones);
        assert_eq!(rs.rank0(i), zeros);
        if b {
            assert_eq!(rs.select1(ones), i);
            ones += 1;
        } else {
            assert_eq!(rs.select0(zeros), i);
            zeros += 1;
        }
    }
    assert_eq!(rs.rank1(1000), ones);
    assert_eq!(rs.rank1(5000), ones);
    assert_eq!(rs.rank0(5000), zeros);
    assert_eq!(rs.select1(ones), 1000);
    assert_eq!(rs.select0(zeros), 1000);
}

#[test]
fn test_rs_vec_empty() {
    let rs = RsVec::from_bit_vec(BitVec::new());
    assert!(rs.is_empty());
    assert_eq!(rs.rank1(0), 0);
    assert_eq!(rs.rank0(3), 0);
    assert_eq!(rs.select1(0), 0);
    assert_eq!(rs.select0(0), 0);
    assert_eq!(rs.get(0), None);
}
