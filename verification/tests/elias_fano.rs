use rand::{thread_rng, Rng};
use vers_vecs::EliasFanoVec;

/// A small deterministic generator of pseudo-random words (xorshift64).
fn next_word(state: &mut u64) -> u64 {
    let mut x = *state;
    x ^= x << 13;
    x ^= x >> 7;
    x ^= x << 17;
    *state = x;
    x
}

/// The greatest element of a sorted slice that is at most `n`.
fn naive_pred(seq: &[u64], n: u64) -> u64 {
    seq[seq.partition_point(|&x| x <= n) - 1]
}

#[test]
fn test_elias_fano() {
    let ef = EliasFanoVec::new(&vec![0, 1, 4, 7]);

    assert_eq!(ef.len(), 4);
    assert_eq!(ef.get(0), 0);
    assert_eq!(ef.get(1), 1);
    assert_eq!(ef.get(2), 4);
    assert_eq!(ef.get(3), 7);

    assert_eq!(ef.pred(0), 0);
    assert_eq!(ef.pred(1), 1);
    assert_eq!(ef.pred(2), 1);
    assert_eq!(ef.pred(5), 4);
    assert_eq!(ef.pred(8), 7);
}

#[test]
fn test_randomized_elias_fano() {
    let mut rng = thread_rng();
    let mut seq = vec![0u64; 1000];
    for i in 0..1000 {
        seq[i] = rng.gen();
    }
    seq.sort_unstable();

    let ef = EliasFanoVec::new(&seq);

    assert_eq!(ef.len(), seq.len());

    for (i, &v) in seq.iter().enumerate() {
        assert_eq!(ef.get(i), v);
    }

    for _ in 0..1000 {
        let random_splitter: u64 = rng.gen();
        // below the smallest value there is no predecessor to compare against
        if random_splitter < seq[0] {
            continue;
        }
        assert_eq!(
            ef.pred(random_splitter),
            seq[seq.partition_point(|&x| x <= random_splitter) - 1]
        );
    }
}

#[test]
fn test_pseudo_randomized_elias_fano() {
    let mut state = 0x2545_f491_4f6c_dd1du64;
    let mut seq = vec![0u64; 1000];
    for i in 0..1000 {
        seq[i] = next_word(&mut state);
    }
    seq.sort_unstable();

    let ef = EliasFanoVec::new(&seq);

    assert_eq!(ef.len(), seq.len());

    for (i, &v) in seq.iter().enumerate() {
        assert_eq!(ef.get(i), v);
    }

    for _ in 0..1000 {
        let splitter = next_word(&mut state);
        if splitter < seq[0] {
            continue;
        }
        assert_eq!(ef.pred(splitter), naive_pred(&seq, splitter));
    }
    for &v in seq.iter() {
        assert_eq!(ef.pred(v), v);
        if v < u64::MAX {
            assert_eq!(ef.pred(v + 1), naive_pred(&seq, v + 1));
        }
    }
}

#[test]
fn test_elias_fano_small_values_and_duplicates() {
    let data = vec![3, 3, 3, 9, 9, 10, 200, 200, 1 << 40, u64::MAX];
    let ef = EliasFanoVec::new(&data);
    assert_eq!(ef.len(), data.len());
    assert!(!ef.is_empty());
    for (i, &v) in data.iter().enumerate() {
        assert_eq!(ef.get(i), v);
    }
    assert_eq!(ef.pred(3), 3);
    assert_eq!(ef.pred(8), 3);
    assert_eq!(ef.pred(9), 9);
    assert_eq!(ef.pred(199), 10);
    assert_eq!(ef.pred(200), 200);
    assert_eq!(ef.pred((1 << 40) - 1), 200);
    assert_eq!(ef.pred(1 << 40), 1 << 40);
    assert_eq!(ef.pred(u64::MAX - 1), 1 << 40);
    assert_eq!(ef.pred(u64::MAX), u64::MAX);
}

#[test]
fn test_elias_fano_empty() {
    let ef = EliasFanoVec::new(&vec![]);
    assert_eq!(ef.len(), 0);
    assert!(ef.is_empty());
}

#[test]
fn test_elias_fano_two_values() {
    let ef = EliasFanoVec::new(&vec![5, u64::MAX - 5]);
    assert_eq!(ef.len(), 2);
    assert_eq!(ef.get(0), 5);
    assert_eq!(ef.get(1), u64::MAX - 5);
    assert_eq!(ef.pred(5), 5);
    assert_eq!(ef.pred(u64::MAX - 6), 5);
    assert_eq!(ef.pred(u64::MAX), u64::MAX - 5);
}

#[test]
fn test_elias_fano_dense_buckets() {
    // many values share their high part, and many high parts are empty
    let mut data = Vec::new();
    for i in 0..300u64 {
        data.push((i / 7) << 58 | (i % 7) * 3);
    }
    let ef = EliasFanoVec::new(&data);
    for (i, &v) in data.iter().enumerate() {
        assert_eq!(ef.get(i), v);
    }
    for &v in data.iter() {
        assert_eq!(ef.pred(v), v);
        assert_eq!(ef.pred(v + 1), naive_pred(&data, v + 1));
        assert_eq!(ef.pred(v | ((1 << 58) - 1)), naive_pred(&data, v | ((1 << 58) - 1)));
    }
}

#[test]
fn test_elias_fano_single_value() {
    let ef = EliasFanoVec::new(&vec![5u64]);
    assert_eq!(ef.len(), 1);
    assert!(!ef.is_empty());
    assert_eq!(ef.get(0), 5);
    assert_eq!(ef.pred(5), 5);
    assert_eq!(ef.pred(u64::MAX), 5);

    let ef = EliasFanoVec::new(&vec![u64::MAX]);
    assert_eq!(ef.get(0), u64::MAX);
    assert_eq!(ef.pred(u64::MAX), u64::MAX);

    let ef = EliasFanoVec::new(&vec![1u64 << 63]);
    assert_eq!(ef.get(0), 1 << 63);
    assert_eq!(ef.pred(u64::MAX), 1 << 63);
    assert_eq!(ef.pred(1 << 63), 1 << 63);
}
