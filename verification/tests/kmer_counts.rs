use windelta::kmer::{add_kfeats, seq_to_kmer};

#[test]
fn single_base_counts() {
    let v = seq_to_kmer(&b"ACGT".to_vec(), 1, false);
    assert_eq!(v, vec![1, 1, 1, 1]);
}

#[test]
fn dimer_counts_exact() {
    // AAA holds two AA dimers and nothing else.
    let v = seq_to_kmer(&b"AAA".to_vec(), 2, false);
    assert_eq!(v.len(), 16);
    assert_eq!(v[0], 2);
    assert_eq!(v.iter().skip(1).map(|x| x.abs()).sum::<i64>(), 0);
}

#[test]
fn counts_sum_to_positions() {
    // For length L >= k the counts sum to L - k + 1.
    let seq = b"ACGTACGTAC".to_vec();
    for k in 1..=4usize {
        let v = seq_to_kmer(&seq, k, false);
        let total: i64 = v.iter().sum();
        assert_eq!(total, (seq.len() - k + 1) as i64);
    }
}

#[test]
fn short_sequence_counts_sum_to_zero() {
    let v = seq_to_kmer(&b"AC".to_vec(), 3, false);
    let total: i64 = v.iter().sum();
    assert_eq!(total, 0);
}

#[test]
fn negate_flips_every_count() {
    let seq = b"GATTACA".to_vec();
    let plus = seq_to_kmer(&seq, 2, false);
    let minus = seq_to_kmer(&seq, 2, true);
    for (a, b) in plus.iter().zip(minus.iter()) {
        assert_eq!(*a, -*b);
    }
}

#[test]
fn delta_vector_is_elementwise_sum() {
    let mut read = seq_to_kmer(&b"AACCGG".to_vec(), 1, false);
    let refv = seq_to_kmer(&b"AATTGG".to_vec(), 1, true);
    add_kfeats(&mut read, &refv);
    // A: 2-2, C: 2-0, G: 2-2, T: 0-2.
    assert_eq!(read, vec![0, 2, 0, -2]);
}
