use windelta::align::{AlignedRead, CigarOp};
use windelta::features::feature_vectors;
use windelta::kmer::seq_to_kmer;
use windelta::smooth::remove_stretches;

#[test]
fn nonqualifying_reads_yield_no_vectors() {
    let r = AlignedRead {
        seq: b"ACGT".to_vec(),
        cigar: vec![CigarOp::Match(4)],
        ref_start: 120,
        ref_end: 160,
        mapq: 60,
        flags: 0,
        name: b"r".to_vec(),
    };
    let fv = feature_vectors(&vec![r], b"ACGTACGT".to_vec(), 100, 200, 2, 5, 3840);
    assert!(fv.is_empty());
}

#[test]
fn rejected_projection_gives_negated_reference_vector() {
    // The read spans the window but its projected length equals the window
    // length, so its segment is rejected and only the negated reference
    // counts remain.
    let r = AlignedRead {
        seq: vec![b'A'; 300],
        cigar: vec![CigarOp::Match(300)],
        ref_start: 50,
        ref_end: 350,
        mapq: 60,
        flags: 0,
        name: b"r".to_vec(),
    };
    let ref_seq = b"ACGTTTTTTTTTGCA".to_vec();
    let fv = feature_vectors(&vec![r], ref_seq.clone(), 100, 200, 2, 5, 3840);
    assert_eq!(fv.len(), 1);
    let expected = seq_to_kmer(&remove_stretches(ref_seq), 2, true);
    assert_eq!(fv[0], expected);
}

#[test]
fn long_insertion_contributes_read_kmers() {
    // A 60-base insertion makes the projected segment differ from the
    // window length by more than twenty, so the segment is kept.
    let mut seq = vec![b'C'; 300];
    for (i, b) in seq.iter_mut().enumerate() {
        if i % 2 == 1 {
            *b = b'T';
        }
    }
    let r = AlignedRead {
        seq,
        cigar: vec![CigarOp::Match(80), CigarOp::Ins(60), CigarOp::Match(160)],
        ref_start: 50,
        ref_end: 290,
        mapq: 60,
        flags: 0,
        name: b"r".to_vec(),
    };
    let ref_seq = b"AG".repeat(50);
    let fv = feature_vectors(&vec![r], ref_seq.clone(), 100, 200, 1, 5, 3840);
    assert_eq!(fv.len(), 1);
    // The segment is seq[50..210]: an alternating C/T stretch of 160 bases.
    let seg: Vec<u8> = (0..160).map(|i| if i % 2 == 0 { b'C' } else { b'T' }).collect();
    let mut expected = seq_to_kmer(&remove_stretches(seg), 1, false);
    let refk = seq_to_kmer(&remove_stretches(ref_seq), 1, true);
    for (a, b) in expected.iter_mut().zip(refk.iter()) {
        *a += b;
    }
    assert_eq!(fv[0], expected);
}
