use windelta::align::{AlignedRead, CigarOp};
use windelta::indel::{extract_indels, extract_indels_by_position, extract_indels_by_read,
    IndelStrategy};

fn read(ref_start: u64, ref_end: u64, cigar: Vec<CigarOp>) -> AlignedRead {
    AlignedRead {
        seq: vec![65u8; 64],
        cigar,
        ref_start,
        ref_end,
        mapq: 60,
        flags: 0,
        name: b"r".to_vec(),
    }
}

fn sample_reads() -> Vec<AlignedRead> {
    vec![
        read(
            50,
            250,
            vec![
                CigarOp::Match(60),
                CigarOp::Ins(5),
                CigarOp::Match(40),
                CigarOp::Del(10),
                CigarOp::Match(90),
            ],
        ),
        read(50, 250, vec![CigarOp::Match(200)]),
        // Rejected: does not span the window.
        read(150, 250, vec![CigarOp::Match(100)]),
    ]
}

#[test]
fn by_read_extracts_catalog_deltas_coverage() {
    let reads = sample_reads();
    let (cov, cat, deltas) = extract_indels_by_read(&reads, 100, 200, 5, 3840);
    assert_eq!(deltas, vec![-5, 0]);
    assert_eq!(cat, vec![(10, vec![5]), (50, vec![-10])]);
    // 91 + 101 covered bases over a width of 100 gives 1; two reads qualify.
    assert_eq!(cov, 2);
}

#[test]
fn strategies_agree_on_sample() {
    let reads = sample_reads();
    let a = extract_indels_by_read(&reads, 100, 200, 5, 3840);
    let mut b = extract_indels_by_position(&reads, 100, 200, 5, 3840);
    b.1.sort();
    let mut a_sorted = a.1.clone();
    a_sorted.sort();
    assert_eq!(a.0, b.0);
    assert_eq!(a_sorted, b.1);
    assert_eq!(a.2, b.2);
}

#[test]
fn dispatcher_selects_either_strategy() {
    let reads = sample_reads();
    let a = extract_indels(IndelStrategy::ByRead, &reads, 100, 200, 5, 3840);
    let b = extract_indels(IndelStrategy::ByPosition, &reads, 100, 200, 5, 3840);
    assert_eq!(a.2, b.2);
}

#[test]
fn coverage_never_below_qualifying_count() {
    // A wide window with few covered bases: the floor keeps coverage at the
    // qualifying-read count.
    let reads = vec![read(10, 5000, vec![CigarOp::Match(30), CigarOp::Skip(4500), CigarOp::Match(460)])];
    let (cov, _, deltas) = extract_indels_by_read(&reads, 100, 4000, 5, 3840);
    assert_eq!(deltas.len(), 1);
    assert!(cov >= deltas.len() as u64);
}

#[test]
fn filters_reject_low_quality_and_flagged() {
    let mut low_q = read(50, 250, vec![CigarOp::Match(200)]);
    low_q.mapq = 1;
    let mut flagged = read(50, 250, vec![CigarOp::Match(200)]);
    flagged.flags = 256;
    let mut empty = read(50, 250, vec![CigarOp::Match(200)]);
    empty.seq = Vec::new();
    let reads = vec![low_q, flagged, empty];
    let (cov, cat, deltas) = extract_indels_by_read(&reads, 100, 200, 5, 3840);
    assert_eq!(deltas.len(), 0);
    assert_eq!(cat.len(), 0);
    assert_eq!(cov, 0);
}

#[test]
fn counts_match_across_paths() {
    let reads = sample_reads();
    let (_, _, deltas) = extract_indels_by_read(&reads, 100, 200, 5, 3840);
    let fv = windelta::features::feature_vectors(&reads, b"ACGT".repeat(25), 100, 200, 3, 5, 3840);
    assert_eq!(fv.len(), deltas.len());
}

#[test]
fn boundary_indel_counts_only_inside_closed_window() {
    // One insertion lands exactly on the window end (counted, closed
    // interval) and one past it (ignored).
    let r = read(
        50,
        300,
        vec![CigarOp::Match(150), CigarOp::Ins(4), CigarOp::Match(100), CigarOp::Ins(5)],
    );
    let (_, cat, deltas) = extract_indels_by_read(&vec![r], 100, 200, 5, 3840);
    assert_eq!(deltas, vec![4]);
    assert_eq!(cat, vec![(100, vec![4])]);
}

#[test]
fn zero_qualifying_reads_report_empty() {
    let reads: Vec<AlignedRead> = Vec::new();
    let (cov, cat, deltas) = extract_indels_by_position(&reads, 100, 200, 5, 3840);
    assert_eq!(cov, 0);
    assert!(cat.is_empty());
    assert!(deltas.is_empty());
}
