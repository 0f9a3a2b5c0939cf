use windelta::config::ArgParser;
use windelta::report::{cluster_length_offsets, Locus};
use windelta::window::Window;

fn args() -> ArgParser {
    ArgParser {
        bam: "reads.bam".to_string(),
        bed: "regions.bed".to_string(),
        out: "out.tsv".to_string(),
        mapq: 5,
        mapflag: 3840,
        kmer: 3,
        threads: 1,
        debug: false,
        buffer: 50,
    }
}

#[test]
fn validate_accepts_two_existing_files() {
    assert!(args().validate(true, true, true, true));
}

#[test]
fn validate_rejects_missing_or_nonfile_inputs() {
    assert!(!args().validate(false, false, true, true));
    assert!(!args().validate(true, false, true, true));
    assert!(!args().validate(true, true, false, false));
    assert!(!args().validate(true, true, true, false));
}

#[test]
fn widen_buffers_both_sides() {
    let w = Window::new("chr1".to_string(), 100, 200).widen(50);
    assert_eq!((w.start, w.end), (50, 250));
}

#[test]
fn widen_saturates_at_origin() {
    let w = Window::new("chr1".to_string(), 20, 200).widen(50);
    assert_eq!((w.start, w.end), (0, 250));
}

#[test]
fn new_locus_is_empty() {
    let l = Locus::new("chr2".to_string(), 10, 90);
    assert_eq!(l.n_reads, 0);
    assert_eq!(l.n_clusters, 0);
    assert!(l.clusters.is_empty() && l.kfeats.is_empty());
    assert!(l.read_lengths.is_empty() && l.read_seqs.is_empty());
}

#[test]
fn length_offsets_subtract_span() {
    let lengths = vec![120usize, 80, 100];
    let members = vec![0usize, 2];
    let got = cluster_length_offsets(&lengths, &members, 100);
    assert_eq!(got, vec![20, 0]);
}
