use windelta::align::CigarOp;
use windelta::project::{extract_segment, project_read};

#[test]
fn full_match_projects_window_directly() {
    let cigar = vec![CigarOp::Match(100)];
    let (rs, rl) = project_read(&cigar, 0, 40, 60);
    assert_eq!(rs, 40);
    assert_eq!(rl, 20);
}

#[test]
fn deletion_inside_window_contributes_nothing() {
    let cigar = vec![CigarOp::Match(40), CigarOp::Del(30), CigarOp::Match(40)];
    let (rs, rl) = project_read(&cigar, 0, 30, 70);
    assert_eq!(rs, 30);
    assert_eq!(rl, 10);
}

#[test]
fn insertion_at_window_point_counts() {
    let cigar = vec![CigarOp::Match(50), CigarOp::Ins(7), CigarOp::Match(50)];
    let (rs, rl) = project_read(&cigar, 0, 40, 60);
    assert_eq!(rs, 40);
    assert_eq!(rl, 27);
}

#[test]
fn soft_clip_shifts_read_start() {
    let cigar = vec![CigarOp::SoftClip(10), CigarOp::Match(100)];
    let (rs, rl) = project_read(&cigar, 0, 40, 60);
    assert_eq!(rs, 50);
    assert_eq!(rl, 20);
}

#[test]
fn segment_rejected_without_indel_signal() {
    // Projected length within twenty bases of the window length is skipped.
    let seq = vec![65u8; 100];
    assert!(extract_segment(&seq, 40, 20, 20).is_none());
    assert!(extract_segment(&seq, 40, 25, 20).is_none());
}

#[test]
fn segment_rejected_when_empty_or_out_of_range() {
    let seq = vec![65u8; 30];
    assert!(extract_segment(&seq, 10, 0, 20).is_none());
    assert!(extract_segment(&seq, 25, 50, 20).is_none());
}

#[test]
fn segment_sliced_when_accepted() {
    let seq: Vec<u8> = (0..100u8).collect();
    let got = extract_segment(&seq, 10, 50, 20).unwrap();
    assert_eq!(got, (10..60u8).collect::<Vec<u8>>());
}

#[test]
fn deletion_straddling_start_moves_read_start_past_it() {
    let cigar = vec![CigarOp::Match(40), CigarOp::Del(30), CigarOp::Match(200)];
    let (rs, rl) = project_read(&cigar, 0, 50, 80);
    // The first read base after the deletion sits at read position forty.
    assert_eq!(rs, 40);
    assert_eq!(rl, 10);
}
