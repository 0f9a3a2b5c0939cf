use windelta::smooth::remove_stretches;

#[test]
fn short_runs_pass_through() {
    let v = b"AACCGGTT".to_vec();
    assert_eq!(remove_stretches(v.clone()), v);
}

#[test]
fn long_run_collapses_to_five() {
    let v = b"AAAAAAAA".to_vec();
    assert_eq!(remove_stretches(v), b"AAAAA".to_vec());
}

#[test]
fn mixed_runs_each_capped() {
    let v = b"CCCCCCCGTTTTTTTTTA".to_vec();
    assert_eq!(remove_stretches(v), b"CCCCCGTTTTTA".to_vec());
}

#[test]
fn smoothing_is_idempotent_on_samples() {
    for v in [
        b"AAAAAAAAAACGTTTTTTT".to_vec(),
        b"GGGGGG".to_vec(),
        b"".to_vec(),
        b"ACACACAC".to_vec(),
    ] {
        let once = remove_stretches(v);
        let twice = remove_stretches(once.clone());
        assert_eq!(once, twice);
    }
}

#[test]
fn run_of_exactly_five_kept() {
    let v = b"TTTTT".to_vec();
    assert_eq!(remove_stretches(v.clone()), v);
}
