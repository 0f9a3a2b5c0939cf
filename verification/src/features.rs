//! Per-window featurization: every qualifying read yields one delta k-mer
//! feature vector contrasting its projected, smoothed window segment with
//! the smoothed reference subsequence of the same window.

use vstd::prelude::*;
use crate::align::{AlignedRead, check_qualifying, qual_prefix, qualifying_reads, read_sized};
use crate::kmer::{add_kfeats, kmer_count, pow4, seq_to_kmer};
use crate::project::{extract_segment, project_read, projected_read_len, projected_read_start,
    segment_accepted};
use crate::smooth::{lemma_smoothed_len, remove_stretches, smoothed};

verus! {

/// The window segment a read contributes: the projected slice of its
/// sequence, or the empty sequence when the projection is rejected.
pub open spec fn read_segment(r: AlignedRead, start: u64, end: u64) -> Seq<u8> {
    let rs = projected_read_start(r.cigar@, r.ref_start as int, start as int, end as int);
    let rl = projected_read_len(r.cigar@, r.ref_start as int, start as int, end as int);
    if segment_accepted(r.seq@.len() as int, rs, rl, end - start) {
        r.seq@.subrange(rs, rs + rl)
    } else {
        Seq::empty()
    }
}

/// The delta feature vector of a read against a reference subsequence:
/// per k-mer, the count in the read's smoothed segment minus the count in
/// the smoothed reference subsequence.
pub open spec fn delta_entry(r: AlignedRead, ref_seq: Seq<u8>, start: u64, end: u64, k: int, m: int) -> int {
    kmer_count(smoothed(read_segment(r, start, end)), k, m) - kmer_count(smoothed(ref_seq), k, m)
}

/// Builds one delta k-mer feature vector per qualifying read of the window
/// `[start, end)`, in input order; a read whose projection is rejected
/// contributes the empty segment and so a pure negated-reference vector.
pub fn feature_vectors(
    reads: &Vec<AlignedRead>,
    ref_seq: Vec<u8>,
    start: u64,
    end: u64,
    k: usize,
    min_mapq: u8,
    flag_mask: u16,
) -> (result: Vec<Vec<i64>>)
    requires
        1 <= k <= 10,
        start < end,
        end <= 0x40_0000_0000,
        ref_seq@.len() <= 1048576,
        forall|j: int| 0 <= j < reads@.len() ==> read_sized(#[trigger] reads@[j]),
    ensures
        result@.len() == qualifying_reads(reads@, start, end, min_mapq, flag_mask).len(),
        forall|j: int|
            0 <= j < result@.len() ==> (#[trigger] result@[j])@.len() == pow4(k as nat),
        forall|j: int, m: int|
            0 <= j < result@.len() && 0 <= m < pow4(k as nat) ==> #[trigger] result@[j]@[m]
                == delta_entry(
                qualifying_reads(reads@, start, end, min_mapq, flag_mask)[j],
                ref_seq@,
                start,
                end,
                k as int,
                m,
            ),
{
    let ref_sm = remove_stretches(ref_seq);
    proof {
        lemma_smoothed_len(ref_seq@);
        reveal_with_fuel(pow4, 11);
        crate::kmer::lemma_pow4_mono(k as nat, 10);
    }
    let ref_kfeat = seq_to_kmer(&ref_sm, k, true);
    let mut result: Vec<Vec<i64>> = Vec::new();
    let mut i: usize = 0;
    while i < reads.len()
        invariant
            i <= reads@.len(),
            1 <= k <= 10,
            start < end <= 0x40_0000_0000,
            ref_sm@ == smoothed(ref_seq@),
            ref_kfeat@.len() == pow4(k as nat),
            pow4(k as nat) <= 1048576,
            forall|m: int|
                0 <= m < ref_kfeat@.len() ==> #[trigger] ref_kfeat@[m] == -kmer_count(
                    smoothed(ref_seq@),
                    k as int,
                    m,
                ),
            forall|m: int|
                0 <= m < ref_kfeat@.len() ==> -1048576 <= #[trigger] ref_kfeat@[m] <= 1048576,
            forall|j: int| 0 <= j < reads@.len() ==> read_sized(#[trigger] reads@[j]),
            result@.len() == qual_prefix(reads@, i as int, start, end, min_mapq, flag_mask).len(),
            forall|j: int|
                0 <= j < result@.len() ==> (#[trigger] result@[j])@.len() == pow4(k as nat),
            forall|j: int, m: int|
                0 <= j < result@.len() && 0 <= m < pow4(k as nat) ==> #[trigger] result@[j]@[m]
                    == delta_entry(
                    qual_prefix(reads@, i as int, start, end, min_mapq, flag_mask)[j],
                    ref_seq@,
                    start,
                    end,
                    k as int,
                    m,
                ),
        decreases reads@.len() - i,
    {
        let r = &reads[i];
        if check_qualifying(r, start, end, min_mapq, flag_mask) {
            let (rs, rl) = project_read(&r.cigar, r.ref_start, start, end);
            let seg = extract_segment(&r.seq, rs, rl, end - start);
            let seg_sm: Vec<u8> = match seg {
                Some(s) => remove_stretches(s),
                None => Vec::new(),
            };
            proof {
                lemma_smoothed_len(read_segment(reads@[i as int], start, end));
                assert(smoothed(Seq::<u8>::empty()) =~= Seq::<u8>::empty());
                assert(seg_sm@ == smoothed(read_segment(reads@[i as int], start, end)));
            }
            let mut kf = seq_to_kmer(&seg_sm, k, false);
            add_kfeats(&mut kf, &ref_kfeat);
            result.push(kf);
        }
        i = i + 1;
    }
    result
}

/// The per-window artifact counts agree: the featurization path yields one
/// delta feature vector and one window segment per qualifying read, and the
/// indel path yields one net delta per qualifying read, all under the same
/// record filter — so the three counts are equal for the same window.
pub proof fn lemma_counts_match(
    fv: Seq<Vec<i64>>,
    res: (u64, Vec<(u64, Vec<i64>)>, Vec<i64>),
    reads: Seq<AlignedRead>,
    start: u64,
    end: u64,
    min_mapq: u8,
    flag_mask: u16,
)
    requires
        fv.len() == qualifying_reads(reads, start, end, min_mapq, flag_mask).len(),
        crate::indel::indel_result_ok(res, reads, start, end, min_mapq, flag_mask),
    ensures
        fv.len() == res.2@.len(),
        fv.len() == qualifying_reads(reads, start, end, min_mapq, flag_mask).len(),
{
}

} // verus!
