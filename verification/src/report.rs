//! The per-window report record.

use vstd::prelude::*;

verus! {

/// The terminal artifact of one analyzed window.
pub struct Locus {
    /// Chromosome name of the window.
    pub chrom: String,
    /// Inclusive window start.
    pub start: u64,
    /// Exclusive window end.
    pub end: u64,
    /// Number of qualifying reads.
    pub n_reads: usize,
    /// Chosen cluster count.
    pub n_clusters: usize,
    /// Per-cluster member indices into the window's feature collection.
    pub clusters: Vec<Vec<usize>>,
    /// The window's delta feature vectors.
    pub kfeats: Vec<Vec<i64>>,
    /// Projected segment length of each qualifying read.
    pub read_lengths: Vec<usize>,
    /// Raw segment bytes of each qualifying read.
    pub read_seqs: Vec<Vec<u8>>,
}

impl Locus {
    /// An empty report for the window `[start, end)`.
    pub fn new(chrom: String, start: u64, end: u64) -> (l: Locus)
        ensures
            l.chrom == chrom && l.start == start && l.end == end,
            l.n_reads == 0 && l.n_clusters == 0,
            l.clusters@.len() == 0 && l.kfeats@.len() == 0,
            l.read_lengths@.len() == 0 && l.read_seqs@.len() == 0,
    {
        Locus {
            chrom,
            start,
            end,
            n_reads: 0,
            n_clusters: 0,
            clusters: Vec::new(),
            kfeats: Vec::new(),
            read_lengths: Vec::new(),
            read_seqs: Vec::new(),
        }
    }
}

/// One cluster's read-length offsets: each member's recorded read length
/// minus the window span, in member order.
pub fn cluster_length_offsets(read_lengths: &Vec<usize>, members: &Vec<usize>, span: i64) -> (r:
    Vec<i64>)
    requires
        forall|t: int|
            0 <= t < members@.len() ==> (#[trigger] members@[t]) < read_lengths@.len(),
        forall|q: int|
            0 <= q < read_lengths@.len() ==> (#[trigger] read_lengths@[q]) <= 0x4000_0000_0000,
        -0x4000_0000_0000 <= span <= 0x4000_0000_0000,
    ensures
        r@.len() == members@.len(),
        forall|t: int|
            0 <= t < members@.len() ==> #[trigger] r@[t] == read_lengths@[members@[t] as int] - span,
{
    let mut r: Vec<i64> = Vec::new();
    let mut t: usize = 0;
    while t < members.len()
        invariant
            t <= members@.len(),
            forall|q: int|
                0 <= q < members@.len() ==> (#[trigger] members@[q]) < read_lengths@.len(),
            forall|q: int|
                0 <= q < read_lengths@.len() ==> (#[trigger] read_lengths@[q]) <= 0x4000_0000_0000,
            -0x4000_0000_0000 <= span <= 0x4000_0000_0000,
            r@.len() == t,
            forall|q: int|
                0 <= q < t ==> #[trigger] r@[q] == read_lengths@[members@[q] as int] - span,
        decreases members@.len() - t,
    {
        let len = read_lengths[members[t]];
        r.push(len as i64 - span);
        t = t + 1;
    }
    r
}

} // verus!
