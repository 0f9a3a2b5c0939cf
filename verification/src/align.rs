//! Plain-value model of an aligned read: its sequence bytes, its
//! alignment-operation string, and the record fields the filters read.

use vstd::prelude::*;

verus! {

/// One alignment operation: the kind and the number of bases it spans.
#[derive(Clone, Copy, PartialEq, Eq, Structural)]
pub enum CigarOp {
    /// Aligned bases, possibly matching the reference.
    Match(u32),
    /// Aligned bases reported as differing from the reference.
    Mismatch(u32),
    /// Bases present in the read but not in the reference.
    Ins(u32),
    /// Reference bases missing from the read.
    Del(u32),
    /// Read bases kept in the sequence but not aligned.
    SoftClip(u32),
    /// Read bases cut away from the stored sequence.
    HardClip(u32),
    /// Reference bases skipped by the alignment.
    Skip(u32),
}

/// A pre-aligned read as plain values.
pub struct AlignedRead {
    /// The read's stored sequence bytes.
    pub seq: Vec<u8>,
    /// The alignment-operation string, in order.
    pub cigar: Vec<CigarOp>,
    /// First reference position covered by the alignment.
    pub ref_start: u64,
    /// One past the last reference position covered by the alignment.
    pub ref_end: u64,
    /// Mapping quality.
    pub mapq: u8,
    /// Flag bitmask of the record.
    pub flags: u16,
    /// Query name of the record.
    pub name: Vec<u8>,
}

/// Size bounds under which every cursor computation below stays inside u64.
pub open spec fn read_sized(r: AlignedRead) -> bool {
    &&& r.seq@.len() <= 1048576
    &&& r.cigar@.len() <= 1048576
    &&& r.ref_start <= 0x40_0000_0000
}

/// The record filter shared by every extraction path: non-empty sequence,
/// mapping quality at least the minimum, no excluded flag set, and an
/// alignment that fully spans the window.
pub open spec fn is_qualifying(
    r: AlignedRead,
    start: u64,
    end: u64,
    min_mapq: u8,
    flag_mask: u16,
) -> bool {
    &&& r.seq@.len() > 0
    &&& r.mapq >= min_mapq
    &&& (r.flags & flag_mask) == 0
    &&& r.ref_start < start
    &&& r.ref_end > end
}

/// The qualifying records among the first `n`, in input order.
pub open spec fn qual_prefix(
    reads: Seq<AlignedRead>,
    n: int,
    start: u64,
    end: u64,
    min_mapq: u8,
    flag_mask: u16,
) -> Seq<AlignedRead>
    decreases n,
{
    if n <= 0 {
        Seq::empty()
    } else if is_qualifying(reads[n - 1], start, end, min_mapq, flag_mask) {
        qual_prefix(reads, n - 1, start, end, min_mapq, flag_mask).push(reads[n - 1])
    } else {
        qual_prefix(reads, n - 1, start, end, min_mapq, flag_mask)
    }
}

/// All qualifying records of the input, in input order.
pub open spec fn qualifying_reads(
    reads: Seq<AlignedRead>,
    start: u64,
    end: u64,
    min_mapq: u8,
    flag_mask: u16,
) -> Seq<AlignedRead> {
    qual_prefix(reads, reads.len() as int, start, end, min_mapq, flag_mask)
}

pub proof fn lemma_qual_prefix_len(
    reads: Seq<AlignedRead>,
    n: int,
    start: u64,
    end: u64,
    min_mapq: u8,
    flag_mask: u16,
)
    requires
        0 <= n <= reads.len(),
    ensures
        qual_prefix(reads, n, start, end, min_mapq, flag_mask).len() <= n,
    decreases n,
{
    if n > 0 {
        lemma_qual_prefix_len(reads, n - 1, start, end, min_mapq, flag_mask);
    }
}

/// Runtime form of the shared record filter.
pub fn check_qualifying(r: &AlignedRead, start: u64, end: u64, min_mapq: u8, flag_mask: u16) -> (q:
    bool)
    ensures
        q == is_qualifying(*r, start, end, min_mapq, flag_mask),
{
    r.seq.len() > 0 && r.mapq >= min_mapq && (r.flags & flag_mask) == 0 && r.ref_start < start
        && r.ref_end > end
}

} // verus!
