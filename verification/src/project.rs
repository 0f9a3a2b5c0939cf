//! Projection of a reference-coordinate window onto a read's sequence
//! coordinates, by walking the read's alignment-operation string.

use vstd::prelude::*;
use crate::align::CigarOp;

verus! {

/// Walk state: projected read start, projected read length, reference
/// cursor, read cursor.
pub open spec fn proj_init(init_ref: int) -> (int, int, int, int) {
    (0, 0, init_ref, 0)
}

/// One step of the projection walk over the window `[start, end)`.
///
/// Aligned bases advance both cursors; the portion of an aligned run inside
/// the window, clipped at both edges, counts into the projected length, and
/// the run that first straddles `start` fixes the projected read start.
/// A deletion or a skip advances only the reference cursor; a deletion that
/// straddles `start` moves the projected read start to the first read base
/// after it. An insertion or a soft clip advances only the read cursor; an
/// insertion counts into the projected length exactly when its occurrence
/// point lies within the closed interval `[start, end]`. Hard-clipped bases
/// are absent from the stored sequence and move nothing.
pub open spec fn proj_step(st: (int, int, int, int), op: CigarOp, start: int, end: int) -> (
    int,
    int,
    int,
    int,
) {
    let rs = st.0;
    let rl = st.1;
    let refp = st.2;
    let readp = st.3;
    match op {
        CigarOp::Match(l) => proj_aligned(st, l as int, start, end),
        CigarOp::Mismatch(l) => proj_aligned(st, l as int, start, end),
        CigarOp::Ins(l) => (
            rs,
            if start <= refp <= end {
                rl + l
            } else {
                rl
            },
            refp,
            readp + l,
        ),
        CigarOp::Del(l) => (
            if refp <= start && refp + l >= start {
                readp
            } else {
                rs
            },
            rl,
            refp + l,
            readp,
        ),
        CigarOp::SoftClip(l) => (rs, rl, refp, readp + l),
        CigarOp::HardClip(_) => st,
        CigarOp::Skip(l) => (rs, rl, refp + l, readp),
    }
}

/// The aligned-run case of the walk.
pub open spec fn proj_aligned(st: (int, int, int, int), l: int, start: int, end: int) -> (
    int,
    int,
    int,
    int,
) {
    let rs = st.0;
    let rl = st.1;
    let refp = st.2;
    let readp = st.3;
    let lo = if refp > start {
        refp
    } else {
        start
    };
    let hi = if refp + l < end {
        refp + l
    } else {
        end
    };
    (
        if refp <= start && refp + l > start {
            readp + (start - refp)
        } else {
            rs
        },
        if hi > lo {
            rl + (hi - lo)
        } else {
            rl
        },
        refp + l,
        readp + l,
    )
}

/// Walk state after the first `n` operations.
pub open spec fn proj_state(ops: Seq<CigarOp>, n: int, init_ref: int, start: int, end: int) -> (
    int,
    int,
    int,
    int,
)
    decreases n,
{
    if n <= 0 {
        proj_init(init_ref)
    } else {
        proj_step(proj_state(ops, n - 1, init_ref, start, end), ops[n - 1], start, end)
    }
}

/// The projected read start of a full walk.
pub open spec fn projected_read_start(ops: Seq<CigarOp>, init_ref: int, start: int, end: int) -> int {
    proj_state(ops, ops.len() as int, init_ref, start, end).0
}

/// The projected read length of a full walk.
pub open spec fn projected_read_len(ops: Seq<CigarOp>, init_ref: int, start: int, end: int) -> int {
    proj_state(ops, ops.len() as int, init_ref, start, end).1
}

/// The reference cursor never moves backwards.
proof fn lemma_proj_ref_mono(ops: Seq<CigarOp>, n1: int, n2: int, init_ref: int, start: int, end: int)
    requires
        0 <= n1 <= n2 <= ops.len(),
    ensures
        proj_state(ops, n1, init_ref, start, end).2 <= proj_state(ops, n2, init_ref, start, end).2,
    decreases n2 - n1,
{
    if n1 < n2 {
        lemma_proj_ref_mono(ops, n1, n2 - 1, init_ref, start, end);
    }
}

/// Once the reference cursor has passed the window end, the remaining
/// operations change neither the projected read start nor the projected
/// read length: the walk may stop there.
proof fn lemma_proj_stops(ops: Seq<CigarOp>, n1: int, n2: int, init_ref: int, start: int, end: int)
    requires
        0 <= n1 <= n2 <= ops.len(),
        start < end,
        proj_state(ops, n1, init_ref, start, end).2 > end,
    ensures
        proj_state(ops, n2, init_ref, start, end).0 == proj_state(ops, n1, init_ref, start, end).0,
        proj_state(ops, n2, init_ref, start, end).1 == proj_state(ops, n1, init_ref, start, end).1,
    decreases n2 - n1,
{
    if n1 < n2 {
        lemma_proj_stops(ops, n1, n2 - 1, init_ref, start, end);
        lemma_proj_ref_mono(ops, n1, n2 - 1, init_ref, start, end);
    }
}

/// Maps the window `[start, end)` onto the read's sequence coordinates by
/// walking its alignment-operation string from `aln_start`, and returns the
/// projected read start and projected read length.
pub fn project_read(cigar: &Vec<CigarOp>, aln_start: u64, start: u64, end: u64) -> (res: (u64, u64))
    requires
        start < end,
        end <= 0x40_0000_0000,
        aln_start <= 0x40_0000_0000,
        cigar@.len() <= 1048576,
    ensures
        res.0 as int == projected_read_start(cigar@, aln_start as int, start as int, end as int),
        res.1 as int == projected_read_len(cigar@, aln_start as int, start as int, end as int),
{
    let mut rs: u64 = 0;
    let mut rl: u64 = 0;
    let mut refp: u64 = aln_start;
    let mut readp: u64 = 0;
    let mut i: usize = 0;
    while i < cigar.len()
        invariant
            i <= cigar@.len() <= 1048576,
            start < end <= 0x40_0000_0000,
            aln_start <= 0x40_0000_0000,
            rs as int == proj_state(cigar@, i as int, aln_start as int, start as int, end as int).0,
            rl as int == proj_state(cigar@, i as int, aln_start as int, start as int, end as int).1,
            refp as int == proj_state(
                cigar@,
                i as int,
                aln_start as int,
                start as int,
                end as int,
            ).2,
            readp as int == proj_state(
                cigar@,
                i as int,
                aln_start as int,
                start as int,
                end as int,
            ).3,
            refp <= aln_start + 0x1_0000_0000 * (i as int),
            readp <= 0x1_0000_0000 * (i as int),
            rs <= 0x1_0000_0000 * (i as int),
            rl <= 0x1_0000_0000 * (i as int) + end,
        ensures
            rs as int == projected_read_start(cigar@, aln_start as int, start as int, end as int),
            rl as int == projected_read_len(cigar@, aln_start as int, start as int, end as int),
        decreases cigar@.len() - i,
    {
        let op = cigar[i];
        match op {
            CigarOp::Match(l) | CigarOp::Mismatch(l) => {
                let l = l as u64;
                if refp <= start && refp + l > start {
                    rs = readp + (start - refp);
                }
                let lo = if refp > start {
                    refp
                } else {
                    start
                };
                let hi = if refp + l < end {
                    refp + l
                } else {
                    end
                };
                if hi > lo {
                    rl = rl + (hi - lo);
                }
                refp = refp + l;
                readp = readp + l;
            },
            CigarOp::Ins(l) => {
                let l = l as u64;
                if start <= refp && refp <= end {
                    rl = rl + l;
                }
                readp = readp + l;
            },
            CigarOp::Del(l) => {
                let l = l as u64;
                if refp <= start && refp + l >= start {
                    rs = readp;
                }
                refp = refp + l;
            },
            CigarOp::SoftClip(l) => {
                readp = readp + l as u64;
            },
            CigarOp::HardClip(_) => {
            },
            CigarOp::Skip(l) => {
                refp = refp + l as u64;
            },
        }
        i = i + 1;
        if refp > end {
            proof {
                lemma_proj_stops(
                    cigar@,
                    i as int,
                    cigar@.len() as int,
                    aln_start as int,
                    start as int,
                    end as int,
                );
            }
            break ;
        }
    }
    (rs, rl)
}

/// Whether a projected range yields a usable segment: it must be non-empty,
/// lie inside the stored sequence, and differ from the window length by at
/// least twenty bases — a read whose projected length stays nearer the
/// window length shows no detectable indel signal and is skipped.
pub open spec fn segment_accepted(seq_len: int, rs: int, rl: int, window_len: int) -> bool {
    &&& rl != 0
    &&& rs + rl <= seq_len
    &&& (rl >= window_len + 20 || window_len >= rl + 20)
}

/// Slices the projected range out of the read sequence, or rejects it.
pub fn extract_segment(seq: &Vec<u8>, read_start: u64, read_len: u64, window_len: u64) -> (res:
    Option<Vec<u8>>)
    ensures
        res.is_some() <==> segment_accepted(
            seq@.len() as int,
            read_start as int,
            read_len as int,
            window_len as int,
        ),
        res.is_some() ==> res.unwrap()@ == seq@.subrange(
            read_start as int,
            read_start + read_len,
        ),
{
    if read_len == 0 {
        return None;
    }
    if read_start > seq.len() as u64 || read_len > seq.len() as u64 - read_start {
        return None;
    }
    let signal = if read_len >= window_len {
        read_len - window_len >= 20
    } else {
        window_len - read_len >= 20
    };
    if !signal {
        return None;
    }
    let lo = read_start as usize;
    let hi = (read_start + read_len) as usize;
    let mut out: Vec<u8> = Vec::new();
    let mut t: usize = lo;
    while t < hi
        invariant
            lo <= t <= hi <= seq@.len(),
            out@ == seq@.subrange(lo as int, t as int),
        decreases hi - t,
    {
        proof {
            assert(seq@.subrange(lo as int, t + 1) =~= seq@.subrange(lo as int, t as int).push(
                seq@[t as int],
            ));
        }
        out.push(seq[t]);
        t = t + 1;
    }
    Some(out)
}

} // verus!
