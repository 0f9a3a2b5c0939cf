//! Positional indel signatures over a window: per-offset indel observation
//! catalogs, per-read net indel deltas, and a coverage estimate, derived
//! from qualifying records by either of two interchangeable strategies.

use vstd::prelude::*;
use crate::align::{AlignedRead, CigarOp, check_qualifying, is_qualifying, qual_prefix,
    qualifying_reads, read_sized};
use crate::kmer::seq_sum;

verus! {

/// How far an operation advances the reference cursor.
pub open spec fn ref_adv(op: CigarOp) -> int {
    match op {
        CigarOp::Match(l) => l as int,
        CigarOp::Mismatch(l) => l as int,
        CigarOp::Del(l) => l as int,
        CigarOp::Skip(l) => l as int,
        CigarOp::Ins(_) => 0,
        CigarOp::SoftClip(_) => 0,
        CigarOp::HardClip(_) => 0,
    }
}

/// Reference cursor before operation `n`, starting from `init_ref`.
pub open spec fn ref_pos_at(ops: Seq<CigarOp>, n: int, init_ref: int) -> int
    decreases n,
{
    if n <= 0 {
        init_ref
    } else {
        ref_pos_at(ops, n - 1, init_ref) + ref_adv(ops[n - 1])
    }
}

/// Signed indel observations anchored exactly at reference position `pos`
/// among the first `n` operations: an insertion contributes its length, a
/// deletion its negated length, in operation order.
pub open spec fn anchored_events(ops: Seq<CigarOp>, n: int, init_ref: int, pos: int) -> Seq<i64>
    decreases n,
{
    if n <= 0 {
        Seq::empty()
    } else {
        let pre = anchored_events(ops, n - 1, init_ref, pos);
        let p = ref_pos_at(ops, n - 1, init_ref);
        match ops[n - 1] {
            CigarOp::Ins(l) => if p == pos {
                pre.push(l as i64)
            } else {
                pre
            },
            CigarOp::Del(l) => if p == pos {
                pre.push(((-(l as int)) as i64))
            } else {
                pre
            },
            _ => pre,
        }
    }
}

/// Net signed indel total of the first `n` operations whose occurrence
/// point lies in `[start, up)`.
pub open spec fn windowed_delta(ops: Seq<CigarOp>, n: int, init_ref: int, start: int, up: int) -> int
    decreases n,
{
    if n <= 0 {
        0
    } else {
        let pre = windowed_delta(ops, n - 1, init_ref, start, up);
        let p = ref_pos_at(ops, n - 1, init_ref);
        match ops[n - 1] {
            CigarOp::Ins(l) => if start <= p < up {
                pre + l
            } else {
                pre
            },
            CigarOp::Del(l) => if start <= p < up {
                pre - l
            } else {
                pre
            },
            _ => pre,
        }
    }
}

/// Net signed indel delta of a read across the window: insertions minus
/// deletions whose occurrence point lies in the closed interval
/// `[start, end]`.
pub open spec fn read_delta(r: AlignedRead, start: u64, end: u64) -> int {
    windowed_delta(r.cigar@, r.cigar@.len() as int, r.ref_start as int, start as int, end + 1)
}

/// Length of the intersection of `[a, b)` and `[lo, hi)`.
pub open spec fn overlap(a: int, b: int, lo: int, hi: int) -> int {
    let l = if a > lo {
        a
    } else {
        lo
    };
    let h = if b < hi {
        b
    } else {
        hi
    };
    if h > l {
        h - l
    } else {
        0
    }
}

/// Number of aligned read bases of the first `n` operations that fall on
/// reference positions in `[start, up)`.
pub open spec fn mcov_upto(ops: Seq<CigarOp>, n: int, init_ref: int, start: int, up: int) -> int
    decreases n,
{
    if n <= 0 {
        0
    } else {
        let pre = mcov_upto(ops, n - 1, init_ref, start, up);
        let p = ref_pos_at(ops, n - 1, init_ref);
        match ops[n - 1] {
            CigarOp::Match(l) => pre + overlap(p, p + l, start, up),
            CigarOp::Mismatch(l) => pre + overlap(p, p + l, start, up),
            _ => pre,
        }
    }
}

/// Whether some aligned base of the first `n` operations falls on
/// reference position `pos`.
pub open spec fn covers(ops: Seq<CigarOp>, n: int, init_ref: int, pos: int) -> bool
    decreases n,
{
    if n <= 0 {
        false
    } else {
        let pre = covers(ops, n - 1, init_ref, pos);
        let p = ref_pos_at(ops, n - 1, init_ref);
        match ops[n - 1] {
            CigarOp::Match(l) => pre || (p <= pos < p + l),
            CigarOp::Mismatch(l) => pre || (p <= pos < p + l),
            _ => pre,
        }
    }
}

/// An aligned base lies strictly before the cursor that follows it.
pub proof fn lemma_covers_lt(ops: Seq<CigarOp>, n: int, init_ref: int, pos: int)
    requires
        covers(ops, n, init_ref, pos),
    ensures
        pos < ref_pos_at(ops, n, init_ref),
    decreases n,
{
    if n > 0 {
        if covers(ops, n - 1, init_ref, pos) {
            lemma_covers_lt(ops, n - 1, init_ref, pos);
        }
    }
}

/// Raising the clip bound of the aligned-base count by one position adds
/// exactly one base when the position is covered and nothing otherwise.
pub proof fn lemma_mcov_step(ops: Seq<CigarOp>, n: int, init_ref: int, start: int, pos: int)
    requires
        start <= pos,
    ensures
        mcov_upto(ops, n, init_ref, start, pos + 1) == mcov_upto(ops, n, init_ref, start, pos) + (
        if covers(ops, n, init_ref, pos) {
            1int
        } else {
            0int
        }),
    decreases n,
{
    if n > 0 {
        lemma_mcov_step(ops, n - 1, init_ref, start, pos);
        let p = ref_pos_at(ops, n - 1, init_ref);
        match ops[n - 1] {
            CigarOp::Match(l) => {
                if covers(ops, n - 1, init_ref, pos) {
                    lemma_covers_lt(ops, n - 1, init_ref, pos);
                }
            },
            CigarOp::Mismatch(l) => {
                if covers(ops, n - 1, init_ref, pos) {
                    lemma_covers_lt(ops, n - 1, init_ref, pos);
                }
            },
            _ => {},
        }
    }
}

pub proof fn lemma_mcov_empty(ops: Seq<CigarOp>, n: int, init_ref: int, start: int, up: int)
    requires
        up <= start,
    ensures
        mcov_upto(ops, n, init_ref, start, up) == 0,
    decreases n,
{
    if n > 0 {
        lemma_mcov_empty(ops, n - 1, init_ref, start, up);
    }
}

/// At most one aligned base per reference position: the clipped count never
/// exceeds the number of clipped positions.
pub proof fn lemma_mcov_window_bound(ops: Seq<CigarOp>, n: int, init_ref: int, start: int, up: int)
    ensures
        0 <= mcov_upto(ops, n, init_ref, start, up),
        mcov_upto(ops, n, init_ref, start, up) <= (if up > start {
            up - start
        } else {
            0int
        }),
    decreases
            (if up > start {
                up - start
            } else {
                0int
            }),
{
    if up <= start {
        lemma_mcov_empty(ops, n, init_ref, start, up);
    } else {
        lemma_mcov_window_bound(ops, n, init_ref, start, up - 1);
        lemma_mcov_step(ops, n, init_ref, start, up - 1);
    }
}

/// Raising the clip bound of the windowed delta by one position adds
/// exactly the observations anchored at that position.
pub proof fn lemma_delta_step(ops: Seq<CigarOp>, n: int, init_ref: int, start: int, pos: int)
    requires
        start <= pos,
    ensures
        windowed_delta(ops, n, init_ref, start, pos + 1) == windowed_delta(
            ops,
            n,
            init_ref,
            start,
            pos,
        ) + seq_sum(anchored_events(ops, n, init_ref, pos)),
    decreases n,
{
    if n > 0 {
        lemma_delta_step(ops, n - 1, init_ref, start, pos);
        let pre = anchored_events(ops, n - 1, init_ref, pos);
        let p = ref_pos_at(ops, n - 1, init_ref);
        match ops[n - 1] {
            CigarOp::Ins(l) => {
                if p == pos {
                    assert(pre.push(l as i64).drop_last() =~= pre);
                }
            },
            CigarOp::Del(l) => {
                if p == pos {
                    assert(pre.push(((-(l as int)) as i64)).drop_last() =~= pre);
                }
            },
            _ => {},
        }
    }
}

pub proof fn lemma_delta_empty(ops: Seq<CigarOp>, n: int, init_ref: int, start: int, up: int)
    requires
        up <= start,
    ensures
        windowed_delta(ops, n, init_ref, start, up) == 0,
    decreases n,
{
    if n > 0 {
        lemma_delta_empty(ops, n - 1, init_ref, start, up);
    }
}

pub proof fn lemma_delta_bound(ops: Seq<CigarOp>, n: int, init_ref: int, start: int, up: int)
    requires
        0 <= n <= ops.len(),
    ensures
        -0x1_0000_0000 * n <= windowed_delta(ops, n, init_ref, start, up) <= 0x1_0000_0000 * n,
    decreases n,
{
    if n > 0 {
        lemma_delta_bound(ops, n - 1, init_ref, start, up);
    }
}

/// Observations anchored at `pos`, concatenated over the first `t`
/// qualifying reads in input order.
pub open spec fn all_anchored(quals: Seq<AlignedRead>, t: int, pos: int) -> Seq<i64>
    decreases t,
{
    if t <= 0 {
        Seq::empty()
    } else {
        all_anchored(quals, t - 1, pos) + anchored_events(
            quals[t - 1].cigar@,
            quals[t - 1].cigar@.len() as int,
            quals[t - 1].ref_start as int,
            pos,
        )
    }
}

pub proof fn lemma_all_anchored_push(quals: Seq<AlignedRead>, r: AlignedRead, t: int, pos: int)
    requires
        0 <= t <= quals.len(),
    ensures
        all_anchored(quals.push(r), t, pos) == all_anchored(quals, t, pos),
    decreases t,
{
    if t > 0 {
        lemma_all_anchored_push(quals, r, t - 1, pos);
        assert(quals.push(r)[t - 1] == quals[t - 1]);
    }
}

/// Aligned-base total clipped at `up`, summed over the first `t`
/// qualifying reads.
pub open spec fn total_mcov_upto(quals: Seq<AlignedRead>, t: int, start: int, up: int) -> int
    decreases t,
{
    if t <= 0 {
        0
    } else {
        total_mcov_upto(quals, t - 1, start, up) + mcov_upto(
            quals[t - 1].cigar@,
            quals[t - 1].cigar@.len() as int,
            quals[t - 1].ref_start as int,
            start,
            up,
        )
    }
}

pub proof fn lemma_total_mcov_push(quals: Seq<AlignedRead>, r: AlignedRead, t: int, start: int, up: int)
    requires
        0 <= t <= quals.len(),
    ensures
        total_mcov_upto(quals.push(r), t, start, up) == total_mcov_upto(quals, t, start, up),
    decreases t,
{
    if t > 0 {
        lemma_total_mcov_push(quals, r, t - 1, start, up);
        assert(quals.push(r)[t - 1] == quals[t - 1]);
    }
}

pub proof fn lemma_total_mcov_bound(quals: Seq<AlignedRead>, t: int, start: int, up: int)
    requires
        0 <= t,
    ensures
        0 <= total_mcov_upto(quals, t, start, up),
        total_mcov_upto(quals, t, start, up) <= t * (if up > start {
            up - start
        } else {
            0int
        }),
    decreases t,
{
    let w = if up > start {
        up - start
    } else {
        0int
    };
    if t > 0 {
        lemma_total_mcov_bound(quals, t - 1, start, up);
        lemma_mcov_window_bound(
            quals[t - 1].cigar@,
            quals[t - 1].cigar@.len() as int,
            quals[t - 1].ref_start as int,
            start,
            up,
        );
        assert(t * w == (t - 1) * w + w) by (nonlinear_arith);
    } else {
        assert(t * w == 0) by (nonlinear_arith)
            requires
                t == 0,
        ;
    }
}

/// The coverage estimate of a window: the per-base qualifying observation
/// total divided by the window length, floored at the qualifying-read
/// count to avoid integer-division underestimation on wide windows.
pub open spec fn coverage_of(
    reads: Seq<AlignedRead>,
    start: u64,
    end: u64,
    min_mapq: u8,
    flag_mask: u16,
) -> int {
    let quals = qualifying_reads(reads, start, end, min_mapq, flag_mask);
    let per = total_mcov_upto(quals, quals.len() as int, start as int, end + 1) / (end - start);
    if per >= quals.len() {
        per
    } else {
        quals.len() as int
    }
}

/// The coverage estimate is never below the qualifying-read count for the
/// same window under the same filter.
pub proof fn lemma_coverage_floor(
    reads: Seq<AlignedRead>,
    start: u64,
    end: u64,
    min_mapq: u8,
    flag_mask: u16,
)
    ensures
        coverage_of(reads, start, end, min_mapq, flag_mask) >= qualifying_reads(
            reads,
            start,
            end,
            min_mapq,
            flag_mask,
        ).len(),
{
}

/// The shared contract of the two extraction strategies: per-read deltas
/// for every qualifying read in input order, the coverage estimate, and a
/// catalog holding, per in-window offset with at least one observation, the
/// observations anchored there over all qualifying reads in order.
pub open spec fn indel_result_ok(
    res: (u64, Vec<(u64, Vec<i64>)>, Vec<i64>),
    reads: Seq<AlignedRead>,
    start: u64,
    end: u64,
    min_mapq: u8,
    flag_mask: u16,
) -> bool {
    let quals = qualifying_reads(reads, start, end, min_mapq, flag_mask);
    let cov = res.0;
    let cat = res.1@;
    let deltas = res.2@;
    &&& deltas.len() == quals.len()
    &&& (forall|j: int| 0 <= j < deltas.len() ==> deltas[j] == read_delta(quals[j], start, end))
    &&& cov as int == coverage_of(reads, start, end, min_mapq, flag_mask)
    &&& (forall|idx: int|
        0 <= idx < cat.len() ==> (#[trigger] cat[idx]).0 <= end - start && cat[idx].1@
            == all_anchored(quals, quals.len() as int, start + cat[idx].0) && cat[idx].1@.len() > 0)
    &&& (forall|i1: int, i2: int|
        0 <= i1 < i2 < cat.len() ==> (#[trigger] cat[i1]).0 != (#[trigger] cat[i2]).0)
    &&& (forall|off: u64|
        off <= end - start && (#[trigger] all_anchored(
            quals,
            quals.len() as int,
            start + off,
        )).len() > 0 ==> exists|idx: int| 0 <= idx < cat.len() && (#[trigger] cat[idx]).0 == off)
}

/// Catalog state while scanning: the observations expected at `pos` after
/// the first `i` records and, within a qualifying record `i`, its first `c`
/// operations.
pub open spec fn cat_expect(
    reads: Seq<AlignedRead>,
    i: int,
    c: int,
    start: u64,
    end: u64,
    min_mapq: u8,
    flag_mask: u16,
    pos: int,
) -> Seq<i64> {
    let quals = qual_prefix(reads, i, start, end, min_mapq, flag_mask);
    let base = all_anchored(quals, quals.len() as int, pos);
    if 0 <= i < reads.len() && is_qualifying(reads[i], start, end, min_mapq, flag_mask) {
        base + anchored_events(reads[i].cigar@, c, reads[i].ref_start as int, pos)
    } else {
        base
    }
}

/// Appends one observation to the catalog entry of `off`, creating the
/// entry when the offset is new.
fn push_obs(cat: &mut Vec<(u64, Vec<i64>)>, off: u64, v: i64)
    requires
        forall|i1: int, i2: int|
            0 <= i1 < i2 < old(cat)@.len() ==> (#[trigger] old(cat)@[i1]).0 != (
            #[trigger] old(cat)@[i2]).0,
    ensures
        forall|i1: int, i2: int|
            0 <= i1 < i2 < final(cat)@.len() ==> (#[trigger] final(cat)@[i1]).0 != (
            #[trigger] final(cat)@[i2]).0,
        (exists|t: int| 0 <= t < old(cat)@.len() && (#[trigger] old(cat)@[t]).0 == off)
            ==> final(cat)@.len() == old(cat)@.len() && (forall|t: int|
            0 <= t < final(cat)@.len() && (#[trigger] old(cat)@[t]).0 != off ==> final(cat)@[t]
                == old(cat)@[t]) && (forall|t: int|
            0 <= t < final(cat)@.len() && (#[trigger] old(cat)@[t]).0 == off
                ==> final(cat)@[t].0 == off && final(cat)@[t].1@ == old(cat)@[t].1@.push(v)),
        !(exists|t: int| 0 <= t < old(cat)@.len() && (#[trigger] old(cat)@[t]).0 == off)
            ==> final(cat)@.len() == old(cat)@.len() + 1 && (forall|t: int|
            0 <= t < old(cat)@.len() ==> #[trigger] final(cat)@[t] == old(cat)@[t])
            && final(cat)@.last().0 == off && final(cat)@.last().1@ == Seq::<i64>::empty().push(v),
{
    let mut idx: usize = 0;
    while idx < cat.len() && cat[idx].0 != off
        invariant
            idx <= cat@.len(),
            forall|t: int| 0 <= t < idx ==> (#[trigger] cat@[t]).0 != off,
            cat@ == old(cat)@,
        decreases cat@.len() - idx,
    {
        idx = idx + 1;
    }
    if idx < cat.len() {
        let (key, mut list) = cat.remove(idx);
        list.push(v);
        cat.insert(idx, (key, list));
        proof {
            assert(cat@ =~= old(cat)@.update(idx as int, (key, list)));
        }
    } else {
        let mut list: Vec<i64> = Vec::new();
        list.push(v);
        cat.push((off, list));
    }
}

/// Extracts coverage, the per-offset indel catalog, and per-read net
/// deltas by one operation-string walk per qualifying record, tracking a
/// reference cursor and recording each observation at its offset.
pub fn extract_indels_by_read(
    reads: &Vec<AlignedRead>,
    start: u64,
    end: u64,
    min_mapq: u8,
    flag_mask: u16,
) -> (res: (u64, Vec<(u64, Vec<i64>)>, Vec<i64>))
    requires
        start < end,
        end <= 0x40_0000_0000,
        reads@.len() <= 1048576,
        forall|j: int| 0 <= j < reads@.len() ==> read_sized(#[trigger] reads@[j]),
    ensures
        indel_result_ok(res, reads@, start, end, min_mapq, flag_mask),
{
    let mut cat: Vec<(u64, Vec<i64>)> = Vec::new();
    let mut deltas: Vec<i64> = Vec::new();
    let mut tot: u64 = 0;
    let mut i: usize = 0;
    while i < reads.len()
        invariant
            i <= reads@.len() <= 1048576,
            start < end <= 0x40_0000_0000,
            forall|j: int| 0 <= j < reads@.len() ==> read_sized(#[trigger] reads@[j]),
            deltas@.len() == qual_prefix(reads@, i as int, start, end, min_mapq, flag_mask).len(),
            forall|j: int|
                0 <= j < deltas@.len() ==> deltas@[j] == read_delta(
                    qual_prefix(reads@, i as int, start, end, min_mapq, flag_mask)[j],
                    start,
                    end,
                ),
            tot as int == total_mcov_upto(
                qual_prefix(reads@, i as int, start, end, min_mapq, flag_mask),
                qual_prefix(reads@, i as int, start, end, min_mapq, flag_mask).len() as int,
                start as int,
                end + 1,
            ),
            forall|idx: int|
                0 <= idx < cat@.len() ==> (#[trigger] cat@[idx]).0 <= end - start && cat@[idx].1@
                    == all_anchored(
                    qual_prefix(reads@, i as int, start, end, min_mapq, flag_mask),
                    qual_prefix(reads@, i as int, start, end, min_mapq, flag_mask).len() as int,
                    start + cat@[idx].0,
                ) && cat@[idx].1@.len() > 0,
            forall|i1: int, i2: int|
                0 <= i1 < i2 < cat@.len() ==> (#[trigger] cat@[i1]).0 != (#[trigger] cat@[i2]).0,
            forall|off: u64|
                off <= end - start && (#[trigger] all_anchored(
                    qual_prefix(reads@, i as int, start, end, min_mapq, flag_mask),
                    qual_prefix(reads@, i as int, start, end, min_mapq, flag_mask).len() as int,
                    start + off,
                )).len() > 0 ==> exists|idx: int|
                    0 <= idx < cat@.len() && (#[trigger] cat@[idx]).0 == off,
        decreases reads@.len() - i,
    {
        let ghost quals_i = qual_prefix(reads@, i as int, start, end, min_mapq, flag_mask);
        let r = &reads[i];
        if check_qualifying(r, start, end, min_mapq, flag_mask) {
            proof {
                assert forall|pos: int|
                    cat_expect(
                        reads@,
                        i as int,
                        0,
                        start,
                        end,
                        min_mapq,
                        flag_mask,
                        pos,
                    ) =~= all_anchored(quals_i, quals_i.len() as int, pos) by {
                    assert(anchored_events(
                        reads@[i as int].cigar@,
                        0,
                        reads@[i as int].ref_start as int,
                        pos,
                    ) =~= Seq::<i64>::empty());
                }
            }
            let ghost ops = r.cigar@;
            let ghost init = r.ref_start as int;
            let mut refp: u64 = r.ref_start;
            let mut delta: i64 = 0;
            let mut mc: u64 = 0;
            let mut c: usize = 0;
            while c < r.cigar.len()
                invariant
                    c <= ops.len() <= 1048576,
                    ops == reads@[i as int].cigar@,
                    init == reads@[i as int].ref_start as int,
                    0 <= i < reads@.len(),
                    is_qualifying(reads@[i as int], start, end, min_mapq, flag_mask),
                    start < end <= 0x40_0000_0000,
                    reads@[i as int].ref_start <= 0x40_0000_0000,
                    r == &reads[i as int],
                    quals_i == qual_prefix(reads@, i as int, start, end, min_mapq, flag_mask),
                    refp as int == ref_pos_at(ops, c as int, init),
                    refp <= init + 0x1_0000_0000 * (c as int),
                    delta as int == windowed_delta(ops, c as int, init, start as int, end + 1),
                    -0x1_0000_0000 * (c as int) <= delta as int <= 0x1_0000_0000 * (c as int),
                    mc as int == mcov_upto(ops, c as int, init, start as int, end + 1),
                    mc <= 0x1_0000_0000 * (c as int),
                    forall|idx: int|
                        0 <= idx < cat@.len() ==> (#[trigger] cat@[idx]).0 <= end - start
                            && cat@[idx].1@ == cat_expect(
                            reads@,
                            i as int,
                            c as int,
                            start,
                            end,
                            min_mapq,
                            flag_mask,
                            start + cat@[idx].0,
                        ) && cat@[idx].1@.len() > 0,
                    forall|i1: int, i2: int|
                        0 <= i1 < i2 < cat@.len() ==> (#[trigger] cat@[i1]).0 != (
                        #[trigger] cat@[i2]).0,
                    forall|off: u64|
                        off <= end - start && (#[trigger] cat_expect(
                            reads@,
                            i as int,
                            c as int,
                            start,
                            end,
                            min_mapq,
                            flag_mask,
                            start + off,
                        )).len() > 0 ==> exists|idx: int|
                            0 <= idx < cat@.len() && (#[trigger] cat@[idx]).0 == off,
                decreases ops.len() - c,
            {
                let op = r.cigar[c];
                match op {
                    CigarOp::Match(l) | CigarOp::Mismatch(l) => {
                        let l = l as u64;
                        let lo = if refp > start {
                            refp
                        } else {
                            start
                        };
                        let hi = if refp + l < end + 1 {
                            refp + l
                        } else {
                            end + 1
                        };
                        if hi > lo {
                            mc = mc + (hi - lo);
                        }
                        refp = refp + l;
                    },
                    CigarOp::Ins(l) => {
                        if start <= refp && refp <= end {
                            let off = refp - start;
                            let v = l as i64;
                            delta = delta + v;
                            let ghost oldcat = cat@;
                            push_obs(&mut cat, off, v);
                            proof {
                                obs_shift(
                                    reads@,
                                    i as int,
                                    c as int,
                                    start,
                                    end,
                                    min_mapq,
                                    flag_mask,
                                    oldcat,
                                    cat@,
                                    off,
                                    v,
                                );
                            }
                        }
                    },
                    CigarOp::Del(l) => {
                        if start <= refp && refp <= end {
                            let off = refp - start;
                            let v = -(l as i64);
                            delta = delta - (l as i64);
                            let ghost oldcat = cat@;
                            push_obs(&mut cat, off, v);
                            proof {
                                obs_shift(
                                    reads@,
                                    i as int,
                                    c as int,
                                    start,
                                    end,
                                    min_mapq,
                                    flag_mask,
                                    oldcat,
                                    cat@,
                                    off,
                                    v,
                                );
                            }
                        }
                        refp = refp + l as u64;
                    },
                    CigarOp::SoftClip(_) => {
                    },
                    CigarOp::HardClip(_) => {
                    },
                    CigarOp::Skip(l) => {
                        refp = refp + l as u64;
                    },
                }
                proof {
                    let p = ref_pos_at(ops, c as int, init);
                    let is_indel = ops[c as int] is Ins || ops[c as int] is Del;
                    if !(is_indel && start <= p <= end) {
                        assert forall|off2: u64|
                            off2 <= end - start implies #[trigger] cat_expect(
                            reads@,
                            i as int,
                            c + 1,
                            start,
                            end,
                            min_mapq,
                            flag_mask,
                            start + off2,
                        ) == cat_expect(
                            reads@,
                            i as int,
                            c as int,
                            start,
                            end,
                            min_mapq,
                            flag_mask,
                            start + off2,
                        ) by {
                            assert(anchored_events(ops, c + 1, init, start + off2)
                                == anchored_events(ops, c as int, init, start + off2));
                        }
                    }
                }
                c = c + 1;
            }
            deltas.push(delta);
            proof {
                lemma_mcov_window_bound(ops, ops.len() as int, init, start as int, end + 1);
                crate::align::lemma_qual_prefix_len(
                    reads@,
                    i as int,
                    start,
                    end,
                    min_mapq,
                    flag_mask,
                );
                lemma_total_mcov_bound(quals_i, quals_i.len() as int, start as int, end + 1);
                assert(quals_i.len() * (end + 1 - start) <= 1048576 * 0x40_0000_0001)
                    by (nonlinear_arith)
                    requires
                        0 <= quals_i.len() <= 1048576,
                        0 < end + 1 - start <= 0x40_0000_0001,
                ;
            }
            tot = tot + mc;
            proof {
                let quals_n = qual_prefix(reads@, i + 1, start, end, min_mapq, flag_mask);
                assert(quals_n == quals_i.push(reads@[i as int]));
                lemma_total_mcov_push(
                    quals_i,
                    reads@[i as int],
                    quals_i.len() as int,
                    start as int,
                    end + 1,
                );
                assert forall|pos: int|
                    cat_expect(
                        reads@,
                        i as int,
                        ops.len() as int,
                        start,
                        end,
                        min_mapq,
                        flag_mask,
                        pos,
                    ) == all_anchored(quals_n, quals_n.len() as int, pos) by {
                    lemma_all_anchored_push(quals_i, reads@[i as int], quals_i.len() as int, pos);
                }
            }
        }
        i = i + 1;
    }
    let per = tot / (end - start);
    let nq = deltas.len() as u64;
    let cov = if per >= nq {
        per
    } else {
        nq
    };
    (cov, cat, deltas)
}

/// One read's view of a single reference position: the observations
/// anchored there, whether the read has an aligned base there, and the
/// observations' signed sum.
fn read_at_pos(cigar: &Vec<CigarOp>, init_ref: u64, pos: u64) -> (out: (Vec<i64>, bool, i64))
    requires
        cigar@.len() <= 1048576,
        init_ref <= 0x40_0000_0000,
    ensures
        out.0@ == anchored_events(cigar@, cigar@.len() as int, init_ref as int, pos as int),
        out.1 == covers(cigar@, cigar@.len() as int, init_ref as int, pos as int),
        out.2 as int == seq_sum(out.0@),
        -0x1_0000_0000 * cigar@.len() <= out.2 as int <= 0x1_0000_0000 * cigar@.len(),
{
    let mut evs: Vec<i64> = Vec::new();
    let mut cov: bool = false;
    let mut s: i64 = 0;
    let mut refp: u64 = init_ref;
    let mut c: usize = 0;
    while c < cigar.len()
        invariant
            c <= cigar@.len() <= 1048576,
            init_ref <= 0x40_0000_0000,
            refp as int == ref_pos_at(cigar@, c as int, init_ref as int),
            refp <= init_ref + 0x1_0000_0000 * (c as int),
            evs@ == anchored_events(cigar@, c as int, init_ref as int, pos as int),
            cov == covers(cigar@, c as int, init_ref as int, pos as int),
            s as int == seq_sum(evs@),
            -0x1_0000_0000 * (c as int) <= s as int <= 0x1_0000_0000 * (c as int),
        decreases cigar@.len() - c,
    {
        let op = cigar[c];
        let ghost prev = evs@;
        match op {
            CigarOp::Match(l) | CigarOp::Mismatch(l) => {
                let l = l as u64;
                if refp <= pos && pos < refp + l {
                    cov = true;
                }
                refp = refp + l;
            },
            CigarOp::Ins(l) => {
                if refp == pos {
                    evs.push(l as i64);
                    proof {
                        assert(prev.push(l as i64).drop_last() =~= prev);
                    }
                    s = s + l as i64;
                }
            },
            CigarOp::Del(l) => {
                if refp == pos {
                    evs.push(-(l as i64));
                    proof {
                        assert(prev.push(((-(l as int)) as i64)).drop_last() =~= prev);
                    }
                    s = s - l as i64;
                }
                refp = refp + l as u64;
            },
            CigarOp::SoftClip(_) => {
            },
            CigarOp::HardClip(_) => {
            },
            CigarOp::Skip(l) => {
                refp = refp + l as u64;
            },
        }
        c = c + 1;
    }
    (evs, cov, s)
}

/// Extracts coverage, the per-offset indel catalog, and per-read net
/// deltas by a per-base pileup walk: every reference position of the
/// window is visited in turn and every qualifying record touching it is
/// inspected there.
#[verifier::rlimit(60)]
pub fn extract_indels_by_position(
    reads: &Vec<AlignedRead>,
    start: u64,
    end: u64,
    min_mapq: u8,
    flag_mask: u16,
) -> (res: (u64, Vec<(u64, Vec<i64>)>, Vec<i64>))
    requires
        start < end,
        end <= 0x40_0000_0000,
        reads@.len() <= 1048576,
        forall|j: int| 0 <= j < reads@.len() ==> read_sized(#[trigger] reads@[j]),
    ensures
        indel_result_ok(res, reads@, start, end, min_mapq, flag_mask),
{
    let ghost quals = qualifying_reads(reads@, start, end, min_mapq, flag_mask);
    let mut quals_idx: Vec<usize> = Vec::new();
    let mut i: usize = 0;
    while i < reads.len()
        invariant
            i <= reads@.len(),
            quals_idx@.len() == qual_prefix(reads@, i as int, start, end, min_mapq, flag_mask).len(),
            forall|j: int|
                0 <= j < quals_idx@.len() ==> (#[trigger] quals_idx@[j]) < reads@.len()
                    && reads@[quals_idx@[j] as int] == qual_prefix(
                    reads@,
                    i as int,
                    start,
                    end,
                    min_mapq,
                    flag_mask,
                )[j],
        decreases reads@.len() - i,
    {
        if check_qualifying(&reads[i], start, end, min_mapq, flag_mask) {
            quals_idx.push(i);
        }
        i = i + 1;
    }
    let n = quals_idx.len();
    proof {
        crate::align::lemma_qual_prefix_len(
            reads@,
            reads@.len() as int,
            start,
            end,
            min_mapq,
            flag_mask,
        );
    }
    let mut deltas: Vec<i64> = Vec::new();
    while deltas.len() < n
        invariant
            deltas@.len() <= n,
            forall|j: int| 0 <= j < deltas@.len() ==> deltas@[j] == 0,
        decreases n - deltas.len(),
    {
        deltas.push(0i64);
    }
    proof {
        assert forall|j: int| 0 <= j < n implies #[trigger] deltas@[j] == windowed_delta(
            quals[j].cigar@,
            quals[j].cigar@.len() as int,
            quals[j].ref_start as int,
            start as int,
            start as int,
        ) by {
            lemma_delta_empty(
                quals[j].cigar@,
                quals[j].cigar@.len() as int,
                quals[j].ref_start as int,
                start as int,
                start as int,
            );
        }
        assert forall|t: int| 0 <= t <= n implies #[trigger] total_mcov_upto(
            quals,
            t,
            start as int,
            start as int,
        ) == 0 by {
            lemma_total_mcov_zero(quals, t, start as int);
        }
    }
    let mut cat: Vec<(u64, Vec<i64>)> = Vec::new();
    let mut tot: u64 = 0;
    let mut pos: u64 = start;
    while pos <= end
        invariant
            start <= pos <= end + 1,
            start < end <= 0x40_0000_0000,
            n == quals.len() <= reads@.len() <= 1048576,
            quals == qualifying_reads(reads@, start, end, min_mapq, flag_mask),
            quals_idx@.len() == n,
            forall|j: int|
                0 <= j < n ==> (#[trigger] quals_idx@[j]) < reads@.len()
                    && reads@[quals_idx@[j] as int] == quals[j],
            forall|j: int| 0 <= j < reads@.len() ==> read_sized(#[trigger] reads@[j]),
            deltas@.len() == n,
            forall|j: int|
                0 <= j < n ==> #[trigger] deltas@[j] as int == windowed_delta(
                    quals[j].cigar@,
                    quals[j].cigar@.len() as int,
                    quals[j].ref_start as int,
                    start as int,
                    pos as int,
                ),
            tot as int == total_mcov_upto(quals, n as int, start as int, pos as int),
            forall|idx: int|
                0 <= idx < cat@.len() ==> (#[trigger] cat@[idx]).0 < pos - start && cat@[idx].1@
                    == all_anchored(quals, n as int, start + cat@[idx].0) && cat@[idx].1@.len() > 0,
            forall|i1: int, i2: int|
                0 <= i1 < i2 < cat@.len() ==> (#[trigger] cat@[i1]).0 < (#[trigger] cat@[i2]).0,
            forall|off: u64|
                off < pos - start && (#[trigger] all_anchored(quals, n as int, start + off)).len()
                    > 0 ==> exists|idx: int| 0 <= idx < cat@.len() && (#[trigger] cat@[idx]).0
                    == off,
        decreases end + 1 - pos,
    {
        let ghost cat0 = cat@;
        let mut bucket: Vec<i64> = Vec::new();
        let mut j: usize = 0;
        while j < n
            invariant
                j <= n,
                start <= pos <= end,
                start < end <= 0x40_0000_0000,
                n == quals.len() <= reads@.len() <= 1048576,
                quals_idx@.len() == n,
                forall|jj: int|
                    0 <= jj < n ==> (#[trigger] quals_idx@[jj]) < reads@.len()
                        && reads@[quals_idx@[jj] as int] == quals[jj],
                forall|jj: int| 0 <= jj < reads@.len() ==> read_sized(#[trigger] reads@[jj]),
                cat@ == cat0,
                deltas@.len() == n,
                bucket@ == all_anchored(quals, j as int, pos as int),
                forall|t: int|
                    0 <= t < j ==> #[trigger] deltas@[t] as int == windowed_delta(
                        quals[t].cigar@,
                        quals[t].cigar@.len() as int,
                        quals[t].ref_start as int,
                        start as int,
                        pos + 1,
                    ),
                forall|t: int|
                    j <= t < n ==> #[trigger] deltas@[t] as int == windowed_delta(
                        quals[t].cigar@,
                        quals[t].cigar@.len() as int,
                        quals[t].ref_start as int,
                        start as int,
                        pos as int,
                    ),
                tot as int == total_mcov_upto(quals, n as int, start as int, pos as int)
                    + total_mcov_upto(quals, j as int, start as int, pos + 1) - total_mcov_upto(
                    quals,
                    j as int,
                    start as int,
                    pos as int,
                ),
            decreases n - j,
        {
            let ridx = quals_idx[j];
            let r = &reads[ridx];
            let ghost ops = quals[j as int].cigar@;
            let ghost init = quals[j as int].ref_start as int;
            let (mut evs, cov_here, s) = read_at_pos(&r.cigar, r.ref_start, pos);
            proof {
                lemma_mcov_step(ops, ops.len() as int, init, start as int, pos as int);
                lemma_total_mcov_bound(quals, n as int, start as int, pos as int);
                lemma_total_mcov_bound(quals, j as int, start as int, pos + 1);
                lemma_total_mcov_bound(quals, j as int, start as int, pos as int);
                assert((n as int) * (pos - start) <= 1048576 * 0x40_0000_0001 && (j as int) * (pos
                    + 1 - start) <= 1048576 * 0x40_0000_0001) by (nonlinear_arith)
                    requires
                        0 <= n as int <= 1048576,
                        0 <= j as int <= 1048576,
                        0 <= pos - start <= 0x40_0000_0000,
                        0 < pos + 1 - start <= 0x40_0000_0001,
                ;
            }
            if cov_here {
                tot = tot + 1;
            }
            bucket.append(&mut evs);
            proof {
                lemma_delta_step(ops, ops.len() as int, init, start as int, pos as int);
                lemma_delta_bound(ops, ops.len() as int, init, start as int, pos as int);
                lemma_delta_bound(ops, ops.len() as int, init, start as int, pos + 1);
            }
            let d = deltas[j];
            deltas[j] = d + s;
            j = j + 1;
        }
        let ghost bl = bucket@.len();
        proof {
            assert(bucket@ == all_anchored(quals, n as int, pos as int));
        }
        if bucket.len() > 0 {
            cat.push((pos - start, bucket));
            proof {
                assert(start + (pos - start) == pos as int);
                assert(cat@[cat@.len() - 1].0 == pos - start);
                assert(cat@[cat@.len() - 1].1@ == all_anchored(quals, n as int, pos as int));
            }
        }
        proof {
            assert forall|off: u64|
                off < (pos + 1) - start && (#[trigger] all_anchored(
                    quals,
                    n as int,
                    start + off,
                )).len() > 0 implies exists|idx: int|
                0 <= idx < cat@.len() && (#[trigger] cat@[idx]).0 == off by {
                if off == pos - start {
                    assert(start + off == pos as int);
                    if bl > 0 {
                        assert(cat@[cat@.len() - 1].0 == off);
                    } else {
                        assert(all_anchored(quals, n as int, pos as int).len() == 0);
                    }
                } else {
                    assert(exists|idx: int|
                        0 <= idx < cat0.len() && (#[trigger] cat0[idx]).0 == off);
                    let t = choose|idx: int| 0 <= idx < cat0.len() && (#[trigger] cat0[idx]).0
                        == off;
                    assert(cat@[t].0 == off);
                }
            }
        }
        pos = pos + 1;
    }
    let per = tot / (end - start);
    let nq = deltas.len() as u64;
    let cov = if per >= nq {
        per
    } else {
        nq
    };
    proof {
        assert forall|i1: int, i2: int|
            0 <= i1 < i2 < cat@.len() implies (#[trigger] cat@[i1]).0 != (#[trigger] cat@[i2]).0 by {
        }
        let res_t = (cov, cat, deltas);
        let quals2 = qualifying_reads(reads@, start, end, min_mapq, flag_mask);
        let cat2 = res_t.1@;
        let deltas2 = res_t.2@;
        assert(deltas2.len() == quals2.len());
        assert(forall|j: int|
            0 <= j < deltas2.len() ==> deltas2[j] == read_delta(quals2[j], start, end));
        assert(res_t.0 as int == coverage_of(reads@, start, end, min_mapq, flag_mask));
        assert(forall|idx: int|
            0 <= idx < cat2.len() ==> (#[trigger] cat2[idx]).0 <= end - start && cat2[idx].1@
                == all_anchored(quals2, quals2.len() as int, start + cat2[idx].0)
                && cat2[idx].1@.len() > 0);
        assert(forall|i1: int, i2: int|
            0 <= i1 < i2 < cat2.len() ==> (#[trigger] cat2[i1]).0 != (#[trigger] cat2[i2]).0);
        assert forall|off: u64|
            off <= end - start && (#[trigger] all_anchored(
                quals2,
                quals2.len() as int,
                start + off,
            )).len() > 0 implies exists|idx: int|
            0 <= idx < cat2.len() && (#[trigger] cat2[idx]).0 == off by {
            assert(all_anchored(quals, n as int, start + off).len() > 0);
        }
        assert(indel_result_ok(res_t, reads@, start, end, min_mapq, flag_mask));
    }
    (cov, cat, deltas)
}

proof fn lemma_total_mcov_zero(quals: Seq<AlignedRead>, t: int, start: int)
    ensures
        total_mcov_upto(quals, t, start, start) == 0,
    decreases t,
{
    if t > 0 {
        lemma_total_mcov_zero(quals, t - 1, start);
        lemma_mcov_empty(
            quals[t - 1].cigar@,
            quals[t - 1].cigar@.len() as int,
            quals[t - 1].ref_start as int,
            start,
            start,
        );
    }
}

/// The strategy choice: one operation-string walk per record, or a
/// per-base pileup walk over the window's positions. Both meet the same
/// contract.
pub enum IndelStrategy {
    ByRead,
    ByPosition,
}

/// Extracts coverage, the per-offset indel catalog, and per-read net
/// deltas with the chosen backing strategy.
pub fn extract_indels(
    strategy: IndelStrategy,
    reads: &Vec<AlignedRead>,
    start: u64,
    end: u64,
    min_mapq: u8,
    flag_mask: u16,
) -> (res: (u64, Vec<(u64, Vec<i64>)>, Vec<i64>))
    requires
        start < end,
        end <= 0x40_0000_0000,
        reads@.len() <= 1048576,
        forall|j: int| 0 <= j < reads@.len() ==> read_sized(#[trigger] reads@[j]),
    ensures
        indel_result_ok(res, reads@, start, end, min_mapq, flag_mask),
{
    match strategy {
        IndelStrategy::ByRead => extract_indels_by_read(reads, start, end, min_mapq, flag_mask),
        IndelStrategy::ByPosition => extract_indels_by_position(
            reads,
            start,
            end,
            min_mapq,
            flag_mask,
        ),
    }
}

/// Re-establishes the catalog invariant after one observation lands.
proof fn obs_shift(
    reads: Seq<AlignedRead>,
    i: int,
    c: int,
    start: u64,
    end: u64,
    min_mapq: u8,
    flag_mask: u16,
    oldcat: Seq<(u64, Vec<i64>)>,
    newcat: Seq<(u64, Vec<i64>)>,
    off: u64,
    v: i64,
)
    requires
        0 <= i < reads.len(),
        0 <= c < reads[i].cigar@.len(),
        is_qualifying(reads[i], start, end, min_mapq, flag_mask),
        start < end,
        off <= end - start,
        ref_pos_at(reads[i].cigar@, c, reads[i].ref_start as int) == start + off,
        (reads[i].cigar@[c] is Ins && v == reads[i].cigar@[c]->Ins_0 as i64) || (
        reads[i].cigar@[c] is Del && v as int == -(reads[i].cigar@[c]->Del_0 as int)),
        forall|idx: int|
            0 <= idx < oldcat.len() ==> (#[trigger] oldcat[idx]).0 <= end - start && oldcat[idx].1@
                == cat_expect(reads, i, c, start, end, min_mapq, flag_mask, start + oldcat[idx].0)
                && oldcat[idx].1@.len() > 0,
        forall|i1: int, i2: int|
            0 <= i1 < i2 < oldcat.len() ==> (#[trigger] oldcat[i1]).0 != (#[trigger] oldcat[i2]).0,
        forall|o2: u64|
            o2 <= end - start && (#[trigger] cat_expect(
                reads,
                i,
                c,
                start,
                end,
                min_mapq,
                flag_mask,
                start + o2,
            )).len() > 0 ==> exists|idx: int| 0 <= idx < oldcat.len() && (#[trigger] oldcat[idx]).0
                == o2,
        forall|i1: int, i2: int|
            0 <= i1 < i2 < newcat.len() ==> (#[trigger] newcat[i1]).0 != (#[trigger] newcat[i2]).0,
        (exists|t: int| 0 <= t < oldcat.len() && (#[trigger] oldcat[t]).0 == off) ==> newcat.len()
            == oldcat.len() && (forall|t: int|
            0 <= t < newcat.len() && (#[trigger] oldcat[t]).0 != off ==> newcat[t] == oldcat[t])
            && (forall|t: int|
            0 <= t < newcat.len() && (#[trigger] oldcat[t]).0 == off ==> newcat[t].0 == off
                && newcat[t].1@ == oldcat[t].1@.push(v)),
        !(exists|t: int| 0 <= t < oldcat.len() && (#[trigger] oldcat[t]).0 == off) ==> newcat.len()
            == oldcat.len() + 1 && (forall|t: int|
            0 <= t < oldcat.len() ==> #[trigger] newcat[t] == oldcat[t]) && newcat.last().0 == off
            && newcat.last().1@ == Seq::<i64>::empty().push(v),
    ensures
        forall|idx: int|
            0 <= idx < newcat.len() ==> (#[trigger] newcat[idx]).0 <= end - start && newcat[idx].1@
                == cat_expect(reads, i, c + 1, start, end, min_mapq, flag_mask, start + newcat[idx].0)
                && newcat[idx].1@.len() > 0,
        forall|o2: u64|
            o2 <= end - start && (#[trigger] cat_expect(
                reads,
                i,
                c + 1,
                start,
                end,
                min_mapq,
                flag_mask,
                start + o2,
            )).len() > 0 ==> exists|idx: int| 0 <= idx < newcat.len() && (#[trigger] newcat[idx]).0
                == o2,
{
    let ops = reads[i].cigar@;
    let init = reads[i].ref_start as int;
    let quals = qual_prefix(reads, i, start, end, min_mapq, flag_mask);
    let base = |pos: int| all_anchored(quals, quals.len() as int, pos);
    assert forall|pos: int|
        pos != start + off implies cat_expect(reads, i, c + 1, start, end, min_mapq, flag_mask, pos)
        == cat_expect(reads, i, c, start, end, min_mapq, flag_mask, pos) by {
        assert(anchored_events(ops, c + 1, init, pos) == anchored_events(ops, c, init, pos));
    }
    assert(cat_expect(reads, i, c + 1, start, end, min_mapq, flag_mask, start + off) =~= cat_expect(
        reads,
        i,
        c,
        start,
        end,
        min_mapq,
        flag_mask,
        start + off,
    ).push(v)) by {
        assert(anchored_events(ops, c + 1, init, start + off) == anchored_events(
            ops,
            c,
            init,
            start + off,
        ).push(v));
    }
    if exists|t: int| 0 <= t < oldcat.len() && (#[trigger] oldcat[t]).0 == off {
        let t0 = choose|t: int| 0 <= t < oldcat.len() && (#[trigger] oldcat[t]).0 == off;
        assert forall|idx: int|
            0 <= idx < newcat.len() implies (#[trigger] newcat[idx]).0 <= end - start
            && newcat[idx].1@ == cat_expect(
            reads,
            i,
            c + 1,
            start,
            end,
            min_mapq,
            flag_mask,
            start + newcat[idx].0,
        ) && newcat[idx].1@.len() > 0 by {
            if oldcat[idx].0 == off {
                assert(newcat[idx].1@ == oldcat[idx].1@.push(v));
            } else {
                assert(newcat[idx] == oldcat[idx]);
                assert(start + oldcat[idx].0 != start + off);
            }
        }
        assert forall|o2: u64|
            o2 <= end - start && (#[trigger] cat_expect(
                reads,
                i,
                c + 1,
                start,
                end,
                min_mapq,
                flag_mask,
                start + o2,
            )).len() > 0 implies exists|idx: int|
            0 <= idx < newcat.len() && (#[trigger] newcat[idx]).0 == o2 by {
            if o2 == off {
                assert(newcat[t0].0 == off);
            } else {
                assert(cat_expect(reads, i, c, start, end, min_mapq, flag_mask, start + o2).len()
                    > 0);
                let t1 = choose|t: int| 0 <= t < oldcat.len() && (#[trigger] oldcat[t]).0 == o2;
                assert(newcat[t1] == oldcat[t1]);
            }
        }
    } else {
        assert(cat_expect(reads, i, c, start, end, min_mapq, flag_mask, start + off).len() == 0);
        assert(cat_expect(reads, i, c + 1, start, end, min_mapq, flag_mask, start + off)
            =~= Seq::<i64>::empty().push(v));
        assert forall|idx: int|
            0 <= idx < newcat.len() implies (#[trigger] newcat[idx]).0 <= end - start
            && newcat[idx].1@ == cat_expect(
            reads,
            i,
            c + 1,
            start,
            end,
            min_mapq,
            flag_mask,
            start + newcat[idx].0,
        ) && newcat[idx].1@.len() > 0 by {
            if idx < oldcat.len() {
                assert(newcat[idx] == oldcat[idx]);
                assert(oldcat[idx].0 != off);
                assert(start + oldcat[idx].0 != start + off);
            } else {
                assert(newcat[idx] == newcat.last());
            }
        }
        assert forall|o2: u64|
            o2 <= end - start && (#[trigger] cat_expect(
                reads,
                i,
                c + 1,
                start,
                end,
                min_mapq,
                flag_mask,
                start + o2,
            )).len() > 0 implies exists|idx: int|
            0 <= idx < newcat.len() && (#[trigger] newcat[idx]).0 == o2 by {
            if o2 == off {
                assert(newcat[newcat.len() - 1].0 == off);
            } else {
                assert(cat_expect(reads, i, c, start, end, min_mapq, flag_mask, start + o2).len()
                    > 0);
                let t1 = choose|t: int| 0 <= t < oldcat.len() && (#[trigger] oldcat[t]).0 == o2;
                assert(newcat[t1] == oldcat[t1]);
            }
        }
    }
}

} // verus!
