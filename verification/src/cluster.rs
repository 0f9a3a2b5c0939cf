//! Canberra-style k-means over integer feature vectors.
//!
//! Centroids are kept as exact rationals — a per-dimension sum plus a
//! member count — so distances are compared exactly instead of through
//! rounded quotients; the division the metric calls for is never performed,
//! only cross-multiplied comparisons of the resulting fractions.

use vstd::prelude::*;

verus! {

/// Absolute value.
pub open spec fn iabs(x: int) -> int {
    if x < 0 {
        -x
    } else {
        x
    }
}

/// Every entry of `v` lies within `[-b, b]`.
pub open spec fn vec_bounded(v: Seq<i64>, b: int) -> bool {
    forall|m: int| 0 <= m < v.len() ==> -b <= #[trigger] v[m] <= b
}

/// Accumulated Canberra numerator and denominator over the first `i`
/// dimensions, between the point `p` and the rational centroid `s / w`
/// (per-dimension sum `s`, weight `w`). Both totals are scaled by `w`, so
/// the quotient is unchanged. A dimension is informative when the scaled
/// magnitude sum `|p[m]|*w + |s[m]|` exceeds `w` — that is, when
/// `|x| + |y| > 1` for the unscaled values — and only informative
/// dimensions enter either total.
pub open spec fn canb_acc(p: Seq<i64>, s: Seq<i64>, w: int, i: int) -> (int, int)
    decreases i,
{
    if i <= 0 {
        (0, 0)
    } else {
        let pre = canb_acc(p, s, w, i - 1);
        let x = p[i - 1] as int;
        let y = s[i - 1] as int;
        let mag = iabs(x) * w + iabs(y);
        if mag > w {
            (pre.0 + iabs(x * w - y), pre.1 + mag)
        } else {
            pre
        }
    }
}

/// The Canberra-style distance as an exact fraction: the informative-sum
/// pair, or one (as `1/1`) when no dimension is informative. When the
/// informative differences are all zero the numerator is zero and the
/// fraction is zero.
pub open spec fn canberra(p: Seq<i64>, s: Seq<i64>, w: int) -> (int, int) {
    let a = canb_acc(p, s, w, p.len() as int);
    if a.1 == 0 {
        (1, 1)
    } else {
        a
    }
}

/// A fraction strictly below another, both with positive denominators.
pub open spec fn rat_lt(a: (int, int), b: (int, int)) -> bool {
    a.0 * b.1 < b.0 * a.1
}

pub proof fn lemma_canb_acc_bounds(p: Seq<i64>, s: Seq<i64>, w: int, i: int)
    requires
        0 <= i <= p.len(),
        p.len() == s.len() <= 1048576,
        1 <= w <= 1048576,
        vec_bounded(p, 1048576),
        vec_bounded(s, w * 1048576),
    ensures
        0 <= canb_acc(p, s, w, i).0 <= i * 0x400_0000_0000,
        0 <= canb_acc(p, s, w, i).1 <= i * 0x400_0000_0000,
    decreases i,
{
    if i > 0 {
        lemma_canb_acc_bounds(p, s, w, i - 1);
        let x = p[i - 1] as int;
        let y = s[i - 1] as int;
        assert(-1048576 <= x <= 1048576);
        assert(-(w * 1048576) <= y <= w * 1048576);
        assert(iabs(x) * w <= 1048576 * 1048576 && iabs(y) <= 1048576 * 1048576 && iabs(
            x * w - y,
        ) <= 0x200_0000_0000 && i * 0x400_0000_0000 == (i - 1) * 0x400_0000_0000
            + 0x400_0000_0000) by (nonlinear_arith)
            requires
                1 <= w <= 1048576,
                -1048576 <= x <= 1048576,
                -(w * 1048576) <= y <= w * 1048576,
        ;
    }
}

/// The distance of a point to itself (an integer point seen as a centroid
/// of weight one) is zero whenever any dimension is informative, and one
/// when none is; in particular it is never positive-informative.
pub proof fn lemma_canberra_self(v: Seq<i64>)
    ensures
        canb_acc(v, v, 1, v.len() as int).1 != 0 ==> canberra(v, v, 1).0 == 0 && canberra(
            v,
            v,
            1,
        ).1 > 0,
        canb_acc(v, v, 1, v.len() as int).1 == 0 ==> canberra(v, v, 1) == (1int, 1int),
{
    lemma_canb_self_acc(v, v.len() as int);
}

proof fn lemma_canb_self_acc(v: Seq<i64>, i: int)
    requires
        0 <= i <= v.len(),
    ensures
        canb_acc(v, v, 1, i).0 == 0,
        canb_acc(v, v, 1, i).1 >= 0,
    decreases i,
{
    if i > 0 {
        lemma_canb_self_acc(v, i - 1);
    }
}

/// A cluster: an exact rational centroid (per-dimension sum and weight),
/// the member points, and the member indices into the input collection.
pub struct Cluster {
    /// Per-dimension centroid sums; the centroid is `centroid_sum / weight`.
    pub centroid_sum: Vec<i64>,
    /// The denominator of the centroid.
    pub weight: u64,
    /// The member points of the last assignment round.
    pub points: Vec<Vec<i64>>,
    /// The member indices of the last assignment round, in increasing order.
    pub points_idx: Vec<usize>,
}

/// Index `i` is a member of cluster `c`.
pub open spec fn idx_in(c: Cluster, i: int) -> bool {
    exists|t: int| 0 <= t < c.points_idx@.len() && c.points_idx@[t] == i
}

/// Index `i` is a member of one of the first `k` clusters.
pub open spec fn assigned(cs: Seq<Cluster>, k: int, i: int) -> bool {
    exists|j: int| 0 <= j < k && idx_in(#[trigger] cs[j], i)
}

/// Sum of entry `m` over the first `t` points.
pub open spec fn col_sum(pts: Seq<Vec<i64>>, t: int, m: int) -> int
    decreases t,
{
    if t <= 0 {
        0
    } else {
        col_sum(pts, t - 1, m) + pts[t - 1]@[m]
    }
}

/// Copies an integer vector.
fn copy_vec(v: &Vec<i64>) -> (r: Vec<i64>)
    ensures
        r@ == v@,
{
    let mut r: Vec<i64> = Vec::new();
    let mut i: usize = 0;
    while i < v.len()
        invariant
            i <= v@.len(),
            r@ == v@.subrange(0, i as int),
        decreases v@.len() - i,
    {
        proof {
            assert(v@.subrange(0, i + 1) =~= v@.subrange(0, i as int).push(v@[i as int]));
        }
        r.push(v[i]);
        i = i + 1;
    }
    proof {
        assert(v@.subrange(0, v@.len() as int) =~= v@);
    }
    r
}

/// The exact Canberra-style fraction between a point and a rational
/// centroid, as a numerator-denominator pair.
pub fn canberra_distance(p: &Vec<i64>, s: &Vec<i64>, w: u64) -> (r: (i128, i128))
    requires
        p@.len() == s@.len() <= 1048576,
        1 <= w <= 1048576,
        vec_bounded(p@, 1048576),
        vec_bounded(s@, w * 1048576),
    ensures
        (r.0 as int, r.1 as int) == canberra(p@, s@, w as int),
        0 <= r.0 <= 0x4000_0000_0000_0000,
        1 <= r.1 <= 0x4000_0000_0000_0000,
{
    let mut num: i128 = 0;
    let mut den: i128 = 0;
    let mut i: usize = 0;
    while i < p.len()
        invariant
            i <= p@.len(),
            p@.len() == s@.len() <= 1048576,
            1 <= w <= 1048576,
            vec_bounded(p@, 1048576),
            vec_bounded(s@, w * 1048576),
            num as int == canb_acc(p@, s@, w as int, i as int).0,
            den as int == canb_acc(p@, s@, w as int, i as int).1,
            0 <= num <= (i as int) * 0x400_0000_0000,
            0 <= den <= (i as int) * 0x400_0000_0000,
        decreases p@.len() - i,
    {
        let x = p[i] as i128;
        let y = s[i] as i128;
        proof {
            assert(-(w * 1048576) <= s@[i as int] <= w * 1048576);
            assert((w as int) * 1048576 <= 1048576 * 1048576) by (nonlinear_arith)
                requires
                    1 <= w as int <= 1048576,
            ;
        }
        let xa = if x < 0 {
            -x
        } else {
            x
        };
        let ya = if y < 0 {
            -y
        } else {
            y
        };
        proof {
            assert(xa * (w as i128) <= 1048576 * 1048576) by (nonlinear_arith)
                requires
                    0 <= xa <= 1048576,
                    1 <= w as i128 <= 1048576,
            ;
            assert(x * (w as i128) <= 1048576 * 1048576 && x * (w as i128) >= -(
            1048576 * 1048576)) by (nonlinear_arith)
                requires
                    -1048576 <= x <= 1048576,
                    1 <= w as i128 <= 1048576,
            ;
            assert((i as int + 1) * 0x400_0000_0000 == (i as int) * 0x400_0000_0000
                + 0x400_0000_0000) by (nonlinear_arith);
        }
        let mag = xa * (w as i128) + ya;
        if mag > w as i128 {
            let diff = x * (w as i128) - y;
            let da = if diff < 0 {
                -diff
            } else {
                diff
            };
            num = num + da;
            den = den + mag;
        }
        i = i + 1;
    }
    proof {
        lemma_canb_acc_bounds(p@, s@, w as int, p@.len() as int);
        assert((p@.len() as int) * 0x400_0000_0000 <= 0x4000_0000_0000_0000) by (nonlinear_arith)
            requires
                0 <= p@.len() as int <= 1048576,
        ;
    }
    if den == 0 {
        (1, 1)
    } else {
        (num, den)
    }
}

/// Whether one distance fraction is strictly below another, compared
/// exactly by cross-multiplication.
fn dist_lt(a: (i128, i128), b: (i128, i128)) -> (r: bool)
    requires
        0 <= a.0 <= 0x4000_0000_0000_0000,
        1 <= a.1 <= 0x4000_0000_0000_0000,
        0 <= b.0 <= 0x4000_0000_0000_0000,
        1 <= b.1 <= 0x4000_0000_0000_0000,
    ensures
        r == rat_lt((a.0 as int, a.1 as int), (b.0 as int, b.1 as int)),
{
    proof {
        assert(a.0 * b.1 <= 0x4000_0000_0000_0000 * 0x4000_0000_0000_0000 && a.0 * b.1 >= 0 && b.0
            * a.1 <= 0x4000_0000_0000_0000 * 0x4000_0000_0000_0000 && b.0 * a.1 >= 0)
            by (nonlinear_arith)
            requires
                0 <= a.0 <= 0x4000_0000_0000_0000,
                1 <= a.1 <= 0x4000_0000_0000_0000,
                0 <= b.0 <= 0x4000_0000_0000_0000,
                1 <= b.1 <= 0x4000_0000_0000_0000,
        ;
    }
    a.0 * b.1 < b.0 * a.1
}

/// The seed index of segment `i`: the input is cut into `k` contiguous
/// equal-size segments and each segment's middle element is taken.
pub open spec fn seed_index(n: int, k: int, i: int) -> int {
    i * (n / k) + (n / k) / 2
}

/// Slices the input, in its given order, into `k` contiguous equal-size
/// segments and takes each segment's middle element as a seed centroid.
pub fn choose_centroids(data: &Vec<Vec<i64>>, k: usize) -> (r: Vec<Vec<i64>>)
    requires
        1 <= k <= data@.len(),
        data@.len() <= 1048576,
    ensures
        r@.len() == k,
        forall|i: int|
            0 <= i < k ==> 0 <= #[trigger] seed_index(data@.len() as int, k as int, i)
                && seed_index(data@.len() as int, k as int, i) < data@.len(),
        forall|i: int|
            0 <= i < k ==> (#[trigger] r@[i])@ == data@[seed_index(
                data@.len() as int,
                k as int,
                i,
            )]@,
{
    let seg = data.len() / k;
    proof {
        let n = data@.len() as int;
        let kk = k as int;
        let s = n / kk;
        let h = s / 2;
        vstd::arithmetic::div_mod::lemma_fundamental_div_mod(n, kk);
        vstd::arithmetic::div_mod::lemma_mod_bound(n, kk);
        vstd::arithmetic::div_mod::lemma_div_pos_is_pos(n, kk);
        vstd::arithmetic::div_mod::lemma_fundamental_div_mod(s, 2);
        vstd::arithmetic::div_mod::lemma_mod_bound(s, 2);
        assert(s >= 1) by (nonlinear_arith)
            requires
                n == kk * s + (n % kk),
                0 <= n % kk,
                (n % kk) < kk,
                kk <= n,
                s >= 0,
        ;
        assert forall|t: int|
            0 <= t < k implies 0 <= #[trigger] seed_index(data@.len() as int, k as int, t)
            && seed_index(data@.len() as int, k as int, t) < data@.len() by {
            assert(t * s + h < n && 0 <= t * s + h) by (nonlinear_arith)
                requires
                    n == kk * s + (n % kk),
                    0 <= n % kk,
                    s == 2 * h + (s % 2),
                    0 <= s % 2,
                    s >= 1,
                    h >= 0,
                    0 <= t,
                    t < kk,
            ;
        }
    }
    let mut r: Vec<Vec<i64>> = Vec::new();
    let mut i: usize = 0;
    while i < k
        invariant
            i <= k,
            1 <= k <= data@.len() <= 1048576,
            seg == data@.len() as int / k as int,
            r@.len() == i,
            forall|t: int|
                0 <= t < k ==> 0 <= #[trigger] seed_index(data@.len() as int, k as int, t)
                    && seed_index(data@.len() as int, k as int, t) < data@.len(),
            forall|t: int|
                0 <= t < i ==> (#[trigger] r@[t])@ == data@[seed_index(
                    data@.len() as int,
                    k as int,
                    t,
                )]@,
        decreases k - i,
    {
        proof {
            assert(seed_index(data@.len() as int, k as int, i as int) == (i as int) * (seg as int)
                + (seg as int) / 2);
            assert((i as int) * (seg as int) >= 0) by (nonlinear_arith)
                requires
                    0 <= i as int,
                    0 <= seg as int,
            ;
        }
        let idx = i * seg + seg / 2;
        let cv = copy_vec(&data[idx]);
        r.push(cv);
        proof {
            assert(idx as int == seed_index(data@.len() as int, k as int, i as int));
            assert(r@[i as int]@ == data@[idx as int]@);
        }
        i = i + 1;
    }
    r
}

pub proof fn lemma_col_sum_bound(pts: Seq<Vec<i64>>, t: int, m: int)
    requires
        0 <= t <= pts.len(),
        forall|q: int| 0 <= q < pts.len() ==> vec_bounded((#[trigger] pts[q])@, 1048576),
        forall|q: int| 0 <= q < pts.len() ==> (#[trigger] pts[q])@.len() > m >= 0,
    ensures
        -(t * 1048576) <= col_sum(pts, t, m) <= t * 1048576,
    decreases t,
{
    if t > 0 {
        lemma_col_sum_bound(pts, t - 1, m);
    }
}

impl Cluster {
    /// Recomputes the centroid as the exact per-dimension mean of the
    /// members: the sums become the new numerators and the member count
    /// the new weight. An empty cluster retains its prior centroid.
    fn update_centroid(&mut self)
        requires
            old(self).points@.len() == old(self).points_idx@.len(),
            old(self).points@.len() <= 1048576,
            1 <= old(self).weight <= 1048576,
            vec_bounded(old(self).centroid_sum@, old(self).weight * 1048576),
            forall|t: int|
                0 <= t < old(self).points@.len() ==> (#[trigger] old(self).points@[t])@.len()
                    == old(self).centroid_sum@.len(),
            forall|t: int|
                0 <= t < old(self).points@.len() ==> vec_bounded(
                    (#[trigger] old(self).points@[t])@,
                    1048576,
                ),
        ensures
            final(self).points == old(self).points,
            final(self).points_idx == old(self).points_idx,
            final(self).centroid_sum@.len() == old(self).centroid_sum@.len(),
            1 <= final(self).weight <= 1048576,
            vec_bounded(final(self).centroid_sum@, final(self).weight * 1048576),
            old(self).points@.len() > 0 ==> final(self).weight == old(self).points@.len() && (
            forall|m: int|
                0 <= m < final(self).centroid_sum@.len() ==> final(self).centroid_sum@[m]
                    == col_sum(old(self).points@, old(self).points@.len() as int, m)),
            old(self).points@.len() == 0 ==> final(self).centroid_sum == old(self).centroid_sum
                && final(self).weight == old(self).weight,
    {
        if self.points.len() == 0 {
            return ;
        }
        let dim = self.centroid_sum.len();
        let mut sums: Vec<i64> = Vec::new();
        while sums.len() < dim
            invariant
                sums@.len() <= dim,
                forall|m: int| 0 <= m < sums@.len() ==> sums@[m] == 0,
            decreases dim - sums.len(),
        {
            sums.push(0i64);
        }
        let mut t: usize = 0;
        while t < self.points.len()
            invariant
                t <= self.points@.len() <= 1048576,
                self == old(self),
                sums@.len() == dim == self.centroid_sum@.len(),
                forall|q: int|
                    0 <= q < self.points@.len() ==> (#[trigger] self.points@[q])@.len() == dim,
                forall|q: int|
                    0 <= q < self.points@.len() ==> vec_bounded(
                        (#[trigger] self.points@[q])@,
                        1048576,
                    ),
                forall|m: int|
                    0 <= m < dim ==> #[trigger] sums@[m] == col_sum(self.points@, t as int, m),
                forall|m: int|
                    0 <= m < dim ==> -((t as int) * 1048576) <= #[trigger] sums@[m] <= (t as int)
                        * 1048576,
            decreases self.points@.len() - t,
        {
            let mut m: usize = 0;
            while m < dim
                invariant
                    m <= dim,
                    t < self.points@.len() <= 1048576,
                    self == old(self),
                    sums@.len() == dim == self.centroid_sum@.len(),
                    forall|q: int|
                        0 <= q < self.points@.len() ==> (#[trigger] self.points@[q])@.len() == dim,
                    forall|q: int|
                        0 <= q < self.points@.len() ==> vec_bounded(
                            (#[trigger] self.points@[q])@,
                            1048576,
                        ),
                    forall|q: int|
                        0 <= q < m ==> #[trigger] sums@[q] == col_sum(self.points@, t + 1, q),
                    forall|q: int|
                        m <= q < dim ==> #[trigger] sums@[q] == col_sum(self.points@, t as int, q),
                    forall|q: int|
                        0 <= q < m ==> -((t as int + 1) * 1048576) <= #[trigger] sums@[q] <= (
                        t as int + 1) * 1048576,
                    forall|q: int|
                        m <= q < dim ==> -((t as int) * 1048576) <= #[trigger] sums@[q] <= (
                        t as int) * 1048576,
                decreases dim - m,
            {
                let v = self.points[t][m];
                sums[m] = sums[m] + v;
                m = m + 1;
            }
            t = t + 1;
        }
        self.centroid_sum = sums;
        self.weight = self.points.len() as u64;
    }
}

proof fn lemma_increasing_ge(s: Seq<usize>, t: int)
    requires
        0 <= t < s.len(),
        forall|t1: int, t2: int| 0 <= t1 < t2 < s.len() ==> (#[trigger] s[t1]) < (#[trigger] s[t2]),
    ensures
        s[t] >= t,
    decreases t,
{
    if t > 0 {
        lemma_increasing_ge(s, t - 1);
    }
}

/// A strictly increasing sequence of indices below `n` has at most `n`
/// entries.
proof fn lemma_increasing_len(s: Seq<usize>, n: int)
    requires
        n >= 0,
        forall|t1: int, t2: int| 0 <= t1 < t2 < s.len() ==> (#[trigger] s[t1]) < (#[trigger] s[t2]),
        forall|t: int| 0 <= t < s.len() ==> (#[trigger] s[t]) < n,
    ensures
        s.len() <= n,
{
    if s.len() > n {
        lemma_increasing_ge(s, s.len() - 1);
    }
}

/// Partitions the feature vectors into `k` clusters: seeds the centroids
/// from contiguous input segments, then alternates assigning every point
/// to its nearest centroid under the exact Canberra-style fraction (ties
/// keep the first-encountered cluster) with recomputing every non-empty
/// cluster's centroid as its members' per-dimension mean, for at most ten
/// rounds, stopping earlier only when the centroids repeat exactly. The
/// returned membership always partitions the input indices.
pub fn kmeans(data: &Vec<Vec<i64>>, k: usize) -> (r: Vec<Cluster>)
    requires
        2 <= k,
        k < data@.len(),
        data@.len() <= 1048576,
        forall|i: int| 0 <= i < data@.len() ==> (#[trigger] data@[i])@.len() == data@[0]@.len(),
        data@[0]@.len() <= 1048576,
        forall|i: int| 0 <= i < data@.len() ==> vec_bounded((#[trigger] data@[i])@, 1048576),
    ensures
        r@.len() == k,
        forall|j: int|
            0 <= j < k ==> (#[trigger] r@[j]).centroid_sum@.len() == data@[0]@.len() && 1
                <= r@[j].weight <= 1048576 && r@[j].points@.len() == r@[j].points_idx@.len(),
        forall|j: int, t: int|
            0 <= j < k && 0 <= t < r@[j].points_idx@.len() ==> (#[trigger] r@[j].points_idx@[t])
                < data@.len() && r@[j].points@[t]@ == data@[r@[j].points_idx@[t] as int]@,
        forall|j: int, t1: int, t2: int|
            0 <= j < k && 0 <= t1 < t2 < r@[j].points_idx@.len() ==> (
            #[trigger] r@[j].points_idx@[t1]) < (#[trigger] r@[j].points_idx@[t2]),
        forall|i: int| 0 <= i < data@.len() ==> #[trigger] assigned(r@, k as int, i),
        forall|i: int, j1: int, j2: int|
            0 <= j1 < j2 < k ==> !(#[trigger] idx_in(r@[j1], i) && #[trigger] idx_in(r@[j2], i)),
        forall|j: int|
            0 <= j < k && (#[trigger] r@[j]).points@.len() > 0 ==> r@[j].weight
                == r@[j].points@.len() && (forall|m: int|
                0 <= m < r@[j].centroid_sum@.len() ==> #[trigger] r@[j].centroid_sum@[m]
                    == col_sum(r@[j].points@, r@[j].points@.len() as int, m)),
{
    let n = data.len();
    let dim = data[0].len();
    let seeds = choose_centroids(data, k);
    let mut clusters: Vec<Cluster> = Vec::new();
    let mut j: usize = 0;
    while j < k
        invariant
            j <= k < data@.len() <= 1048576,
            dim == data@[0]@.len() <= 1048576,
            seeds@.len() == k,
            forall|t: int|
                0 <= t < k ==> 0 <= #[trigger] seed_index(data@.len() as int, k as int, t)
                    && seed_index(data@.len() as int, k as int, t) < data@.len(),
            forall|t: int|
                0 <= t < k ==> (#[trigger] seeds@[t])@ == data@[seed_index(
                    data@.len() as int,
                    k as int,
                    t,
                )]@,
            forall|i: int| 0 <= i < data@.len() ==> (#[trigger] data@[i])@.len() == dim,
            forall|i: int| 0 <= i < data@.len() ==> vec_bounded((#[trigger] data@[i])@, 1048576),
            clusters@.len() == j,
            forall|t: int|
                0 <= t < j ==> (#[trigger] clusters@[t]).centroid_sum@.len() == dim
                    && clusters@[t].weight == 1 && vec_bounded(
                    clusters@[t].centroid_sum@,
                    clusters@[t].weight * 1048576,
                ) && clusters@[t].points@.len() == 0 && clusters@[t].points_idx@.len() == 0,
        decreases k - j,
    {
        let cs = copy_vec(&seeds[j]);
        clusters.push(
            Cluster { centroid_sum: cs, weight: 1, points: Vec::new(), points_idx: Vec::new() },
        );
        j = j + 1;
    }
    let mut rounds: usize = 10;
    loop
        invariant_except_break
            2 <= k < data@.len() <= 1048576,
            n == data@.len(),
            dim == data@[0]@.len() <= 1048576,
            forall|i: int| 0 <= i < data@.len() ==> (#[trigger] data@[i])@.len() == dim,
            forall|i: int| 0 <= i < data@.len() ==> vec_bounded((#[trigger] data@[i])@, 1048576),
            clusters@.len() == k,
            forall|t: int|
                0 <= t < k ==> (#[trigger] clusters@[t]).centroid_sum@.len() == dim && 1
                    <= clusters@[t].weight <= 1048576 && vec_bounded(
                    clusters@[t].centroid_sum@,
                    clusters@[t].weight * 1048576,
                ) && clusters@[t].points@.len() == clusters@[t].points_idx@.len(),
        ensures
            clusters@.len() == k,
            forall|j2: int|
                0 <= j2 < k ==> (#[trigger] clusters@[j2]).centroid_sum@.len() == dim && 1
                    <= clusters@[j2].weight <= 1048576 && clusters@[j2].points@.len()
                    == clusters@[j2].points_idx@.len(),
            forall|j2: int, t: int|
                0 <= j2 < k && 0 <= t < clusters@[j2].points_idx@.len() ==> (
                #[trigger] clusters@[j2].points_idx@[t]) < data@.len()
                    && clusters@[j2].points@[t]@ == data@[clusters@[j2].points_idx@[t] as int]@,
            forall|j2: int, t1: int, t2: int|
                0 <= j2 < k && 0 <= t1 < t2 < clusters@[j2].points_idx@.len() ==> (
                #[trigger] clusters@[j2].points_idx@[t1]) < (
                #[trigger] clusters@[j2].points_idx@[t2]),
            forall|i: int| 0 <= i < data@.len() ==> #[trigger] assigned(clusters@, k as int, i),
            forall|i: int, j1: int, j2: int|
                0 <= j1 < j2 < k ==> !(#[trigger] idx_in(clusters@[j1], i) && #[trigger] idx_in(
                    clusters@[j2],
                    i,
                )),
            forall|j2: int|
                0 <= j2 < k && (#[trigger] clusters@[j2]).points@.len() > 0 ==> clusters@[j2].weight
                    == clusters@[j2].points@.len() && (forall|m: int|
                    0 <= m < clusters@[j2].centroid_sum@.len() ==>
                        #[trigger] clusters@[j2].centroid_sum@[m] == col_sum(
                        clusters@[j2].points@,
                        clusters@[j2].points@.len() as int,
                        m,
                    )),
        decreases rounds,
    {
        let mut fresh: Vec<Cluster> = Vec::new();
        let mut j: usize = 0;
        while j < k
            invariant
                j <= k,
                clusters@.len() == k,
                dim == data@[0]@.len() <= 1048576,
                forall|t: int|
                    0 <= t < k ==> (#[trigger] clusters@[t]).centroid_sum@.len() == dim && 1
                        <= clusters@[t].weight <= 1048576 && vec_bounded(
                        clusters@[t].centroid_sum@,
                        clusters@[t].weight * 1048576,
                    ),
                fresh@.len() == j,
                forall|t: int|
                    0 <= t < j ==> (#[trigger] fresh@[t]).centroid_sum@ == clusters@[t].centroid_sum@
                        && fresh@[t].weight == clusters@[t].weight && fresh@[t].points@.len() == 0
                        && fresh@[t].points_idx@.len() == 0,
            decreases k - j,
        {
            let cs = copy_vec(&clusters[j].centroid_sum);
            fresh.push(
                Cluster {
                    centroid_sum: cs,
                    weight: clusters[j].weight,
                    points: Vec::new(),
                    points_idx: Vec::new(),
                },
            );
            j = j + 1;
        }
        clusters = fresh;
        let mut i: usize = 0;
        while i < n
            invariant
                i <= n == data@.len() <= 1048576,
                2 <= k < data@.len(),
                dim == data@[0]@.len() <= 1048576,
                forall|q: int| 0 <= q < data@.len() ==> (#[trigger] data@[q])@.len() == dim,
                forall|q: int| 0 <= q < data@.len() ==> vec_bounded((#[trigger] data@[q])@, 1048576),
                clusters@.len() == k,
                forall|t: int|
                    0 <= t < k ==> (#[trigger] clusters@[t]).centroid_sum@.len() == dim && 1
                        <= clusters@[t].weight <= 1048576 && vec_bounded(
                        clusters@[t].centroid_sum@,
                        clusters@[t].weight * 1048576,
                    ) && clusters@[t].points@.len() == clusters@[t].points_idx@.len(),
                forall|j2: int, t: int|
                    0 <= j2 < k && 0 <= t < clusters@[j2].points_idx@.len() ==> (
                    #[trigger] clusters@[j2].points_idx@[t]) < i
                        && clusters@[j2].points@[t]@ == data@[clusters@[j2].points_idx@[t] as int]@,
                forall|j2: int, t1: int, t2: int|
                    0 <= j2 < k && 0 <= t1 < t2 < clusters@[j2].points_idx@.len() ==> (
                    #[trigger] clusters@[j2].points_idx@[t1]) < (
                    #[trigger] clusters@[j2].points_idx@[t2]),
                forall|q: int| 0 <= q < i ==> #[trigger] assigned(clusters@, k as int, q),
                forall|q: int, j1: int, j2: int|
                    0 <= j1 < j2 < k ==> !(#[trigger] idx_in(clusters@[j1], q) && #[trigger] idx_in(
                        clusters@[j2],
                        q,
                    )),
            decreases n - i,
        {
            let mut best: usize = 0;
            let mut bestd = canberra_distance(
                &data[i],
                &clusters[0].centroid_sum,
                clusters[0].weight,
            );
            let mut j2: usize = 1;
            while j2 < k
                invariant
                    1 <= j2 <= k,
                    best < k,
                    i < data@.len(),
                    clusters@.len() == k,
                    dim == data@[0]@.len() <= 1048576,
                    forall|q: int| 0 <= q < data@.len() ==> (#[trigger] data@[q])@.len() == dim,
                    forall|q: int|
                        0 <= q < data@.len() ==> vec_bounded((#[trigger] data@[q])@, 1048576),
                    forall|t: int|
                        0 <= t < k ==> (#[trigger] clusters@[t]).centroid_sum@.len() == dim && 1
                            <= clusters@[t].weight <= 1048576 && vec_bounded(
                            clusters@[t].centroid_sum@,
                            clusters@[t].weight * 1048576,
                        ),
                    0 <= bestd.0 <= 0x4000_0000_0000_0000,
                    1 <= bestd.1 <= 0x4000_0000_0000_0000,
                decreases k - j2,
            {
                let d = canberra_distance(
                    &data[i],
                    &clusters[j2].centroid_sum,
                    clusters[j2].weight,
                );
                if dist_lt(d, bestd) {
                    best = j2;
                    bestd = d;
                }
                j2 = j2 + 1;
            }
            let ghost before = clusters@;
            let mut cl = clusters.remove(best);
            cl.points.push(copy_vec(&data[i]));
            cl.points_idx.push(i);
            clusters.insert(best, cl);
            proof {
                assert(clusters@ =~= before.update(best as int, cl));
                assert(idx_in(clusters@[best as int], i as int)) by {
                    assert(clusters@[best as int].points_idx@.last() == i as usize);
                }
                assert forall|q: int|
                    0 <= q < i + 1 implies #[trigger] assigned(clusters@, k as int, q) by {
                    if q == i as int {
                        assert(idx_in(clusters@[best as int], q));
                    } else {
                        assert(assigned(before, k as int, q));
                        let w = choose|j3: int| 0 <= j3 < k && idx_in(#[trigger] before[j3], q);
                        assert(idx_in(clusters@[w], q)) by {
                            let t = choose|t: int|
                                0 <= t < before[w].points_idx@.len() && before[w].points_idx@[t]
                                    == q;
                            assert(clusters@[w].points_idx@[t] == q);
                        }
                    }
                }
                assert forall|q: int, j1: int, j3: int|
                    0 <= j1 < j3 < k implies !(#[trigger] idx_in(clusters@[j1], q)
                    && #[trigger] idx_in(clusters@[j3], q)) by {
                    if idx_in(clusters@[j1], q) && idx_in(clusters@[j3], q) {
                        assert(idx_in(before[j1], q)) by {
                            let t = choose|t: int|
                                0 <= t < clusters@[j1].points_idx@.len()
                                    && clusters@[j1].points_idx@[t] == q;
                            if j1 == best as int && t == before[j1].points_idx@.len() {
                            } else {
                                assert(before[j1].points_idx@[t] == q);
                            }
                        }
                        assert(idx_in(before[j3], q)) by {
                            let t = choose|t: int|
                                0 <= t < clusters@[j3].points_idx@.len()
                                    && clusters@[j3].points_idx@[t] == q;
                            if j3 == best as int && t == before[j3].points_idx@.len() {
                            } else {
                                assert(before[j3].points_idx@[t] == q);
                            }
                        }
                    }
                }
            }
            i = i + 1;
        }
        let mut changed: bool = false;
        let mut j3: usize = 0;
        while j3 < k
            invariant
                j3 <= k,
                n == data@.len() <= 1048576,
                2 <= k < data@.len(),
                dim == data@[0]@.len() <= 1048576,
                forall|q: int| 0 <= q < data@.len() ==> (#[trigger] data@[q])@.len() == dim,
                forall|q: int|
                    0 <= q < data@.len() ==> vec_bounded((#[trigger] data@[q])@, 1048576),
                clusters@.len() == k,
                forall|t: int|
                    0 <= t < k ==> (#[trigger] clusters@[t]).centroid_sum@.len() == dim && 1
                        <= clusters@[t].weight <= 1048576 && vec_bounded(
                        clusters@[t].centroid_sum@,
                        clusters@[t].weight * 1048576,
                    ) && clusters@[t].points@.len() == clusters@[t].points_idx@.len(),
                forall|j2: int, t: int|
                    0 <= j2 < k && 0 <= t < clusters@[j2].points_idx@.len() ==> (
                    #[trigger] clusters@[j2].points_idx@[t]) < data@.len()
                        && clusters@[j2].points@[t]@ == data@[clusters@[j2].points_idx@[t] as int]@,
                forall|j2: int, t1: int, t2: int|
                    0 <= j2 < k && 0 <= t1 < t2 < clusters@[j2].points_idx@.len() ==> (
                    #[trigger] clusters@[j2].points_idx@[t1]) < (
                    #[trigger] clusters@[j2].points_idx@[t2]),
                forall|q: int|
                    0 <= q < data@.len() ==> #[trigger] assigned(clusters@, k as int, q),
                forall|q: int, j1: int, j2: int|
                    0 <= j1 < j2 < k ==> !(#[trigger] idx_in(clusters@[j1], q) && #[trigger] idx_in(
                        clusters@[j2],
                        q,
                    )),
                forall|j2: int|
                    0 <= j2 < j3 && (#[trigger] clusters@[j2]).points@.len() > 0 ==>
                        clusters@[j2].weight == clusters@[j2].points@.len() && (forall|m: int|
                        0 <= m < clusters@[j2].centroid_sum@.len() ==>
                            #[trigger] clusters@[j2].centroid_sum@[m] == col_sum(
                            clusters@[j2].points@,
                            clusters@[j2].points@.len() as int,
                            m,
                        )),
            decreases k - j3,
        {
            let ghost before = clusters@;
            let mut cl = clusters.remove(j3);
            proof {
                lemma_increasing_len(cl.points_idx@, data@.len() as int);
                assert forall|t: int|
                    0 <= t < cl.points@.len() implies (#[trigger] cl.points@[t])@.len()
                    == cl.centroid_sum@.len() && vec_bounded(cl.points@[t]@, 1048576) by {
                    assert(before[j3 as int].points_idx@[t] < data@.len());
                    assert(before[j3 as int].points@[t]@ == data@[before[j3 as int].points_idx@[t] as int]@);
                    assert(data@[before[j3 as int].points_idx@[t] as int]@.len() == dim);
                    assert(vec_bounded(
                        data@[before[j3 as int].points_idx@[t] as int]@,
                        1048576,
                    ));
                    assert(cl.centroid_sum@.len() == dim);
                }
            }
            let old_sum = copy_vec(&cl.centroid_sum);
            let old_w = cl.weight;
            cl.update_centroid();
            let mut same: bool = old_sum.len() == cl.centroid_sum.len();
            let mut m: usize = 0;
            while m < cl.centroid_sum.len() && same
                invariant
                    m <= cl.centroid_sum@.len(),
                    old_sum@.len() == cl.centroid_sum@.len() || !same,
                    1 <= old_w <= 1048576,
                    1 <= cl.weight <= 1048576,
                    vec_bounded(old_sum@, old_w * 1048576),
                    vec_bounded(cl.centroid_sum@, cl.weight * 1048576),
                decreases cl.centroid_sum@.len() - m,
            {
                proof {
                    assert(cl.centroid_sum@[m as int] * (old_w as i128) <= 0x4000_0000_0000_0000
                        && cl.centroid_sum@[m as int] * (old_w as i128) >= -0x4000_0000_0000_0000
                        && old_sum@[m as int] * (cl.weight as i128) <= 0x4000_0000_0000_0000
                        && old_sum@[m as int] * (cl.weight as i128) >= -0x4000_0000_0000_0000)
                        by (nonlinear_arith)
                        requires
                            -(cl.weight * 1048576) <= cl.centroid_sum@[m as int] <= cl.weight
                                * 1048576,
                            -(old_w * 1048576) <= old_sum@[m as int] <= old_w * 1048576,
                            1 <= cl.weight <= 1048576,
                            1 <= old_w <= 1048576,
                    ;
                }
                if (cl.centroid_sum[m] as i128) * (old_w as i128) != (old_sum[m] as i128) * (
                cl.weight as i128) {
                    same = false;
                }
                m = m + 1;
            }
            if !same {
                changed = true;
            }
            clusters.insert(j3, cl);
            proof {
                assert(clusters@ =~= before.update(j3 as int, cl));
                assert(cl.points_idx == before[j3 as int].points_idx);
                assert forall|q: int|
                    0 <= q < data@.len() implies #[trigger] assigned(clusters@, k as int, q) by {
                    assert(assigned(before, k as int, q));
                    let w = choose|j4: int| 0 <= j4 < k && idx_in(#[trigger] before[j4], q);
                    assert(clusters@[w].points_idx@ == before[w].points_idx@);
                    let t = choose|t: int|
                        0 <= t < before[w].points_idx@.len() && before[w].points_idx@[t] == q;
                    assert(clusters@[w].points_idx@[t] == q);
                    assert(idx_in(clusters@[w], q));
                }
                assert forall|q: int, j1: int, j2: int|
                    0 <= j1 < j2 < k implies !(#[trigger] idx_in(clusters@[j1], q)
                    && #[trigger] idx_in(clusters@[j2], q)) by {
                    assert(clusters@[j1].points_idx@ == before[j1].points_idx@);
                    assert(clusters@[j2].points_idx@ == before[j2].points_idx@);
                    if idx_in(clusters@[j1], q) && idx_in(clusters@[j2], q) {
                        let t1 = choose|t: int|
                            0 <= t < clusters@[j1].points_idx@.len()
                                && clusters@[j1].points_idx@[t] == q;
                        let t2 = choose|t: int|
                            0 <= t < clusters@[j2].points_idx@.len()
                                && clusters@[j2].points_idx@[t] == q;
                        assert(before[j1].points_idx@[t1] == q);
                        assert(before[j2].points_idx@[t2] == q);
                        assert(idx_in(before[j1], q) && idx_in(before[j2], q));
                    }
                }
            }
            j3 = j3 + 1;
        }
        if !changed || rounds == 0 {
            break ;
        }
        rounds = rounds - 1;
    }
    clusters
}

} // verus!
