//! K-mer featurization: a byte sequence over the four-letter nucleotide
//! alphabet becomes a fixed-dimension vector of signed k-mer counts.

use vstd::prelude::*;

verus! {

/// Numeric code of a nucleotide byte; every byte outside `A`, `C`, `G`
/// falls into the last class.
pub open spec fn base_code(b: u8) -> int {
    if b == 65 {
        0
    } else if b == 67 {
        1
    } else if b == 71 {
        2
    } else {
        3
    }
}

/// Four to the power `k`: the number of distinct k-mers.
pub open spec fn pow4(k: nat) -> nat
    decreases k,
{
    if k == 0 {
        1
    } else {
        4 * pow4((k - 1) as nat)
    }
}

pub proof fn lemma_pow4_mono(j: nat, k: nat)
    requires
        j <= k,
    ensures
        pow4(j) <= pow4(k),
    decreases k,
{
    if j < k {
        lemma_pow4_mono(j, (k - 1) as nat);
    }
}

/// Encoding of the k-mer of length `k` starting at position `i`:
/// base-4 digits, leftmost base most significant.
pub open spec fn enc(s: Seq<u8>, i: int, k: int) -> int
    decreases k,
{
    if k <= 0 {
        0
    } else {
        enc(s, i, k - 1) * 4 + base_code(s[i + k - 1])
    }
}

pub proof fn lemma_enc_range(s: Seq<u8>, i: int, k: int)
    requires
        k >= 0,
    ensures
        0 <= enc(s, i, k) < pow4(k as nat),
    decreases k,
{
    if k > 0 {
        lemma_enc_range(s, i, k - 1);
    }
}

/// Number of positions below `n` whose k-mer encodes to `m`.
pub open spec fn count_upto(s: Seq<u8>, k: int, m: int, n: int) -> int
    decreases n,
{
    if n <= 0 {
        0
    } else {
        count_upto(s, k, m, n - 1) + if enc(s, n - 1, k) == m {
            1int
        } else {
            0int
        }
    }
}

/// Number of start positions of k-mers in `s`.
pub open spec fn kmer_positions(s: Seq<u8>, k: int) -> int {
    if s.len() >= k {
        s.len() - k + 1
    } else {
        0
    }
}

/// Number of occurrences of the k-mer encoded by `m` in `s`.
pub open spec fn kmer_count(s: Seq<u8>, k: int, m: int) -> int {
    count_upto(s, k, m, kmer_positions(s, k))
}

pub proof fn lemma_count_upto_bound(s: Seq<u8>, k: int, m: int, n: int)
    ensures
        0 <= count_upto(s, k, m, n) <= if n >= 0 {
            n
        } else {
            0
        },
    decreases n,
{
    if n > 0 {
        lemma_count_upto_bound(s, k, m, n - 1);
    }
}

/// Sum of a sequence of signed counts.
pub open spec fn seq_sum(s: Seq<i64>) -> int
    decreases s.len(),
{
    if s.len() == 0 {
        0
    } else {
        seq_sum(s.drop_last()) + s.last()
    }
}

pub proof fn lemma_seq_sum_update(s: Seq<i64>, i: int, v: i64)
    requires
        0 <= i < s.len(),
    ensures
        seq_sum(s.update(i, v)) == seq_sum(s) - s[i] + v,
    decreases s.len(),
{
    let t = s.update(i, v);
    if i == s.len() - 1 {
        assert(t.drop_last() =~= s.drop_last());
        assert(t.last() == v);
    } else {
        lemma_seq_sum_update(s.drop_last(), i, v);
        assert(t.drop_last() =~= s.drop_last().update(i, v));
        assert(t.last() == s.last());
    }
}

fn base_code_ex(b: u8) -> (c: usize)
    ensures
        c as int == base_code(b),
{
    if b == 65 {
        0
    } else if b == 67 {
        1
    } else if b == 71 {
        2
    } else {
        3
    }
}

/// The number of distinct k-mers of length `k`, computed executably.
pub fn kmer_dim(k: usize) -> (dim: usize)
    requires
        k <= 10,
    ensures
        dim == pow4(k as nat),
        dim <= 1048576,
{
    proof {
        reveal_with_fuel(pow4, 11);
        lemma_pow4_mono(k as nat, 10);
    }
    let mut dim: usize = 1;
    let mut j: usize = 0;
    while j < k
        invariant
            j <= k <= 10,
            dim == pow4(j as nat),
            pow4(k as nat) <= 1048576,
        decreases k - j,
    {
        proof {
            lemma_pow4_mono((j + 1) as nat, k as nat);
        }
        dim = dim * 4;
        j = j + 1;
    }
    dim
}

/// Counts every k-mer of `seq` into a vector of length four-to-the-`k`,
/// indexed by the k-mer's base-4 encoding. With `negate`, every count is
/// multiplied by minus one, the form used for reference subsequences.
/// The counts over all k-mers always sum to the number of k-mer positions:
/// `L - k + 1` for a sequence of length `L >= k`, and `0` otherwise.
pub fn seq_to_kmer(seq: &Vec<u8>, k: usize, negate: bool) -> (result: Vec<i64>)
    requires
        1 <= k <= 10,
        seq@.len() <= 1048576,
    ensures
        result@.len() == pow4(k as nat),
        forall|m: int|
            0 <= m < result@.len() ==> result@[m] == (if negate {
                -1int
            } else {
                1int
            }) * kmer_count(seq@, k as int, m),
        forall|m: int|
            0 <= m < result@.len() ==> -(seq@.len() as int) <= #[trigger] result@[m] <= seq@.len(),
        seq_sum(result@) == (if negate {
            -1int
        } else {
            1int
        }) * kmer_positions(seq@, k as int),
{
    let dim = kmer_dim(k);
    let mut result: Vec<i64> = Vec::new();
    while result.len() < dim
        invariant
            result@.len() <= dim,
            forall|m: int| 0 <= m < result@.len() ==> result@[m] == 0,
            seq_sum(result@) == 0,
        decreases dim - result.len(),
    {
        proof {
            assert(result@.push(0i64).drop_last() =~= result@);
        }
        result.push(0i64);
    }
    let total: usize = if seq.len() >= k {
        seq.len() - k + 1
    } else {
        0
    };
    let sign: i64 = if negate {
        -1
    } else {
        1
    };
    let mut i: usize = 0;
    while i < total
        invariant
            i <= total,
            total == kmer_positions(seq@, k as int),
            seq@.len() <= 1048576,
            1 <= k <= 10,
            total + k - 1 <= seq@.len() || total == 0,
            dim == pow4(k as nat),
            dim <= 1048576,
            result@.len() == dim,
            sign == if negate {
                -1int
            } else {
                1int
            },
            forall|m: int|
                0 <= m < result@.len() ==> result@[m] == (if negate {
                    -count_upto(seq@, k as int, m, i as int)
                } else {
                    count_upto(seq@, k as int, m, i as int)
                }),
            seq_sum(result@) == (if negate {
                -(i as int)
            } else {
                i as int
            }),
        decreases total - i,
    {
        let mut m: usize = 0;
        let mut j: usize = 0;
        while j < k
            invariant
                j <= k <= 10,
                i + k <= seq@.len(),
                seq@.len() <= 1048576,
                m == enc(seq@, i as int, j as int),
                dim == pow4(k as nat),
                dim <= 1048576,
            decreases k - j,
        {
            proof {
                lemma_enc_range(seq@, i as int, j as int);
                lemma_pow4_mono((j + 1) as nat, k as nat);
            }
            m = m * 4 + base_code_ex(seq[i + j]);
            j = j + 1;
        }
        proof {
            lemma_enc_range(seq@, i as int, k as int);
        }
        let ghost prev = result@;
        proof {
            lemma_count_upto_bound(seq@, k as int, m as int, i as int);
        }
        result[m] = result[m] + sign;
        proof {
            lemma_seq_sum_update(prev, m as int, (prev[m as int] + sign) as i64);
            assert forall|q: int| 0 <= q < result@.len() implies result@[q] == (if negate {
                -count_upto(seq@, k as int, q, i + 1)
            } else {
                count_upto(seq@, k as int, q, i + 1)
            }) by {
                lemma_count_upto_bound(seq@, k as int, q, i as int);
            }
        }
        i = i + 1;
    }
    proof {
        assert forall|m: int|
            0 <= m < result@.len() implies -(seq@.len() as int) <= #[trigger] result@[m]
            <= seq@.len() by {
            lemma_count_upto_bound(seq@, k as int, m, total as int);
        }
    }
    result
}

/// Elementwise sum of two equal-dimension signed count vectors: combining a
/// read vector with a negated reference vector yields the divergence vector.
pub fn add_kfeats(target: &mut Vec<i64>, other: &Vec<i64>)
    requires
        old(target)@.len() == other@.len(),
        forall|m: int|
            0 <= m < old(target)@.len() ==> -2097152 <= #[trigger] old(target)@[m] + other@[m]
                <= 2097152,
    ensures
        final(target)@.len() == old(target)@.len(),
        forall|m: int| 0 <= m < final(target)@.len() ==> final(target)@[m] == old(target)@[m]
            + other@[m],
{
    let mut m: usize = 0;
    while m < target.len()
        invariant
            target@.len() == old(target)@.len() == other@.len(),
            m <= target@.len(),
            forall|q: int|
                0 <= q < old(target)@.len() ==> -2097152 <= #[trigger] old(target)@[q]
                    + other@[q] <= 2097152,
            forall|q: int| 0 <= q < m ==> target@[q] == old(target)@[q] + other@[q],
            forall|q: int| m <= q < target@.len() ==> target@[q] == old(target)@[q],
        decreases target@.len() - m,
    {
        target[m] = target[m] + other[m];
        m = m + 1;
    }
}

} // verus!
