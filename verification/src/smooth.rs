//! Homopolymer smoothing: runs of more than five identical consecutive
//! bytes are truncated to exactly five; shorter runs pass through.

use vstd::prelude::*;

verus! {

/// Length of the maximal run of bytes equal to `s[i]` that ends at `i`.
pub open spec fn run_len_at(s: Seq<u8>, i: int) -> int
    decreases i,
{
    if i <= 0 {
        1
    } else if s[i] == s[i - 1] {
        run_len_at(s, i - 1) + 1
    } else {
        1
    }
}

/// Smoothing of the first `n` bytes of `s`: a byte is kept exactly when
/// the run it extends is at most five bytes long so far.
pub open spec fn smoothed_prefix(s: Seq<u8>, n: int) -> Seq<u8>
    decreases n,
{
    if n <= 0 {
        Seq::empty()
    } else if run_len_at(s, n - 1) <= 5 {
        smoothed_prefix(s, n - 1).push(s[n - 1])
    } else {
        smoothed_prefix(s, n - 1)
    }
}

/// The smoothed form of a byte sequence.
pub open spec fn smoothed(s: Seq<u8>) -> Seq<u8> {
    smoothed_prefix(s, s.len() as int)
}

pub proof fn lemma_smoothed_prefix_len(s: Seq<u8>, n: int)
    requires
        0 <= n <= s.len(),
    ensures
        smoothed_prefix(s, n).len() <= n,
    decreases n,
{
    if n > 0 {
        lemma_smoothed_prefix_len(s, n - 1);
    }
}

/// Smoothing never lengthens a sequence.
pub proof fn lemma_smoothed_len(s: Seq<u8>)
    ensures
        smoothed(s).len() <= s.len(),
{
    lemma_smoothed_prefix_len(s, s.len() as int);
}

proof fn lemma_run_len_at_push(t: Seq<u8>, x: u8, i: int)
    requires
        0 <= i < t.len(),
    ensures
        run_len_at(t.push(x), i) == run_len_at(t, i),
    decreases i,
{
    if i > 0 {
        lemma_run_len_at_push(t, x, i - 1);
    }
}

/// Shape of a smoothed prefix: it ends with the same byte as the prefix it
/// came from, its final run is the incoming final run capped at five, and
/// every run in it is at most five bytes long.
proof fn lemma_smoothed_prefix_runs(s: Seq<u8>, n: int)
    requires
        1 <= n <= s.len(),
    ensures
        smoothed_prefix(s, n).len() >= 1,
        smoothed_prefix(s, n).last() == s[n - 1],
        run_len_at(smoothed_prefix(s, n), smoothed_prefix(s, n).len() - 1) == (
        if run_len_at(s, n - 1) <= 5 {
            run_len_at(s, n - 1)
        } else {
            5int
        }),
        forall|i: int|
            0 <= i < smoothed_prefix(s, n).len() ==> run_len_at(smoothed_prefix(s, n), i) <= 5,
    decreases n,
{
    if n == 1 {
        assert(run_len_at(s, 0) == 1);
        assert(smoothed_prefix(s, 0) == Seq::<u8>::empty());
        assert(smoothed_prefix(s, 1) =~= Seq::<u8>::empty().push(s[0]));
        assert(run_len_at(smoothed_prefix(s, 1), 0) == 1);
    } else {
        lemma_smoothed_prefix_runs(s, n - 1);
        let t = smoothed_prefix(s, n - 1);
        if run_len_at(s, n - 1) <= 5 {
            let t2 = t.push(s[n - 1]);
            assert(smoothed_prefix(s, n) == t2);
            assert(t2[t.len() as int] == s[n - 1]);
            assert(t2[t.len() - 1] == t.last());
            assert forall|i: int| 0 <= i < t.len() implies run_len_at(t2, i) == run_len_at(
                t,
                i,
            ) by {
                lemma_run_len_at_push(t, s[n - 1], i);
            }
            if s[n - 1] == s[n - 2] {
                assert(run_len_at(s, n - 1) == run_len_at(s, n - 2) + 1);
                assert(run_len_at(t2, t2.len() - 1) == run_len_at(t2, t.len() - 1) + 1);
            } else {
                assert(run_len_at(t2, t2.len() - 1) == 1);
            }
        } else {
            assert(run_len_at(s, n - 1) > 5);
            assert(s[n - 1] == s[n - 2]);
            assert(run_len_at(s, n - 2) == run_len_at(s, n - 1) - 1);
            assert(smoothed_prefix(s, n) == t);
        }
    }
}

/// A sequence whose runs are all at most five bytes long is left unchanged.
proof fn lemma_smoothed_prefix_identity(s: Seq<u8>, n: int)
    requires
        0 <= n <= s.len(),
        forall|i: int| 0 <= i < s.len() ==> run_len_at(s, i) <= 5,
    ensures
        smoothed_prefix(s, n) == s.subrange(0, n),
    decreases n,
{
    if n == 0 {
        assert(smoothed_prefix(s, 0) =~= s.subrange(0, 0));
    } else {
        lemma_smoothed_prefix_identity(s, n - 1);
        assert(run_len_at(s, n - 1) <= 5);
        assert(s.subrange(0, n - 1).push(s[n - 1]) =~= s.subrange(0, n));
    }
}

/// Smoothing is idempotent: smoothing a smoothed sequence changes nothing.
pub proof fn lemma_smoothed_idempotent(s: Seq<u8>)
    ensures
        smoothed(smoothed(s)) == smoothed(s),
{
    let t = smoothed(s);
    if s.len() == 0 {
        assert(t =~= Seq::<u8>::empty());
    } else {
        lemma_smoothed_prefix_runs(s, s.len() as int);
        lemma_smoothed_prefix_identity(t, t.len() as int);
        assert(t.subrange(0, t.len() as int) =~= t);
    }
}

/// Every run in a smoothed sequence is at most five bytes long.
pub proof fn lemma_smoothed_runs_capped(s: Seq<u8>)
    ensures
        forall|i: int| 0 <= i < smoothed(s).len() ==> run_len_at(smoothed(s), i) <= 5,
{
    if s.len() > 0 {
        lemma_smoothed_prefix_runs(s, s.len() as int);
    }
}

proof fn lemma_run_len_repeat(b: u8, m: int, i: int)
    requires
        0 <= i < m,
    ensures
        run_len_at(Seq::new(m as nat, |j: int| b), i) == i + 1,
    decreases i,
{
    if i > 0 {
        lemma_run_len_repeat(b, m, i - 1);
    }
}

proof fn lemma_repeat_prefix(b: u8, m: int, n: int)
    requires
        0 <= n <= m,
    ensures
        smoothed_prefix(Seq::new(m as nat, |j: int| b), n) == Seq::new(
            (if n <= 5 {
                n
            } else {
                5int
            }) as nat,
            |j: int| b,
        ),
    decreases n,
{
    let r = Seq::new(m as nat, |j: int| b);
    if n == 0 {
        assert(smoothed_prefix(r, 0) =~= Seq::new(0, |j: int| b));
    } else {
        lemma_repeat_prefix(b, m, n - 1);
        lemma_run_len_repeat(b, m, n - 1);
        if n <= 5 {
            assert(smoothed_prefix(r, n - 1).push(r[n - 1]) =~= Seq::new(n as nat, |j: int| b));
        } else {
            assert(run_len_at(r, n - 1) == n > 5);
        }
    }
}

/// A run of more than five identical bytes collapses to exactly five of them.
pub proof fn lemma_long_run_collapses(b: u8, m: int)
    requires
        m > 5,
    ensures
        smoothed(Seq::new(m as nat, |j: int| b)) == Seq::new(5, |j: int| b),
{
    lemma_repeat_prefix(b, m, m);
}

/// Truncates every run of more than five identical consecutive bytes to
/// exactly five bytes; shorter runs are copied unchanged.
pub fn remove_stretches(vector: Vec<u8>) -> (result: Vec<u8>)
    ensures
        result@ == smoothed(vector@),
{
    let mut result: Vec<u8> = Vec::new();
    let mut count: usize = 0;
    let mut i: usize = 0;
    while i < vector.len()
        invariant
            i <= vector.len(),
            result@ == smoothed_prefix(vector@, i as int),
            count <= i,
            i > 0 ==> count == run_len_at(vector@, i - 1),
        decreases vector.len() - i,
    {
        let byte = vector[i];
        if i > 0 && vector[i - 1] == byte {
            count = count + 1;
        } else {
            count = 1;
        }
        if count <= 5 {
            result.push(byte);
        }
        i = i + 1;
    }
    result
}

} // verus!
