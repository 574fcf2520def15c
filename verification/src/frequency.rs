//! Counting how often each byte value occurs.

use vstd::prelude::*;

verus! {

/// How many times `v` occurs in `bytes`.
pub open spec fn occurrences(bytes: Seq<u8>, v: u8) -> nat
    decreases bytes.len(),
{
    if bytes.len() == 0 {
        0
    } else {
        occurrences(bytes.drop_last(), v) + if bytes.last() == v { 1nat } else { 0nat }
    }
}

/// The sum of the first `n` counts.
pub open spec fn count_sum(counts: Seq<u64>, n: int) -> nat
    decreases n,
{
    if n <= 0 {
        0
    } else {
        count_sum(counts, n - 1) + counts[n - 1] as nat
    }
}

/// The table of 256 counts that belongs to `bytes`.
pub open spec fn frequencies(bytes: Seq<u8>) -> Seq<u64> {
    Seq::new(256, |v: int| occurrences(bytes, v as u8) as u64)
}

/// No byte value occurs more often than the input is long.
pub proof fn lemma_occurrences_bound(bytes: Seq<u8>, v: u8)
    ensures
        occurrences(bytes, v) <= bytes.len(),
    decreases bytes.len(),
{
    if bytes.len() > 0 {
        lemma_occurrences_bound(bytes.drop_last(), v);
    }
}

/// Raising one count by one raises the sum by one, if the count is among
/// those summed.
pub proof fn lemma_count_sum_bump(counts: Seq<u64>, k: int, n: int)
    requires
        0 <= k < counts.len(),
        0 <= n <= counts.len(),
        counts[k] < u64::MAX,
    ensures
        count_sum(counts.update(k, (counts[k] + 1) as u64), n) == count_sum(counts, n) + if k < n {
            1nat
        } else {
            0nat
        },
    decreases n,
{
    if n > 0 {
        lemma_count_sum_bump(counts, k, n - 1);
    }
}

/// The sum of a table in which every count is zero.
pub proof fn lemma_count_sum_zero(counts: Seq<u64>, n: int)
    requires
        0 <= n <= counts.len(),
        forall|i: int| 0 <= i < counts.len() ==> counts[i] == 0,
    ensures
        count_sum(counts, n) == 0,
    decreases n,
{
    if n > 0 {
        lemma_count_sum_zero(counts, n - 1);
    }
}

/// A single count is no more than the sum it is part of.
pub proof fn lemma_count_le_sum(counts: Seq<u64>, k: int, n: int)
    requires
        0 <= k < n <= counts.len(),
    ensures
        counts[k] <= count_sum(counts, n),
    decreases n,
{
    if k < n - 1 {
        lemma_count_le_sum(counts, k, n - 1);
    }
}

/// A sum of more counts is no smaller.
pub proof fn lemma_count_sum_grows(counts: Seq<u64>, n: int, m: int)
    requires
        n <= m,
    ensures
        count_sum(counts, n) <= count_sum(counts, m),
    decreases m - n,
{
    if n < m {
        lemma_count_sum_grows(counts, n, m - 1);
    }
}

/// In an input that repeats one byte value, that value occurs as often as
/// the input is long, and no other occurs.
pub proof fn lemma_occurrences_uniform(bytes: Seq<u8>, b: u8, v: u8)
    requires
        forall|i: int| 0 <= i < bytes.len() ==> bytes[i] == b,
    ensures
        occurrences(bytes, v) == if v == b { bytes.len() } else { 0 },
    decreases bytes.len(),
{
    if bytes.len() > 0 {
        lemma_occurrences_uniform(bytes.drop_last(), b, v);
    }
}

/// A byte of the input occurs at least once.
pub proof fn lemma_occurrences_positive(bytes: Seq<u8>, i: int)
    requires
        0 <= i < bytes.len(),
    ensures
        occurrences(bytes, bytes[i]) > 0,
    decreases bytes.len(),
{
    if i < bytes.len() - 1 {
        lemma_occurrences_positive(bytes.drop_last(), i);
    }
}

/// The counts of an input sum to its length.
pub proof fn lemma_frequencies_sum(bytes: Seq<u8>)
    requires
        bytes.len() <= u64::MAX,
    ensures
        count_sum(frequencies(bytes), 256) == bytes.len(),
    decreases bytes.len(),
{
    if bytes.len() == 0 {
        lemma_count_sum_zero(frequencies(bytes), 256);
    } else {
        let front = bytes.drop_last();
        let last = bytes.last();
        lemma_frequencies_sum(front);
        lemma_occurrences_bound(front, last);
        lemma_count_sum_bump(frequencies(front), last as int, 256);
        assert forall|v: int| 0 <= v < 256 implies frequencies(bytes)[v] == frequencies(front).update(
            last as int,
            (frequencies(front)[last as int] + 1) as u64,
        )[v] by {
            lemma_occurrences_bound(front, v as u8);
        }
        assert(frequencies(bytes) =~= frequencies(front).update(
            last as int,
            (frequencies(front)[last as int] + 1) as u64,
        ));
    }
}

/// Counts the occurrences of each of the 256 byte values in `bytes`. The
/// counts sum to the length of the input.
pub fn byte_frequencies(bytes: &[u8]) -> (counts: Vec<u64>)
    ensures
        counts@ == frequencies(bytes@),
        count_sum(counts@, 256) == bytes@.len(),
{
    let mut counts: Vec<u64> = Vec::new();
    let mut v: usize = 0;
    while v < 256
        invariant
            v <= 256,
            counts.len() == v,
            forall|i: int| 0 <= i < v ==> counts[i] == 0,
        decreases 256 - v,
    {
        counts.push(0);
        v += 1;
    }
    let mut i: usize = 0;
    while i < bytes.len()
        invariant
            i <= bytes.len(),
            counts.len() == 256,
            forall|w: u8| #[trigger] counts[w as int] == occurrences(bytes@.take(i as int), w),
        decreases bytes.len() - i,
    {
        let slot: usize = bytes[i] as usize;
        proof {
            lemma_occurrences_bound(bytes@.take(i as int), bytes[i as int]);
            assert(bytes@.take(i + 1).drop_last() =~= bytes@.take(i as int));
        }
        let raised: u64 = counts[slot] + 1;
        counts.set(slot, raised);
        i += 1;
    }
    proof {
        assert(bytes@.take(i as int) =~= bytes@);
        assert forall|k: int| 0 <= k < 256 implies counts@[k] == frequencies(bytes@)[k] by {
            assert(counts[(k as u8) as int] == occurrences(bytes@, k as u8));
            lemma_occurrences_bound(bytes@, k as u8);
        }
        assert(counts@ =~= frequencies(bytes@));
        lemma_frequencies_sum(bytes@);
    }
    counts
}

} // verus!
