use crate::external::random_u64_inclusive;
use rand_chacha::ChaCha8Rng;
use vstd::prelude::*;

verus! {

/// `i` is where the draw `r` lands in the cumulative table `cdf`: every entry
/// before `i` is below `r`, and the entry at `i`, if there is one, reaches `r`.
pub open spec fn cdf_slot(cdf: Seq<u64>, r: u64, i: int) -> bool {
    &&& 0 <= i <= cdf.len()
    &&& (i == 0 || cdf[i - 1] < r)
    &&& (i == cdf.len() || cdf[i] >= r)
}

/// The table never decreases.
pub open spec fn nondecreasing(cdf: Seq<u64>) -> bool {
    forall|i: int, j: int| 0 <= i <= j < cdf.len() ==> cdf[i] <= cdf[j]
}

/// `i` is the slot of some draw between 1 and `sum`.
pub open spec fn is_draw(cdf: Seq<u64>, sum: u64, i: int) -> bool {
    exists|r: u64| 1 <= r <= sum && #[trigger] cdf_slot(cdf, r, i)
}

/// Every draw in `1..=sum` lands on a slot below `n`.
pub open spec fn draws_below(cdf: Seq<u64>, sum: u64, n: int) -> bool {
    forall|r: u64, i: int| 1 <= r <= sum && #[trigger] cdf_slot(cdf, r, i) ==> i < n
}

/// A word list with a cumulative frequency table from which a word can be drawn:
/// the range of draws `1..=sum` is not empty and every draw selects a listed word.
pub open spec fn usable_table(words: Seq<&str>, cdf: Seq<u64>, sum: u64) -> bool {
    &&& 1 <= sum
    &&& draws_below(cdf, sum, words.len() as int)
}

/// A drawn slot of a usable table names a listed word.
pub proof fn lemma_draw_is_listed(words: Seq<&str>, cdf: Seq<u64>, sum: u64, i: int)
    requires
        usable_table(words, cdf, sum),
        is_draw(cdf, sum, i),
    ensures
        0 <= i < words.len(),
{
    let r = choose|r: u64| 1 <= r <= sum && #[trigger] cdf_slot(cdf, r, i);
}

/// The cumulative sums of `freqs`: entry `i` is the total of the first `i + 1` frequencies.
pub open spec fn running_total(freqs: Seq<u32>, n: int) -> nat
    decreases n,
{
    if n <= 0 {
        0
    } else {
        running_total(freqs, n - 1) + freqs[n - 1] as nat
    }
}

/// In a nondecreasing table a draw has exactly one slot.
pub proof fn lemma_slot_unique(cdf: Seq<u64>, r: u64, i: int, j: int)
    requires
        nondecreasing(cdf),
        cdf_slot(cdf, r, i),
        cdf_slot(cdf, r, j),
    ensures
        i == j,
{
    if i < j {
        assert(cdf[i] >= r && cdf[j - 1] < r && cdf[i] <= cdf[j - 1]);
    } else if j < i {
        assert(cdf[j] >= r && cdf[i - 1] < r && cdf[j] <= cdf[i - 1]);
    }
}

/// In a nondecreasing table the slot of `r` counts the entries below `r`:
/// everything before it is below, everything from it on reaches `r`.
pub proof fn lemma_slot_is_lower_bound(cdf: Seq<u64>, r: u64, i: int)
    requires
        nondecreasing(cdf),
        cdf_slot(cdf, r, i),
    ensures
        forall|j: int| 0 <= j < i ==> cdf[j] < r,
        forall|j: int| i <= j < cdf.len() ==> cdf[j] >= r,
{
    assert forall|j: int| 0 <= j < i implies cdf[j] < r by {
        assert(cdf[j] <= cdf[i - 1]);
    }
    assert forall|j: int| i <= j < cdf.len() implies cdf[j] >= r by {
        assert(cdf[i] <= cdf[j]);
    }
}

/// Binary search for the slot of `r` in `cdf`.
pub fn cdf_index(cdf: &[u64], r: u64) -> (i: usize)
    ensures
        cdf_slot(cdf@, r, i as int),
{
    let mut lo: usize = 0;
    let mut hi: usize = cdf.len();
    while lo < hi
        invariant
            lo <= hi <= cdf@.len(),
            lo == 0 || cdf@[lo - 1] < r,
            hi == cdf@.len() || cdf@[hi as int] >= r,
        decreases hi - lo,
    {
        let mid = lo + (hi - lo) / 2;
        if cdf[mid] < r {
            lo = mid + 1;
        } else {
            hi = mid;
        }
    }
    lo
}

/// The word that the draw `r` selects.
pub fn word_for_draw<'a>(words: &[&'a str], cdf: &[u64], r: u64) -> (w: &'a str)
    requires
        forall|i: int| #[trigger] cdf_slot(cdf@, r, i) ==> i < words@.len(),
    ensures
        exists|i: int| cdf_slot(cdf@, r, i) && i < words@.len() && w == words@[i],
{
    let i = cdf_index(cdf, r);
    words[i]
}

/// Draws a word index: a uniform draw in `1..=sum` placed in the cumulative table.
pub(crate) fn sample_index(rng: &mut ChaCha8Rng, cdf: &[u64], sum: u64) -> (i: usize)
    requires
        1 <= sum,
    ensures
        is_draw(cdf@, sum, i as int),
{
    let r = random_u64_inclusive(rng, 1, sum);
    let i = cdf_index(cdf, r);
    assert(cdf_slot(cdf@, r, i as int));
    i
}

/// Samples a word using cumulative distribution function (CDF).
pub fn sample_word<'a>(rng: &mut ChaCha8Rng, words: &[&'a str], cdf: &[u64], sum: u64) -> (w:
    &'a str)
    requires
        usable_table(words@, cdf@, sum),
    ensures
        exists|i: int| is_draw(cdf@, sum, i) && 0 <= i < words@.len() && w == words@[i],
{
    let i = sample_index(rng, cdf, sum);
    proof {
        lemma_draw_is_listed(words@, cdf@, sum, i as int);
    }
    words[i]
}

/// Running totals only grow.
proof fn lemma_running_total_grows(freqs: Seq<u32>, a: int, b: int)
    requires
        0 <= a <= b,
    ensures
        running_total(freqs, a) <= running_total(freqs, b),
    decreases b - a,
{
    if a < b {
        lemma_running_total_grows(freqs, a, b - 1);
    }
}

/// Builds the cumulative frequency table of `freqs` and its total.
pub fn build_cdf(freqs: &[u32]) -> (r: (Vec<u64>, u64))
    requires
        running_total(freqs@, freqs@.len() as int) <= u64::MAX,
    ensures
        r.0@.len() == freqs@.len(),
        forall|i: int| 0 <= i < freqs@.len() ==> r.0@[i] == running_total(freqs@, i + 1),
        r.1 == running_total(freqs@, freqs@.len() as int),
        nondecreasing(r.0@),
{
    let mut cdf: Vec<u64> = Vec::new();
    let mut sum: u64 = 0;
    let mut i: usize = 0;
    while i < freqs.len()
        invariant
            i <= freqs@.len(),
            running_total(freqs@, freqs@.len() as int) <= u64::MAX,
            cdf@.len() == i,
            sum == running_total(freqs@, i as int),
            forall|j: int| 0 <= j < i ==> cdf@[j] == running_total(freqs@, j + 1),
            forall|a: int, b: int| 0 <= a <= b < i ==> cdf@[a] <= cdf@[b],
            i > 0 ==> cdf@[i - 1] == sum,
        decreases freqs@.len() - i,
    {
        proof {
            lemma_running_total_grows(freqs@, i + 1, freqs@.len() as int);
        }
        sum = sum + freqs[i] as u64;
        cdf.push(sum);
        i = i + 1;
    }
    (cdf, sum)
}

/// In a nondecreasing table a larger draw never lands on an earlier slot.
pub proof fn lemma_slot_monotone(cdf: Seq<u64>, r1: u64, i1: int, r2: u64, i2: int)
    requires
        nondecreasing(cdf),
        r1 <= r2,
        cdf_slot(cdf, r1, i1),
        cdf_slot(cdf, r2, i2),
    ensures
        i1 <= i2,
{
    if i1 > i2 {
        assert(cdf[i2] <= cdf[i1 - 1]);
    }
}

/// Tells whether a word can be drawn from a nondecreasing table: the range of
/// draws is not empty and the largest draw selects a listed word.
pub fn check_table(words: &[&str], cdf: &[u64], sum: u64) -> (ok: bool)
    requires
        nondecreasing(cdf@),
    ensures
        ok == usable_table(words@, cdf@, sum),
{
    if sum < 1 {
        return false;
    }
    let top = cdf_index(cdf, sum);
    proof {
        assert forall|r: u64, i: int| 1 <= r <= sum && #[trigger] cdf_slot(cdf@, r, i) implies i
            <= top by {
            lemma_slot_monotone(cdf@, r, i, sum, top as int);
        }
    }
    top < words.len()
}

/// The table that `build_cdf` makes from one frequency per word, with a
/// positive total, draws only listed words.
pub proof fn lemma_built_table_usable(words: Seq<&str>, freqs: Seq<u32>, cdf: Seq<u64>, sum: u64)
    requires
        words.len() == freqs.len() == cdf.len(),
        forall|i: int| 0 <= i < freqs.len() ==> cdf[i] == running_total(freqs, i + 1),
        sum == running_total(freqs, freqs.len() as int),
        1 <= sum,
    ensures
        usable_table(words, cdf, sum),
{
    assert(freqs.len() > 0);
    assert(cdf[cdf.len() - 1] == sum);
    assert forall|r: u64, i: int| 1 <= r <= sum && #[trigger] cdf_slot(cdf, r, i) implies i
        < words.len() by {
        if i == cdf.len() {
            assert(cdf[i - 1] < r);
        }
    }
}

/// With the cumulative table of `freqs` (as `build_cdf` gives it), the draws
/// that select word `i` are exactly those above the total of the frequencies
/// before it and up to the total including it: `freqs[i]` of the draws in
/// `1..=sum`, so each word comes out in proportion to its frequency.
pub proof fn law_draws_follow_frequencies(freqs: Seq<u32>, cdf: Seq<u64>, i: int, r: u64)
    requires
        cdf.len() == freqs.len(),
        forall|j: int| 0 <= j < freqs.len() ==> cdf[j] == running_total(freqs, j + 1),
        0 <= i < freqs.len(),
        1 <= r,
    ensures
        cdf_slot(cdf, r, i) <==> running_total(freqs, i) < r <= running_total(freqs, i + 1),
        running_total(freqs, i + 1) == running_total(freqs, i) + freqs[i],
{
    if i > 0 {
        assert(cdf[i - 1] == running_total(freqs, i));
    }
    assert(cdf[i] == running_total(freqs, i + 1));
}

} // verus!
