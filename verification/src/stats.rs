//! Integer summary sums over a distance histogram. A histogram entry at
//! index `d` counts the ordered node pairs at distance `d`; from the total
//! count, the distance-weighted sum and the squared-distance-weighted sum a
//! reporting caller derives the mean and the standard deviation, guarding
//! the zero-total case itself.

use vstd::prelude::*;

verus! {

/// The sum of the first `k` entries of `h`.
pub open spec fn sum_to(h: Seq<usize>, k: int) -> int
    decreases k,
{
    if k <= 0 {
        0
    } else {
        sum_to(h, k - 1) + h[k - 1]
    }
}

/// The sum of all entries of `h`: the number of pairs the histogram counts.
pub open spec fn sum_of(h: Seq<usize>) -> int {
    sum_to(h, h.len() as int)
}

/// The sum of `d * h[d]` over the first `k` entries of `h`.
pub open spec fn weighted_sum_to(h: Seq<usize>, k: int) -> int
    decreases k,
{
    if k <= 0 {
        0
    } else {
        weighted_sum_to(h, k - 1) + (k - 1) * h[k - 1]
    }
}

/// The sum of `d * h[d]` over all of `h`: the numerator of the mean distance.
pub open spec fn weighted_sum(h: Seq<usize>) -> int {
    weighted_sum_to(h, h.len() as int)
}

/// The sum of `d * d * h[d]` over the first `k` entries of `h`.
pub open spec fn weighted_square_sum_to(h: Seq<usize>, k: int) -> int
    decreases k,
{
    if k <= 0 {
        0
    } else {
        weighted_square_sum_to(h, k - 1) + (k - 1) * (k - 1) * h[k - 1]
    }
}

/// The sum of `d * d * h[d]` over all of `h`: with the total and the weighted
/// sum this determines the variance of the distance distribution.
pub open spec fn weighted_square_sum(h: Seq<usize>) -> int {
    weighted_square_sum_to(h, h.len() as int)
}

/// Every partial sum is bounded by a later one: each term is non-negative.
proof fn lemma_sum_to_mono(h: Seq<usize>, k1: int, k2: int)
    requires
        0 <= k1 <= k2 <= h.len(),
    ensures
        sum_to(h, k1) <= sum_to(h, k2),
        weighted_sum_to(h, k1) <= weighted_sum_to(h, k2),
        weighted_square_sum_to(h, k1) <= weighted_square_sum_to(h, k2),
    decreases k2 - k1,
{
    if k1 < k2 {
        lemma_sum_to_mono(h, k1, k2 - 1);
        assert((k2 - 1) * h[k2 - 1] >= 0) by (nonlinear_arith)
            requires
                k2 - 1 >= 0,
                h[k2 - 1] >= 0,
        ;
        assert((k2 - 1) * (k2 - 1) * h[k2 - 1] >= 0) by (nonlinear_arith)
            requires
                k2 - 1 >= 0,
                h[k2 - 1] >= 0,
        ;
    }
}

/// A prefix of zero entries adds up to zero.
pub proof fn lemma_sum_to_zero(h: Seq<usize>, k: int)
    requires
        0 <= k <= h.len(),
        forall|j: int| 0 <= j < k ==> h[j] == 0,
    ensures
        sum_to(h, k) == 0,
    decreases k,
{
    if k > 0 {
        lemma_sum_to_zero(h, k - 1);
    }
}

/// Sums of a prefix agree between two histograms that agree on it.
pub proof fn lemma_sum_to_agree(h1: Seq<usize>, h2: Seq<usize>, k: int)
    requires
        0 <= k <= h1.len(),
        k <= h2.len(),
        forall|j: int| 0 <= j < k ==> h1[j] == h2[j],
    ensures
        sum_to(h1, k) == sum_to(h2, k),
    decreases k,
{
    if k > 0 {
        lemma_sum_to_agree(h1, h2, k - 1);
    }
}

/// Changing one entry inside a prefix shifts its sum by the difference.
pub proof fn lemma_sum_to_update(h: Seq<usize>, k: int, i: int, v: usize)
    requires
        0 <= i < k <= h.len(),
    ensures
        sum_to(h.update(i, v), k) == sum_to(h, k) - h[i] + v,
    decreases k,
{
    let hu = h.update(i, v);
    if i == k - 1 {
        assert forall|j: int| 0 <= j < k - 1 implies hu[j] == h[j] by {}
        lemma_sum_to_agree(hu, h, k - 1);
    } else {
        lemma_sum_to_update(h, k - 1, i, v);
    }
}

/// Adds up the histogram counts: the total number of ordered pairs recorded.
/// Returns `None` exactly when the total does not fit in a machine word.
pub fn histogram_total(hist: &Vec<usize>) -> (r: Option<usize>)
    ensures
        match r {
            Some(total) => total == sum_of(hist@),
            None => sum_of(hist@) > usize::MAX,
        },
{
    let mut total: usize = 0;
    let mut i: usize = 0;
    while i < hist.len()
        invariant
            i <= hist@.len(),
            total == sum_to(hist@, i as int),
        decreases hist@.len() - i,
    {
        match total.checked_add(hist[i]) {
            Some(next) => {
                total = next;
            },
            None => {
                proof {
                    lemma_sum_to_mono(hist@, i as int + 1, hist@.len() as int);
                }
                return None;
            },
        }
        i = i + 1;
    }
    Some(total)
}

/// Adds up distance times count over the histogram: the numerator of the
/// mean distance. Returns `None` exactly when the sum does not fit.
pub fn histogram_weighted_sum(hist: &Vec<usize>) -> (r: Option<usize>)
    ensures
        match r {
            Some(total) => total == weighted_sum(hist@),
            None => weighted_sum(hist@) > usize::MAX,
        },
{
    let mut total: usize = 0;
    let mut i: usize = 0;
    while i < hist.len()
        invariant
            i <= hist@.len(),
            total == weighted_sum_to(hist@, i as int),
        decreases hist@.len() - i,
    {
        let term = match i.checked_mul(hist[i]) {
            Some(term) => term,
            None => {
                proof {
                    lemma_sum_to_mono(hist@, i as int + 1, hist@.len() as int);
                }
                return None;
            },
        };
        match total.checked_add(term) {
            Some(next) => {
                total = next;
            },
            None => {
                proof {
                    lemma_sum_to_mono(hist@, i as int + 1, hist@.len() as int);
                }
                return None;
            },
        }
        i = i + 1;
    }
    Some(total)
}

/// Adds up squared distance times count over the histogram: with the total
/// and the weighted sum this yields the variance. Returns `None` exactly
/// when the sum does not fit.
pub fn histogram_weighted_square_sum(hist: &Vec<usize>) -> (r: Option<usize>)
    ensures
        match r {
            Some(total) => total == weighted_square_sum(hist@),
            None => weighted_square_sum(hist@) > usize::MAX,
        },
{
    let mut total: usize = 0;
    let mut i: usize = 0;
    while i < hist.len()
        invariant
            i <= hist@.len(),
            total == weighted_square_sum_to(hist@, i as int),
        decreases hist@.len() - i,
    {
        let count = hist[i];
        if count > 0 {
            let square = match i.checked_mul(i) {
                Some(square) => square,
                None => {
                    proof {
                        assert(i * i * count >= i * i) by (nonlinear_arith)
                            requires
                                i >= 0,
                                count >= 1,
                        ;
                        lemma_sum_to_mono(hist@, i as int + 1, hist@.len() as int);
                    }
                    return None;
                },
            };
            let term = match square.checked_mul(count) {
                Some(term) => term,
                None => {
                    proof {
                        lemma_sum_to_mono(hist@, i as int + 1, hist@.len() as int);
                    }
                    return None;
                },
            };
            match total.checked_add(term) {
                Some(next) => {
                    total = next;
                },
                None => {
                    proof {
                        lemma_sum_to_mono(hist@, i as int + 1, hist@.len() as int);
                    }
                    return None;
                },
            }
            proof {
                assert(weighted_square_sum_to(hist@, i as int + 1) == weighted_square_sum_to(
                    hist@,
                    i as int,
                ) + (i as int) * (i as int) * hist@[i as int]);
            }
        } else {
            proof {
                assert((i as int) * (i as int) * hist@[i as int] == 0) by (nonlinear_arith)
                    requires
                        hist@[i as int] == 0,
                ;
                assert(weighted_square_sum_to(hist@, i as int + 1) == weighted_square_sum_to(
                    hist@,
                    i as int,
                ));
            }
        }
        i = i + 1;
    }
    Some(total)
}

} // verus!
