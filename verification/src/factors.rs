//! Scaling factors from spike-in read counts.
//!
//! The sample with the fewest spike-in reads is the reference of a batch: its
//! factor is one, and every other sample is scaled down by the ratio of the
//! reference count to its own. Counts and factors are binary64 numbers, given
//! and returned as bit patterns.

use vstd::prelude::*;
use vstd::arithmetic::power2::pow2;
use crate::binary64::{
    is_positive_finite,
    is_quotient,
    lemma_magnitude_ordered,
    lemma_nearest_at_most_one,
    lemma_nearest_is_zero,
    lemma_nearest_of_equals,
    lemma_nearest_unique,
    magnitude,
    quotient,
    INFINITY_BITS,
    ONE_BITS,
};

verus! {

/// Why a batch has no scaling factors.
#[derive(Debug, Clone, Copy, PartialEq, Eq)]
pub enum FactorError {
    /// There are spike-in counts, but not one for each sample.
    CountMismatch { counts: usize, samples: usize },
    /// The count of this sample is not a finite number above zero. It is the
    /// first such sample of the batch.
    InvalidCount { sample: usize },
}

/// The counts as a sequence; `None` where no spike-in data is available,
/// which a source without any count says as well.
pub open spec fn given_counts(counts: Option<Vec<u64>>) -> Option<Seq<u64>> {
    match counts {
        Some(list) if list@.len() > 0 => Some(list@),
        _ => None,
    }
}

/// Whether every count is a finite number above zero.
pub open spec fn all_usable(counts: Seq<u64>) -> bool {
    forall|i: int| 0 <= i < counts.len() ==> is_positive_finite(#[trigger] counts[i])
}

/// Whether `sample` is the first sample whose count is not a finite number
/// above zero.
pub open spec fn is_first_unusable(counts: Seq<u64>, sample: int) -> bool {
    &&& 0 <= sample < counts.len()
    &&& !is_positive_finite(counts[sample])
    &&& forall|j: int| 0 <= j < sample ==> is_positive_finite(#[trigger] counts[j])
}

/// The smallest of the counts, the reference count of the batch.
pub open spec fn least(counts: Seq<u64>) -> u64
    recommends
        counts.len() > 0,
    decreases counts.len(),
{
    if counts.len() <= 1 {
        counts[0]
    } else {
        let before = least(counts.drop_last());
        if counts.last() < before {
            counts.last()
        } else {
            before
        }
    }
}

/// Whether factors are owed: without counts always, with counts where there
/// is one usable count for each sample.
pub open spec fn is_sound(counts: Option<Seq<u64>>, samples: nat) -> bool {
    match counts {
        None => true,
        Some(list) => list.len() == samples && all_usable(list),
    }
}

/// Whether `error` is the fault of the batch. A wrong number of counts is
/// reported before a count that is unusable.
pub open spec fn is_fault(counts: Option<Seq<u64>>, samples: nat, error: FactorError) -> bool {
    match counts {
        None => false,
        Some(list) => match error {
            FactorError::CountMismatch { counts: found, samples: wanted } => {
                &&& list.len() != samples
                &&& found == list.len()
                &&& wanted == samples
            },
            FactorError::InvalidCount { sample } => {
                &&& list.len() == samples
                &&& is_first_unusable(list, sample as int)
            },
        },
    }
}

/// Whether `factor` is the scaling factor of `sample`: one without counts,
/// and otherwise the reference count divided by the sample's own count.
pub open spec fn is_factor(counts: Option<Seq<u64>>, sample: int, factor: u64) -> bool {
    match counts {
        None => factor == ONE_BITS,
        Some(list) => is_quotient(factor, least(list), list[sample]),
    }
}

/// Whether `factors` are the scaling factors of a batch of `samples` samples.
pub open spec fn are_factors(counts: Option<Seq<u64>>, samples: nat, factors: Seq<u64>) -> bool {
    &&& factors.len() == samples
    &&& forall|i: int| 0 <= i < samples ==> is_factor(counts, i, #[trigger] factors[i])
}

/// The reference count is one of the counts, and none is smaller.
pub proof fn lemma_least_is_least(counts: Seq<u64>)
    requires
        counts.len() > 0,
    ensures
        counts.contains(least(counts)),
        forall|i: int| 0 <= i < counts.len() ==> least(counts) <= #[trigger] counts[i],
    decreases counts.len(),
{
    if counts.len() == 1 {
        assert(counts[0] == least(counts));
    } else {
        let front = counts.drop_last();
        lemma_least_is_least(front);
        let index = choose|i: int| 0 <= i < front.len() && front[i] == least(front);
        assert(counts[index] == front[index]);
        assert(counts[counts.len() - 1] == counts.last());
        assert forall|i: int| 0 <= i < counts.len() implies least(counts) <= #[trigger] counts[i] by {
            if i < front.len() {
                assert(counts[i] == front[i]);
            }
        }
    }
}

/// Whether `bits` can serve as a spike-in count: a finite number above zero.
pub fn is_usable_count(bits: u64) -> (usable: bool)
    ensures
        usable == is_positive_finite(bits),
{
    0 < bits && bits < INFINITY_BITS
}

/// The first sample whose count cannot be used, if there is one.
pub fn first_unusable(counts: &Vec<u64>) -> (found: Option<usize>)
    ensures
        found is None <==> all_usable(counts@),
        found matches Some(sample) ==> is_first_unusable(counts@, sample as int),
{
    let mut i: usize = 0;
    while i < counts.len()
        invariant
            i <= counts.len(),
            forall|j: int| 0 <= j < i ==> is_positive_finite(#[trigger] counts@[j]),
        decreases counts.len() - i,
    {
        if !is_usable_count(counts[i]) {
            return Some(i);
        }
        i += 1;
    }
    None
}

/// The reference count of a batch: the smallest of its counts.
pub fn least_count(counts: &Vec<u64>) -> (reference: u64)
    requires
        counts.len() > 0,
    ensures
        reference == least(counts@),
{
    let mut reference: u64 = counts[0];
    let mut i: usize = 1;
    while i < counts.len()
        invariant
            1 <= i <= counts.len(),
            reference == least(counts@.take(i as int)),
        decreases counts.len() - i,
    {
        proof {
            assert(counts@.take(i + 1).drop_last() == counts@.take(i as int));
        }
        if counts[i] < reference {
            reference = counts[i];
        }
        i += 1;
    }
    proof {
        assert(counts@.take(counts.len() as int) == counts@);
    }
    reference
}

/// The scaling factors of a batch of `samples` samples, in the order of the
/// samples.
///
/// Without spike-in data (`None`, or no count at all) nothing is normalised
/// and every factor is one. With counts, the factor of a sample is the least
/// count divided by the sample's count, rounded as binary64 division rounds.
/// The batch is refused where the counts are not one for each sample, or
/// where a count is zero, negative, infinite or not a number.
pub fn scaling_factors(counts: &Option<Vec<u64>>, samples: usize) -> (result: Result<
    Vec<u64>,
    FactorError,
>)
    ensures
        result is Ok <==> is_sound(given_counts(*counts), samples as nat),
        result matches Ok(factors) ==> factors@.len() == samples && are_factors(
            given_counts(*counts),
            samples as nat,
            factors@,
        ),
        result matches Err(error) ==> is_fault(given_counts(*counts), samples as nat, error),
{
    match counts {
        Some(list) => {
            if list.len() == 0 {
                Ok(unit_factors(samples))
            } else if list.len() != samples {
                Err(FactorError::CountMismatch { counts: list.len(), samples })
            } else {
                match first_unusable(list) {
                    Some(sample) => Err(FactorError::InvalidCount { sample }),
                    None => Ok(ratios_to_least(list)),
                }
            }
        },
        None => Ok(unit_factors(samples)),
    }
}

/// As many factors of one as there are samples.
fn unit_factors(samples: usize) -> (factors: Vec<u64>)
    ensures
        are_factors(None, samples as nat, factors@),
{
    let mut factors: Vec<u64> = Vec::new();
    let mut i: usize = 0;
    while i < samples
        invariant
            i <= samples,
            factors@.len() == i,
            forall|j: int| 0 <= j < i ==> #[trigger] factors@[j] == ONE_BITS,
        decreases samples - i,
    {
        factors.push(ONE_BITS);
        i += 1;
    }
    factors
}

/// The least count divided by each count in turn.
fn ratios_to_least(counts: &Vec<u64>) -> (factors: Vec<u64>)
    requires
        counts.len() > 0,
        all_usable(counts@),
    ensures
        are_factors(Some(counts@), counts@.len(), factors@),
{
    let reference = least_count(counts);
    proof {
        lemma_least_is_least(counts@);
    }
    let mut factors: Vec<u64> = Vec::new();
    let mut i: usize = 0;
    while i < counts.len()
        invariant
            i <= counts.len(),
            factors@.len() == i,
            all_usable(counts@),
            reference == least(counts@),
            is_positive_finite(reference),
            forall|j: int| 0 <= j < counts.len() ==> reference <= #[trigger] counts@[j],
            forall|j: int|
                0 <= j < i ==> is_quotient(#[trigger] factors@[j], reference, counts@[j]),
        decreases counts.len() - i,
    {
        let factor = quotient(reference, counts[i]);
        factors.push(factor);
        i += 1;
    }
    factors
}

/// Without spike-in data every factor is exactly one.
pub proof fn lemma_factors_without_counts(samples: nat, factors: Seq<u64>)
    requires
        are_factors(None, samples, factors),
    ensures
        factors == Seq::new(samples, |i: int| ONE_BITS),
{
    assert(factors =~= Seq::new(samples, |i: int| ONE_BITS));
}

/// Where a factor lies. No factor is above one, and the factor of a sample
/// that has the least count is exactly one. A factor is above zero unless the
/// least count is at most 2^-1075 times the sample's count, where the
/// quotient is nearer to zero than to any positive number.
pub proof fn lemma_factor_range(counts: Seq<u64>, factors: Seq<u64>, sample: int)
    requires
        all_usable(counts),
        are_factors(Some(counts), counts.len(), factors),
        0 <= sample < counts.len(),
    ensures
        factors[sample] <= ONE_BITS,
        counts[sample] == least(counts) ==> factors[sample] == ONE_BITS,
        factors[sample] == 0 <==> 2 * (magnitude(least(counts)) * pow2(1074)) <= magnitude(
            counts[sample],
        ),
{
    let reference = least(counts);
    let own = counts[sample];
    let factor = factors[sample];
    lemma_least_is_least(counts);
    lemma_magnitude_ordered(reference, own);
    lemma_magnitude_ordered(0, own);
    assert(magnitude(0) == 0);
    assert(is_factor(Some(counts), sample, factor));
    lemma_nearest_at_most_one(factor, magnitude(reference), magnitude(own));
    lemma_nearest_is_zero(factor, magnitude(reference), magnitude(own));
    if own == reference {
        lemma_nearest_of_equals(factor, magnitude(own));
    }
}

/// Every factor is above zero and at most one, where no count is so far
/// above the least count that their quotient is lost below the least
/// positive number.
pub proof fn lemma_factors_in_unit_interval(counts: Seq<u64>, factors: Seq<u64>)
    requires
        all_usable(counts),
        are_factors(Some(counts), counts.len(), factors),
        forall|i: int|
            0 <= i < counts.len() ==> magnitude(#[trigger] counts[i]) < 2 * (magnitude(
                least(counts),
            ) * pow2(1074)),
    ensures
        forall|i: int| 0 <= i < factors.len() ==> 0 < #[trigger] factors[i] <= ONE_BITS,
{
    assert forall|i: int| 0 <= i < factors.len() implies 0 < #[trigger] factors[i]
        <= ONE_BITS by {
        assert(magnitude(counts[i]) < 2 * (magnitude(least(counts)) * pow2(1074)));
        lemma_factor_range(counts, factors, i);
    }
}

/// The counts decide the factors: computed twice from the same counts, the
/// factors are the same, bit for bit.
pub proof fn lemma_factors_unique(
    counts: Option<Seq<u64>>,
    samples: nat,
    first: Seq<u64>,
    second: Seq<u64>,
)
    requires
        is_sound(counts, samples),
        are_factors(counts, samples, first),
        are_factors(counts, samples, second),
    ensures
        first == second,
{
    assert forall|i: int| 0 <= i < samples implies first[i] == second[i] by {
        assert(is_factor(counts, i, first[i]));
        assert(is_factor(counts, i, second[i]));
        if let Some(list) = counts {
            lemma_magnitude_ordered(0, list[i]);
            assert(magnitude(0) == 0);
            lemma_nearest_unique(
                first[i],
                second[i],
                magnitude(least(list)),
                magnitude(list[i]),
            );
        }
    }
    assert(first =~= second);
}

/// The counts decide the fault: a batch that is refused is refused for one
/// reason only, and a batch that is owed factors is never refused.
pub proof fn lemma_fault_unique(
    counts: Option<Seq<u64>>,
    samples: nat,
    first: FactorError,
    second: FactorError,
)
    requires
        is_fault(counts, samples, first),
        is_fault(counts, samples, second),
    ensures
        first == second,
        !is_sound(counts, samples),
{
    let list = counts->0;
    if let FactorError::InvalidCount { sample } = first {
        if let FactorError::InvalidCount { sample: other } = second {
            if sample < other {
                assert(is_positive_finite(list[sample as int]));
            }
            if other < sample {
                assert(is_positive_finite(list[other as int]));
            }
        }
        assert(!is_positive_finite(list[sample as int]));
    }
}

} // verus!
