//! The Hadamard test on one qubit: the purity or overlap read off the
//! counts of the outcomes `0` and `1`.

use vstd::prelude::*;
use crate::error::EstimatorError;
use crate::histogram::{lemma_count_within_total, position_of, total, Histogram, Tally};

verus! {

/// A quotient of two integers, kept as it is. It stands for the number
/// `numerator / denominator`.
#[derive(Clone, Copy, Debug, PartialEq, Eq, Structural)]
pub struct Ratio {
    /// The number above the line.
    pub numerator: i32,
    /// The number below the line.
    pub denominator: i32,
}

/// The count with which `key` stands in a histogram, if it stands there.
pub open spec fn seen(h: Tally, key: Seq<char>) -> Option<int> {
    let p = position_of(h, key);
    if p < h.len() {
        Some(h[p].1)
    } else {
        None
    }
}

/// What the Hadamard test reads off a histogram: the count of `0` less the
/// count of `1`, where an outcome that was never seen counts as zero; and
/// nothing where neither was seen.
pub open spec fn hadamard_numerator(h: Tally) -> Option<int> {
    match (seen(h, seq!['0']), seen(h, seq!['1'])) {
        (Some(zeros), Some(ones)) => Some(zeros - ones),
        (Some(zeros), None) => Some(zeros),
        (None, Some(ones)) => Some(ones),
        (None, None) => None,
    }
}

fn lookup(counts: &Histogram, bit: char) -> (count: Option<i32>)
    requires
        counts.wf(),
    ensures
        match seen(counts@, seq![bit]) {
            Some(c) => count == Some(c as i32) && 0 <= c <= i32::MAX,
            None => count is None,
        },
{
    let mut key: Vec<char> = Vec::new();
    key.push(bit);
    assert(key@ =~= seq![bit]);
    let p = counts.position(&key);
    if p < counts.len() {
        proof {
            lemma_count_within_total(counts@, p as int);
        }
        Some(counts.count(p))
    } else {
        None
    }
}

/// The value of the Hadamard test on the first histogram of a batch, as the
/// quotient of what is read off the histogram by the shots.
///
/// Shots other than those of the histogram are refused as inconsistent, and
/// a histogram that has seen neither `0` nor `1` as an invalid argument.
/// Where only `1` was seen, its count is the numerator as it is.
pub fn purity_echo_core_rust(shots: i32, counts: Vec<Histogram>) -> (res: Result<
    Ratio,
    EstimatorError,
>)
    requires
        counts@.len() > 0,
        counts@[0].wf(),
    ensures
        shots != total(counts@[0]@) ==> res == Err::<Ratio, EstimatorError>(
            EstimatorError::Consistency,
        ),
        shots == total(counts@[0]@) ==> match hadamard_numerator(counts@[0]@) {
            Some(numerator) => res is Ok && res->Ok_0.numerator == numerator
                && res->Ok_0.denominator == shots,
            None => res == Err::<Ratio, EstimatorError>(EstimatorError::InvalidArgument),
        },
{
    let only_counts = &counts[0];
    let sample_shots: i32 = only_counts.shots();
    if sample_shots != shots {
        return Err(EstimatorError::Consistency);
    }
    let zeros = lookup(only_counts, '0');
    let ones = lookup(only_counts, '1');
    match (zeros, ones) {
        (Some(zeros), Some(ones)) => Ok(Ratio { numerator: zeros - ones, denominator: shots }),
        (Some(zeros), None) => Ok(Ratio { numerator: zeros, denominator: shots }),
        (None, Some(ones)) => Ok(Ratio { numerator: ones, denominator: shots }),
        (None, None) => Err(EstimatorError::InvalidArgument),
    }
}

} // verus!
