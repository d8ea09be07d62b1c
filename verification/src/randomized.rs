//! The pairwise statistic of randomized measurements, kept exact.
//!
//! One pair of outcomes at Hamming distance `d`, seen `m_i` and `m_j` times
//! among `shots` shots of a subsystem of `a` positions, contributes
//! `2^a * 2^(-d) * (m_i / shots) * (m_j / shots)`. Nothing here rounds: a
//! contribution is held as the integers that make it up, and a sum of
//! contributions as the total weight `m_i * m_j` found at each distance.

use vstd::prelude::*;
use vstd::string::*;
use crate::bits::{chars_of, common_len, hamming, hamming_of, lemma_mismatches_bound};
use crate::histogram::{
    counted,
    key_len,
    lemma_total_nonnegative,
    lemma_total_prefix,
    lemma_total_step,
    total,
    uniform_keys,
    valid_tally,
    Histogram,
    Tally,
};

verus! {

/// The contribution of one pair of outcomes. It stands for the number
/// `2^subsystem_size * 2^(-distance) * weight / shots^2`.
#[derive(Clone, Copy, Debug, PartialEq, Eq, Structural)]
pub struct EnsembleTerm {
    /// The product of the two counts.
    pub weight: i64,
    /// The Hamming distance of the two bitstrings.
    pub distance: i32,
    /// The number of positions of the subsystem.
    pub subsystem_size: i32,
    /// The number of shots that both counts are taken from.
    pub shots: i32,
}

/// A sum of contributions over pairs of outcomes. It stands for the number
/// `sum over d of 2^subsystem_size * 2^(-d) * spectrum[d] / shots^2`.
#[derive(Debug, PartialEq, Eq)]
pub struct Estimate {
    /// At each Hamming distance, the sum of the products of the counts of
    /// the pairs found at that distance.
    pub spectrum: Vec<u64>,
    /// The number of positions of the subsystem.
    pub subsystem_size: i32,
    /// The number of shots of each histogram.
    pub shots: i32,
}

/// Whether the Hamming distance of two bitstrings can be told in 32 bits
/// whatever they hold: whether the shorter has no more characters.
pub fn distance_fits(s_i: &str, s_j: &str) -> (fits: bool)
    ensures
        fits == (common_len(s_i@, s_j@) <= i32::MAX),
{
    s_i.unicode_len() <= 0x7fff_ffff || s_j.unicode_len() <= 0x7fff_ffff
}

/// The Hamming distance of two bitstrings: the number of positions, as far
/// as both reach, at which they differ.
pub fn hamming_distance_rust(s_i: &str, s_j: &str) -> (distance: i32)
    requires
        common_len(s_i@, s_j@) <= i32::MAX,
    ensures
        distance == hamming(s_i@, s_j@),
{
    let a = chars_of(s_i);
    let b = chars_of(s_j);
    hamming_of(&a, &b) as i32
}

/// The contribution of the pair of outcomes `s_i`, seen `s_i_meas` times,
/// and `s_j`, seen `s_j_meas` times, to an estimate on a subsystem of
/// `a_num` positions with `shots` shots.
pub fn ensemble_cell_rust(
    s_i: &str,
    s_i_meas: i32,
    s_j: &str,
    s_j_meas: i32,
    a_num: i32,
    shots: i32,
) -> (term: EnsembleTerm)
    requires
        common_len(s_i@, s_j@) <= i32::MAX,
    ensures
        term.weight == s_i_meas * s_j_meas,
        term.distance == hamming(s_i@, s_j@),
        term.subsystem_size == a_num,
        term.shots == shots,
{
    let distance: i32 = hamming_distance_rust(s_i, s_j);
    assert(-0x8000_0000 * 0x8000_0000 <= s_i_meas * s_j_meas <= 0x8000_0000 * 0x8000_0000)
        by (nonlinear_arith)
        requires
            -0x8000_0000 <= s_i_meas < 0x8000_0000,
            -0x8000_0000 <= s_j_meas < 0x8000_0000,
    ;
    let weight: i64 = (s_i_meas as i64) * (s_j_meas as i64);
    EnsembleTerm { weight, distance, subsystem_size: a_num, shots }
}

/// The weight that one outcome, with its count, finds at distance `d` among
/// the outcomes of a histogram: the sum of the products of the two counts
/// over the outcomes at that distance.
pub open spec fn row_weight(key: Seq<char>, count: int, other: Tally, d: int) -> int
    decreases other.len(),
{
    if other.len() == 0 {
        0
    } else {
        row_weight(key, count, other.drop_last(), d) + if hamming(key, other.last().0) == d {
            count * other.last().1
        } else {
            0
        }
    }
}

/// The weight at distance `d` between two histograms: the sum of the
/// products of the two counts over all pairs of an outcome of the first and
/// an outcome of the second whose bitstrings are at Hamming distance `d`.
/// Every pair is taken, in both orders where the histograms are the same.
pub open spec fn pair_weight(first: Tally, second: Tally, d: int) -> int
    decreases first.len(),
{
    if first.len() == 0 {
        0
    } else {
        pair_weight(first.drop_last(), second, d) + row_weight(
            first.last().0,
            first.last().1,
            second,
            d,
        )
    }
}

/// The largest Hamming distance that bitstrings of two histograms can
/// have: the length of the shorter bitstrings.
pub open spec fn reach(first: Tally, second: Tally) -> int {
    if key_len(first) <= key_len(second) {
        key_len(first)
    } else {
        key_len(second)
    }
}

/// One more outcome in the second histogram adds the product of the counts
/// at the distance of the two bitstrings, and nothing elsewhere.
pub proof fn lemma_row_step(key: Seq<char>, count: int, other: Tally, n: int, d: int)
    requires
        0 <= n < other.len(),
    ensures
        row_weight(key, count, other.take(n + 1), d) == row_weight(key, count, other.take(n), d)
            + if hamming(key, other[n].0) == d {
            count * other[n].1
        } else {
            0
        },
{
    assert(other.take(n + 1).drop_last() == other.take(n));
    assert(other.take(n + 1).last() == other[n]);
}

/// One more outcome in the first histogram adds what it finds among the
/// outcomes of the second.
pub proof fn lemma_pair_step(first: Tally, second: Tally, n: int, d: int)
    requires
        0 <= n < first.len(),
    ensures
        pair_weight(first.take(n + 1), second, d) == pair_weight(first.take(n), second, d)
            + row_weight(first[n].0, first[n].1, second, d),
{
    assert(first.take(n + 1).drop_last() == first.take(n));
    assert(first.take(n + 1).last() == first[n]);
}

/// What one outcome finds at one distance is no more than its count times
/// the shots of the other histogram.
pub proof fn lemma_row_bound(key: Seq<char>, count: int, other: Tally, d: int)
    requires
        count >= 0,
        counted(other),
    ensures
        0 <= row_weight(key, count, other, d) <= count * total(other),
    decreases other.len(),
{
    if other.len() > 0 {
        let front = other.drop_last();
        assert(other.last() == other[other.len() - 1]);
        assert forall|i: int| 0 <= i < front.len() implies (#[trigger] front[i]).1 >= 0 by {
            assert(front[i] == other[i]);
        }
        lemma_row_bound(key, count, front, d);
        let last = other.last().1;
        let rest = total(front);
        assert(0 <= count * last && count * (rest + last) == count * rest + count * last)
            by (nonlinear_arith)
            requires
                count >= 0,
                last >= 0,
        ;
    } else {
        assert(count * 0 == 0);
    }
}

/// Outside the distances from zero to the length of the shorter bitstring
/// an outcome finds nothing.
pub proof fn lemma_row_reach(key: Seq<char>, count: int, other: Tally, d: int)
    requires
        uniform_keys(other),
        d < 0 || d > key.len() || d > key_len(other),
    ensures
        row_weight(key, count, other, d) == 0,
    decreases other.len(),
{
    if other.len() > 0 {
        let front = other.drop_last();
        assert(other.last() == other[other.len() - 1]);
        assert forall|i: int| 0 <= i < front.len() implies (#[trigger] front[i]).0.len()
            == key_len(front) by {
            assert(front[i] == other[i]);
            assert(front[0] == other[0]);
        }
        if front.len() > 0 {
            assert(front[0] == other[0]);
        }
        lemma_row_reach(key, count, front, d);
        lemma_mismatches_bound(key, other.last().0, common_len(key, other.last().0));
    }
}

/// The weight at one distance is no more than the product of the shots of
/// the two histograms.
pub proof fn lemma_pair_bound(first: Tally, second: Tally, d: int)
    requires
        counted(first),
        counted(second),
    ensures
        0 <= pair_weight(first, second, d) <= total(first) * total(second),
    decreases first.len(),
{
    if first.len() > 0 {
        let front = first.drop_last();
        assert(first.last() == first[first.len() - 1]);
        assert forall|i: int| 0 <= i < front.len() implies (#[trigger] front[i]).1 >= 0 by {
            assert(front[i] == first[i]);
        }
        lemma_pair_bound(front, second, d);
        lemma_row_bound(first.last().0, first.last().1, second, d);
        let last = first.last().1;
        let rest = total(front);
        let other = total(second);
        assert((rest + last) * other == rest * other + last * other) by (nonlinear_arith);
    } else {
        assert(0 * total(second) == 0);
    }
}

/// Outside the distances from zero to the reach of two histograms there is
/// no weight.
pub proof fn lemma_pair_reach(first: Tally, second: Tally, d: int)
    requires
        uniform_keys(first),
        uniform_keys(second),
        d < 0 || d > reach(first, second),
    ensures
        pair_weight(first, second, d) == 0,
    decreases first.len(),
{
    if first.len() > 0 {
        let front = first.drop_last();
        assert(first.last() == first[first.len() - 1]);
        assert forall|i: int| 0 <= i < front.len() implies (#[trigger] front[i]).0.len()
            == key_len(front) by {
            assert(front[i] == first[i]);
            assert(front[0] == first[0]);
        }
        if front.len() > 0 {
            assert(front[0] == first[0]);
            lemma_pair_reach(front, second, d);
        }
        lemma_row_reach(first.last().0, first.last().1, second, d);
    }
}

/// What the first `i` outcomes of one histogram and, of outcome `i`, the
/// first `j` outcomes of the other weigh at one distance stays within the
/// product of the shots.
proof fn lemma_partial_bound(first: Tally, second: Tally, i: int, j: int, d: int)
    requires
        valid_tally(first),
        valid_tally(second),
        0 <= i < first.len(),
        0 <= j <= second.len(),
    ensures
        0 <= pair_weight(first.take(i), second, d) + row_weight(
            first[i].0,
            first[i].1,
            second.take(j),
            d,
        ) <= 0x7fff_ffff * 0x7fff_ffff,
{
    let done = first.take(i);
    let part = second.take(j);
    assert forall|k: int| 0 <= k < done.len() implies (#[trigger] done[k]).1 >= 0 by {
        assert(done[k] == first[k]);
    }
    assert forall|k: int| 0 <= k < part.len() implies (#[trigger] part[k]).1 >= 0 by {
        assert(part[k] == second[k]);
    }
    lemma_pair_bound(done, second, d);
    lemma_row_bound(first[i].0, first[i].1, part, d);
    lemma_total_prefix(second, j);
    lemma_total_prefix(first, i);
    lemma_total_prefix(first, i + 1);
    lemma_total_step(first, i);
    lemma_total_nonnegative(second);
    let rest = total(done);
    let count = first[i].1;
    let seen = total(part);
    let other = total(second);
    assert(rest * other + count * seen <= 0x7fff_ffff * 0x7fff_ffff) by (nonlinear_arith)
        requires
            0 <= rest,
            0 <= count,
            rest + count <= 0x7fff_ffff,
            0 <= seen <= other <= 0x7fff_ffff,
    ;
}

/// The weight between two histograms at every distance from zero to their
/// reach.
pub fn pair_spectrum(first: &Histogram, second: &Histogram) -> (spectrum: Vec<u64>)
    requires
        first.wf(),
        second.wf(),
    ensures
        spectrum@.len() == reach(first@, second@) + 1,
        forall|d: int|
            0 <= d < spectrum@.len() ==> #[trigger] spectrum@[d] == pair_weight(
                first@,
                second@,
                d,
            ),
{
    let width: usize = if first.key_len() <= second.key_len() {
        first.key_len()
    } else {
        second.key_len()
    };
    let mut spectrum: Vec<u64> = Vec::new();
    let mut d: usize = 0;
    while d <= width
        invariant
            d <= width + 1,
            width <= i32::MAX,
            spectrum@.len() == d,
            forall|k: int| 0 <= k < d ==> #[trigger] spectrum@[k] == 0,
        decreases width + 1 - d,
    {
        spectrum.push(0);
        d = d + 1;
    }
    let mut i: usize = 0;
    while i < first.len()
        invariant
            i <= first@.len(),
            first.wf(),
            second.wf(),
            width == reach(first@, second@),
            spectrum@.len() == width + 1,
            forall|k: int|
                0 <= k <= width ==> #[trigger] spectrum@[k] == pair_weight(
                    first@.take(i as int),
                    second@,
                    k,
                ),
        decreases first@.len() - i,
    {
        let count: i32 = first.count(i);
        let mut j: usize = 0;
        assert(second@.take(0).len() == 0);
        while j < second.len()
            invariant
                i < first@.len(),
                j <= second@.len(),
                first.wf(),
                second.wf(),
                count == first@[i as int].1,
                width == reach(first@, second@),
                spectrum@.len() == width + 1,
                forall|k: int|
                    0 <= k <= width ==> #[trigger] spectrum@[k] == pair_weight(
                        first@.take(i as int),
                        second@,
                        k,
                    ) + row_weight(
                        first@[i as int].0,
                        first@[i as int].1,
                        second@.take(j as int),
                        k,
                    ),
            decreases second@.len() - j,
        {
            let distance: usize = hamming_of(first.bits(i), second.bits(j));
            let other: i32 = second.count(j);
            proof {
                assert(first@[i as int].0.len() == key_len(first@));
                assert(second@[j as int].0.len() == key_len(second@));
                lemma_partial_bound(first@, second@, i as int, j + 1, distance as int);
                assert forall|k: int| 0 <= k <= width implies row_weight(
                    first@[i as int].0,
                    first@[i as int].1,
                    second@.take(j + 1),
                    k,
                ) == row_weight(
                    first@[i as int].0,
                    first@[i as int].1,
                    second@.take(j as int),
                    k,
                ) + if k == distance {
                    count * other
                } else {
                    0
                } by {
                    lemma_row_step(first@[i as int].0, first@[i as int].1, second@, j as int, k);
                }
                assert(0 <= count * other <= 0x7fff_ffff * 0x7fff_ffff) by (nonlinear_arith)
                    requires
                        0 <= count <= 0x7fff_ffff,
                        0 <= other <= 0x7fff_ffff,
                ;
            }
            let product: u64 = (count as u64) * (other as u64);
            let seen: u64 = spectrum[distance];
            spectrum.set(distance, seen + product);
            j = j + 1;
        }
        proof {
            assert(second@.take(j as int) == second@);
            assert forall|k: int| 0 <= k <= width implies #[trigger] spectrum@[k] == pair_weight(
                first@.take(i + 1),
                second@,
                k,
            ) by {
                lemma_pair_step(first@, second@, i as int, k);
            }
        }
        i = i + 1;
    }
    assert(first@.take(i as int) == first@);
    spectrum
}

/// What one outcome adds up to among the outcomes of a histogram, where
/// each pair counts with the product of its counts times a factor that goes
/// by its distance.
pub open spec fn row_value(
    key: Seq<char>,
    count: int,
    other: Tally,
    factor: spec_fn(int) -> int,
) -> int
    decreases other.len(),
{
    if other.len() == 0 {
        0
    } else {
        row_value(key, count, other.drop_last(), factor) + count * other.last().1 * factor(
            hamming(key, other.last().0) as int,
        )
    }
}

/// The sum over all pairs of an outcome of the first histogram and an
/// outcome of the second, where each pair counts with the product of its
/// counts times a factor that goes by its distance.
pub open spec fn pairs_value(first: Tally, second: Tally, factor: spec_fn(int) -> int) -> int
    decreases first.len(),
{
    if first.len() == 0 {
        0
    } else {
        pairs_value(first.drop_last(), second, factor) + row_value(
            first.last().0,
            first.last().1,
            second,
            factor,
        )
    }
}

/// What one outcome finds at the distances below `n`, each weight times the
/// factor of its distance.
pub open spec fn row_spectrum_value(
    key: Seq<char>,
    count: int,
    other: Tally,
    n: int,
    factor: spec_fn(int) -> int,
) -> int
    decreases n,
{
    if n <= 0 {
        0
    } else {
        row_spectrum_value(key, count, other, n - 1, factor) + row_weight(key, count, other, n - 1)
            * factor(n - 1)
    }
}

/// The weights between two histograms at the distances below `n`, each
/// times the factor of its distance.
pub open spec fn spectrum_value(
    first: Tally,
    second: Tally,
    n: int,
    factor: spec_fn(int) -> int,
) -> int
    decreases n,
{
    if n <= 0 {
        0
    } else {
        spectrum_value(first, second, n - 1, factor) + pair_weight(first, second, n - 1) * factor(
            n - 1,
        )
    }
}

proof fn lemma_row_spectrum_step(
    key: Seq<char>,
    count: int,
    other: Tally,
    n: int,
    factor: spec_fn(int) -> int,
)
    requires
        other.len() > 0,
    ensures
        row_spectrum_value(key, count, other, n, factor) == row_spectrum_value(
            key,
            count,
            other.drop_last(),
            n,
            factor,
        ) + if 0 <= hamming(key, other.last().0) < n {
            count * other.last().1 * factor(hamming(key, other.last().0) as int)
        } else {
            0
        },
    decreases n,
{
    if n > 0 {
        lemma_row_spectrum_step(key, count, other, n - 1, factor);
        let before = row_weight(key, count, other.drop_last(), n - 1);
        let added = count * other.last().1;
        let f = factor(n - 1);
        assert((before + added) * f == before * f + added * f) by (nonlinear_arith);
        assert((before + 0) * f == before * f);
    }
}

proof fn lemma_row_spectrum_empty(
    key: Seq<char>,
    count: int,
    other: Tally,
    n: int,
    factor: spec_fn(int) -> int,
)
    requires
        other.len() == 0,
    ensures
        row_spectrum_value(key, count, other, n, factor) == 0,
    decreases n,
{
    if n > 0 {
        lemma_row_spectrum_empty(key, count, other, n - 1, factor);
        assert(0 * factor(n - 1) == 0);
    }
}

proof fn lemma_row_spectrum_value(
    key: Seq<char>,
    count: int,
    other: Tally,
    n: int,
    factor: spec_fn(int) -> int,
)
    requires
        uniform_keys(other),
        n > key.len() || n > key_len(other),
    ensures
        row_spectrum_value(key, count, other, n, factor) == row_value(key, count, other, factor),
    decreases other.len(),
{
    if other.len() == 0 {
        lemma_row_spectrum_empty(key, count, other, n, factor);
    } else {
        let front = other.drop_last();
        assert(other.last() == other[other.len() - 1]);
        assert forall|i: int| 0 <= i < front.len() implies (#[trigger] front[i]).0.len()
            == key_len(front) by {
            assert(front[i] == other[i]);
            assert(front[0] == other[0]);
        }
        if front.len() > 0 {
            assert(front[0] == other[0]);
            lemma_row_spectrum_value(key, count, front, n, factor);
        } else {
            lemma_row_spectrum_empty(key, count, front, n, factor);
            assert(row_value(key, count, front, factor) == 0);
        }
        lemma_row_spectrum_step(key, count, other, n, factor);
        lemma_mismatches_bound(key, other.last().0, common_len(key, other.last().0));
        assert(other.last().0.len() == key_len(other));
        assert(0 <= hamming(key, other.last().0) < n);
    }
}

proof fn lemma_spectrum_value_step(
    first: Tally,
    second: Tally,
    n: int,
    factor: spec_fn(int) -> int,
)
    requires
        first.len() > 0,
    ensures
        spectrum_value(first, second, n, factor) == spectrum_value(
            first.drop_last(),
            second,
            n,
            factor,
        ) + row_spectrum_value(first.last().0, first.last().1, second, n, factor),
    decreases n,
{
    if n > 0 {
        lemma_spectrum_value_step(first, second, n - 1, factor);
        let before = pair_weight(first.drop_last(), second, n - 1);
        let added = row_weight(first.last().0, first.last().1, second, n - 1);
        let f = factor(n - 1);
        assert((before + added) * f == before * f + added * f) by (nonlinear_arith);
    }
}

proof fn lemma_spectrum_value_empty(
    first: Tally,
    second: Tally,
    n: int,
    factor: spec_fn(int) -> int,
)
    requires
        first.len() == 0,
    ensures
        spectrum_value(first, second, n, factor) == 0,
    decreases n,
{
    if n > 0 {
        lemma_spectrum_value_empty(first, second, n - 1, factor);
        assert(0 * factor(n - 1) == 0);
    }
}

/// Summing by distance is summing by pair: the weights between two
/// histograms, each times the factor of its distance, add up over all
/// distances to the sum over all pairs of outcomes of the product of the
/// counts times the factor of the distance of the pair. No pair is left
/// out and none comes twice, whatever the factor.
pub proof fn lemma_spectrum_value(
    first: Tally,
    second: Tally,
    n: int,
    factor: spec_fn(int) -> int,
)
    requires
        uniform_keys(first),
        uniform_keys(second),
        n > reach(first, second),
    ensures
        spectrum_value(first, second, n, factor) == pairs_value(first, second, factor),
    decreases first.len(),
{
    if first.len() == 0 {
        lemma_spectrum_value_empty(first, second, n, factor);
    } else {
        let front = first.drop_last();
        assert(first.last() == first[first.len() - 1]);
        assert forall|i: int| 0 <= i < front.len() implies (#[trigger] front[i]).0.len()
            == key_len(front) by {
            assert(front[i] == first[i]);
            assert(front[0] == first[0]);
        }
        if front.len() > 0 {
            assert(front[0] == first[0]);
            lemma_spectrum_value(front, second, n, factor);
        } else {
            lemma_spectrum_value_empty(front, second, n, factor);
            assert(pairs_value(front, second, factor) == 0);
        }
        lemma_spectrum_value_step(first, second, n, factor);
        lemma_row_spectrum_value(first.last().0, first.last().1, second, n, factor);
    }
}

/// The factor that is one at every distance.
pub open spec fn unit_factor() -> spec_fn(int) -> int {
    |d: int| 1int
}

proof fn lemma_row_total(key: Seq<char>, count: int, other: Tally)
    ensures
        row_value(key, count, other, unit_factor()) == count * total(other),
    decreases other.len(),
{
    if other.len() > 0 {
        lemma_row_total(key, count, other.drop_last());
        let last = other.last().1;
        let rest = total(other.drop_last());
        assert(count * (rest + last) == count * rest + count * last * 1) by (nonlinear_arith);
    } else {
        assert(count * 0 == 0);
    }
}

/// With the factor one, the sum over all pairs of outcomes is the product
/// of the shots of the two histograms.
pub proof fn lemma_pairs_total(first: Tally, second: Tally)
    ensures
        pairs_value(first, second, unit_factor()) == total(first) * total(second),
    decreases first.len(),
{
    if first.len() > 0 {
        lemma_pairs_total(first.drop_last(), second);
        lemma_row_total(first.last().0, first.last().1, second);
        let last = first.last().1;
        let rest = total(first.drop_last());
        let other = total(second);
        assert((rest + last) * other == rest * other + last * other) by (nonlinear_arith);
    } else {
        assert(0 * total(second) == 0);
    }
}

/// The sum of the first `n` entries of a spectrum, each times the factor of
/// its distance.
pub open spec fn weighted_sum(spectrum: Seq<u64>, n: int, factor: spec_fn(int) -> int) -> int
    decreases n,
{
    if n <= 0 {
        0
    } else {
        weighted_sum(spectrum, n - 1, factor) + spectrum[n - 1] * factor(n - 1)
    }
}

proof fn lemma_weighted_sum(
    spectrum: Seq<u64>,
    first: Tally,
    second: Tally,
    n: int,
    factor: spec_fn(int) -> int,
)
    requires
        n <= spectrum.len(),
        forall|d: int|
            0 <= d < spectrum.len() ==> #[trigger] spectrum[d] == pair_weight(first, second, d),
    ensures
        weighted_sum(spectrum, n, factor) == spectrum_value(first, second, n, factor),
    decreases n,
{
    if n > 0 {
        lemma_weighted_sum(spectrum, first, second, n - 1, factor);
    }
}

impl Estimate {
    /// The spectrum holds the weight between the two histograms at every
    /// distance from zero to their reach, which are all the distances at
    /// which there is any.
    pub open spec fn weighs(self, first: Tally, second: Tally) -> bool {
        &&& self.spectrum@.len() == reach(first, second) + 1
        &&& forall|d: int|
            0 <= d < self.spectrum@.len() ==> #[trigger] self.spectrum@[d] == pair_weight(
                first,
                second,
                d,
            )
    }

    /// Two estimates stand for the same number, written the same way.
    pub open spec fn same_as(self, other: Estimate) -> bool {
        &&& self.spectrum@ == other.spectrum@
        &&& self.subsystem_size == other.subsystem_size
        &&& self.shots == other.shots
    }

    /// The sum of the spectrum, each entry times the factor of its distance.
    /// With `2^(k - d)` as the factor of distance `d`, for a `k` that is no
    /// less than any distance, this is the number that the estimate stands
    /// for, times `shots^2 * 2^(k - subsystem_size)`.
    pub open spec fn value(self, factor: spec_fn(int) -> int) -> int {
        weighted_sum(self.spectrum@, self.spectrum@.len() as int, factor)
    }

    /// An estimate of two histograms is the sum over all pairs of their
    /// outcomes: of the product of the two counts times the factor of the
    /// distance of the pair, whatever the factor.
    pub proof fn lemma_value(self, first: Tally, second: Tally, factor: spec_fn(int) -> int)
        requires
            self.weighs(first, second),
            uniform_keys(first),
            uniform_keys(second),
        ensures
            self.value(factor) == pairs_value(first, second, factor),
    {
        let n = self.spectrum@.len() as int;
        lemma_spectrum_value(first, second, n, factor);
        lemma_weighted_sum(self.spectrum@, first, second, n, factor);
    }

    /// The sum of the spectrum.
    pub open spec fn total_weight(self) -> int {
        self.value(unit_factor())
    }

    /// An estimate of two histograms weighs every pair of their outcomes
    /// once: its spectrum adds up to the product of their shots.
    pub proof fn lemma_total_weight(self, first: Tally, second: Tally)
        requires
            self.weighs(first, second),
            uniform_keys(first),
            uniform_keys(second),
        ensures
            self.total_weight() == total(first) * total(second),
    {
        self.lemma_value(first, second, unit_factor());
        lemma_pairs_total(first, second);
    }
}

} // verus!
