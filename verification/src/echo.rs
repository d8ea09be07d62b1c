//! Overlap of two states: the estimate of one histogram against another,
//! for one pair of histograms and for a batch of pairs.

use vstd::prelude::*;
use crate::construct::{resolved_ints, QubitDegree};
use crate::entropy::{
    batch_resolution,
    batch_resolvable,
    chosen_registers,
    disagreeing_items,
    resolve_batch,
    resolved_selection,
};
use crate::error::EstimatorError;
use crate::histogram::{key_len, reduced, total, Histogram, Tally};
use crate::randomized::{pair_spectrum, Estimate};
use crate::registers::{all_registers, ascending, sorted_registers};
use crate::selection::{SelectionView, Selection};

verus! {

/// The selection is refused for the bitstrings of one of two histograms.
pub open spec fn echo_refused(first: Tally, second: Tally, selection: SelectionView) -> bool {
    ||| first.len() > 0 && selection.refused(key_len(first))
    ||| second.len() > 0 && selection.refused(key_len(second))
}

/// The failure, if any, of the overlap of two histograms: one of
/// consistency where their shots differ or, with registers, the lengths of
/// their bitstrings do; else a refusal of the selection.
pub open spec fn echo_failure(first: Tally, second: Tally, selection: SelectionView) -> Option<
    EstimatorError,
> {
    if total(first) != total(second) {
        Some(EstimatorError::Consistency)
    } else if selection is Registers && key_len(first) != key_len(second) {
        Some(EstimatorError::Consistency)
    } else if echo_refused(first, second, selection) {
        Some(EstimatorError::OutOfRange)
    } else {
        None
    }
}

/// The overlap of two histograms under a selection has an answer. Unless
/// their shots differ: a range has an answer for the bitstrings of the
/// first and, where it is not refused there, for those of the second; and
/// registers are taken from histograms that are not empty and, where the
/// lengths of their bitstrings agree, are registers of these.
pub open spec fn echo_defined(first: Tally, second: Tally, selection: SelectionView) -> bool {
    total(first) == total(second) ==> match selection {
        SelectionView::Range { range, subsystem_size } => {
            &&& first.len() > 0 ==> selection.applies_to(key_len(first))
            &&& !(first.len() > 0 && selection.refused(key_len(first))) && second.len() > 0
                ==> selection.applies_to(key_len(second))
        },
        SelectionView::Registers(registers) => {
            &&& first.len() > 0
            &&& second.len() > 0
            &&& key_len(first) == key_len(second) ==> selection.applies_to(key_len(first))
        },
    }
}

/// Whether the overlap of two histograms under a selection has an answer.
pub fn echo_is_defined(first: &Histogram, second: &Histogram, selection: &Selection) -> (defined:
    bool)
    requires
        first.wf(),
        second.wf(),
    ensures
        defined == echo_defined(first@, second@, selection@),
{
    if first.shots() != second.shots() {
        return true;
    }
    match selection {
        Selection::Range { range, subsystem_size } => {
            if first.len() > 0 && !selection.is_applicable(first.key_len()) {
                return false;
            }
            let direct: bool = 0 <= range.0 && range.1 <= *subsystem_size;
            let refused: bool = first.len() > 0 && !direct && ((range.0 as i64) < -(
            first.key_len() as i64) || (range.1 as i64) > first.key_len() as i64);
            refused || second.len() == 0 || selection.is_applicable(second.key_len())
        },
        Selection::Registers(_) => {
            first.len() > 0 && second.len() > 0 && (first.key_len() != second.key_len()
                || selection.is_applicable(first.key_len()))
        },
    }
}

/// The estimate is the overlap of the two histograms under the selection:
/// both are reduced, and every pair of an outcome of the first and an
/// outcome of the second is weighed at its distance.
pub open spec fn is_echo(estimate: Estimate, first: Tally, second: Tally, selection: SelectionView) -> bool {
    &&& estimate.shots == total(first)
    &&& estimate.subsystem_size == selection.size()
    &&& estimate.weighs(reduced(first, selection), reduced(second, selection))
}

/// The overlap of two histograms under a selection, with the position `idx`
/// of the pair in its batch handed back as given.
pub fn echo_cell(idx: i32, first: &Histogram, second: &Histogram, selection: &Selection) -> (res:
    Result<(i32, Estimate), EstimatorError>)
    requires
        first.wf(),
        second.wf(),
        echo_defined(first@, second@, selection@),
    ensures
        match echo_failure(first@, second@, selection@) {
            Some(e) => res is Err && res->Err_0 == e,
            None => res is Ok && res->Ok_0.0 == idx && is_echo(
                res->Ok_0.1,
                first@,
                second@,
                selection@,
            ),
        },
{
    let shots: i32 = first.shots();
    let shots2: i32 = second.shots();
    if shots != shots2 {
        return Err(EstimatorError::Consistency);
    }
    match selection {
        Selection::Registers(_) => {
            if first.key_len() != second.key_len() {
                return Err(EstimatorError::Consistency);
            }
        },
        Selection::Range { .. } => {},
    }
    let first_part = match first.reduce(selection) {
        Ok(part) => part,
        Err(e) => {
            return Err(e);
        },
    };
    let second_part = match second.reduce(selection) {
        Ok(part) => part,
        Err(e) => {
            return Err(e);
        },
    };
    let spectrum = pair_spectrum(&first_part, &second_part);
    Ok((idx, Estimate { spectrum, subsystem_size: selection.subsystem_size(), shots }))
}

/// The overlap of two histograms on the positions of a range.
///
/// Histograms with different shots are refused. A range that starts at or
/// after position zero and ends at or before `subsystem_size` is cut out of
/// every bitstring directly; any other goes through the cyclic slice, and is
/// refused where it reaches outside the bitstrings.
pub fn echo_cell_rust(
    idx: i32,
    first_counts: Histogram,
    second_counts: Histogram,
    bit_string_range: (i32, i32),
    subsystem_size: i32,
) -> (res: Result<(i32, Estimate), EstimatorError>)
    requires
        first_counts.wf(),
        second_counts.wf(),
        echo_defined(
            first_counts@,
            second_counts@,
            SelectionView::Range { range: bit_string_range, subsystem_size },
        ),
    ensures
        match echo_failure(
            first_counts@,
            second_counts@,
            SelectionView::Range { range: bit_string_range, subsystem_size },
        ) {
            Some(e) => res is Err && res->Err_0 == e,
            None => res is Ok && res->Ok_0.0 == idx && is_echo(
                res->Ok_0.1,
                first_counts@,
                second_counts@,
                SelectionView::Range { range: bit_string_range, subsystem_size },
            ),
        },
{
    let selection = Selection::Range { range: bit_string_range, subsystem_size };
    echo_cell(idx, &first_counts, &second_counts, &selection)
}

/// The overlap of two histograms on the given registers, with the registers
/// in ascending order. Histograms with different shots, or with bitstrings
/// of different lengths, are refused.
pub fn echo_cell_2_rust(
    idx: i32,
    first_counts: Histogram,
    second_counts: Histogram,
    selected_classical_registers: Vec<i32>,
) -> (res: Result<(i32, Estimate, Vec<i32>), EstimatorError>)
    requires
        first_counts.wf(),
        second_counts.wf(),
        echo_defined(
            first_counts@,
            second_counts@,
            SelectionView::Registers(selected_classical_registers@),
        ),
    ensures
        match echo_failure(
            first_counts@,
            second_counts@,
            SelectionView::Registers(selected_classical_registers@),
        ) {
            Some(e) => res is Err && res->Err_0 == e,
            None => {
                &&& res is Ok
                &&& res->Ok_0.0 == idx
                &&& is_echo(
                    res->Ok_0.1,
                    first_counts@,
                    second_counts@,
                    SelectionView::Registers(selected_classical_registers@),
                )
                &&& ascending(res->Ok_0.2@)
                &&& res->Ok_0.2@.to_multiset() == selected_classical_registers@.to_multiset()
            },
        },
{
    let sorted = sorted_registers(&selected_classical_registers);
    let selection = Selection::Registers(selected_classical_registers);
    match echo_cell(idx, &first_counts, &second_counts, &selection) {
        Ok((idx, estimate)) => Ok((idx, estimate, sorted)),
        Err(e) => Err(e),
    }
}

/// Every one of the first `n` pairs is a pair of histograms whose overlap
/// under the selection has an answer.
pub open spec fn pairs_defined(
    firsts: Seq<Histogram>,
    seconds: Seq<Histogram>,
    selection: SelectionView,
) -> bool {
    &&& firsts.len() == seconds.len()
    &&& forall|k: int|
        0 <= k < firsts.len() ==> (#[trigger] firsts[k]).wf() && seconds[k].wf() && echo_defined(
            firsts[k]@,
            seconds[k]@,
            selection,
        )
}

/// The failure of the first of the first `n` pairs that fails, if any does.
pub open spec fn pairs_failure(
    firsts: Seq<Histogram>,
    seconds: Seq<Histogram>,
    selection: SelectionView,
    n: int,
) -> Option<EstimatorError>
    decreases n,
{
    if n <= 0 {
        None
    } else {
        match pairs_failure(firsts, seconds, selection, n - 1) {
            Some(e) => Some(e),
            None => echo_failure(firsts[n - 1]@, seconds[n - 1]@, selection),
        }
    }
}

/// Each value is the overlap of the pair at its position, and carries that
/// position.
pub open spec fn are_echoes(
    values: Seq<(i32, Estimate)>,
    firsts: Seq<Histogram>,
    seconds: Seq<Histogram>,
    selection: SelectionView,
) -> bool {
    &&& values.len() == firsts.len()
    &&& forall|k: int|
        0 <= k < values.len() ==> (#[trigger] values[k]).0 == k && is_echo(
            values[k].1,
            firsts[k]@,
            seconds[k]@,
            selection,
        )
}

/// Estimating the same pairs under one selection twice gives the same
/// values: as many, with the same positions, and with estimates that are
/// the same.
pub proof fn lemma_echoes_determined(
    once: Seq<(i32, Estimate)>,
    again: Seq<(i32, Estimate)>,
    firsts: Seq<Histogram>,
    seconds: Seq<Histogram>,
    selection: SelectionView,
)
    requires
        are_echoes(once, firsts, seconds, selection),
        are_echoes(again, firsts, seconds, selection),
    ensures
        once.len() == again.len(),
        forall|k: int|
            0 <= k < once.len() ==> (#[trigger] once[k]).0 == again[k].0 && once[k].1.same_as(
                again[k].1,
            ),
{
    assert forall|k: int| 0 <= k < once.len() implies (#[trigger] once[k]).0 == again[k].0
        && once[k].1.same_as(again[k].1) by {
        assert(again[k].0 == k);
        assert(once[k].1.spectrum@ =~= again[k].1.spectrum@);
    }
}

/// The overlap of `times` pairs under one selection, in their order: pair
/// `k` is made of histogram `k` of `firsts` and histogram `offset + k` of
/// `seconds`. The first failure refuses the batch.
pub fn echo_batch(
    firsts: &Vec<Histogram>,
    seconds: &Vec<Histogram>,
    offset: usize,
    times: usize,
    selection: &Selection,
) -> (res: Result<Vec<(i32, Estimate)>, EstimatorError>)
    requires
        times <= i32::MAX,
        times <= firsts@.len(),
        offset + times <= seconds@.len(),
        pairs_defined(
            firsts@.subrange(0, times as int),
            seconds@.subrange(offset as int, offset + times),
            selection@,
        ),
    ensures
        match pairs_failure(
            firsts@.subrange(0, times as int),
            seconds@.subrange(offset as int, offset + times),
            selection@,
            times as int,
        ) {
            Some(e) => res is Err && res->Err_0 == e,
            None => res is Ok && are_echoes(
                res->Ok_0@,
                firsts@.subrange(0, times as int),
                seconds@.subrange(offset as int, offset + times),
                selection@,
            ),
        },
{
    let ghost heads = firsts@.subrange(0, times as int);
    let ghost tails = seconds@.subrange(offset as int, offset + times);
    let limit: usize = seconds.len();
    let mut values: Vec<(i32, Estimate)> = Vec::new();
    let mut k: usize = 0;
    while k < times
        invariant
            k <= times <= i32::MAX,
            times <= firsts@.len(),
            offset + times <= seconds@.len() == limit,
            heads == firsts@.subrange(0, times as int),
            tails == seconds@.subrange(offset as int, offset + times),
            pairs_defined(heads, tails, selection@),
            pairs_failure(heads, tails, selection@, k as int) is None,
            values@.len() == k,
            forall|j: int|
                0 <= j < k ==> (#[trigger] values@[j]).0 == j && is_echo(
                    values@[j].1,
                    heads[j]@,
                    tails[j]@,
                    selection@,
                ),
        decreases times - k,
    {
        assert(heads[k as int] == firsts@[k as int]);
        assert(tails[k as int] == seconds@[offset + k]);
        assert(heads[k as int].wf());
        match echo_cell(k as i32, &firsts[k], &seconds[offset + k], selection) {
            Ok(value) => {
                values.push(value);
            },
            Err(e) => {
                proof {
                    lemma_failure_stays(heads, tails, selection@, k + 1, times as int);
                }
                return Err(e);
            },
        }
        k = k + 1;
    }
    Ok(values)
}

/// A failure among the first `n` pairs is the failure among the first `m`,
/// for any `m` from `n` on.
pub proof fn lemma_failure_stays(
    firsts: Seq<Histogram>,
    seconds: Seq<Histogram>,
    selection: SelectionView,
    n: int,
    m: int,
)
    requires
        n <= m,
        pairs_failure(firsts, seconds, selection, n) is Some,
    ensures
        pairs_failure(firsts, seconds, selection, m) == pairs_failure(
            firsts,
            seconds,
            selection,
            n,
        ),
    decreases m - n,
{
    if n < m {
        lemma_failure_stays(firsts, seconds, selection, n, m - 1);
    }
}

/// The two halves of a batch, where it has an even number of histograms.
pub open spec fn halves(counts: Seq<Histogram>) -> (Seq<Histogram>, Seq<Histogram>) {
    (
        counts.subrange(0, counts.len() as int / 2),
        counts.subrange(counts.len() as int / 2, 2 * (counts.len() as int / 2)),
    )
}

/// What resolving the degree of a batch of pairs gives: what it gives for
/// any batch, and a failure of consistency where that is an answer but the
/// batch holds an odd number of histograms.
pub open spec fn halves_resolution(
    shots: i32,
    counts: Seq<Histogram>,
    degree: Option<QubitDegree>,
    measure: Option<(i32, i32)>,
) -> Result<((int, int), (int, int), int), EstimatorError> {
    match batch_resolution(shots, counts[0]@, degree, measure) {
        Err(e) => Err(e),
        Ok(resolved) => if counts.len() % 2 != 0 {
            Err(EstimatorError::Consistency)
        } else {
            Ok(resolved)
        },
    }
}

/// Holds the shots declared for a batch of pairs against its first
/// histogram, resolves the degree and the measurement window once for the
/// whole batch, and refuses a batch that cannot be split into two halves.
pub fn resolve_halves(
    shots: i32,
    counts: &Vec<Histogram>,
    degree: Option<QubitDegree>,
    measure: Option<(i32, i32)>,
) -> (res: Result<((i32, i32), (i32, i32), i32), EstimatorError>)
    requires
        batch_resolvable(shots, counts@, degree),
    ensures
        match halves_resolution(shots, counts@, degree, measure) {
            Err(e) => res == Err::<((i32, i32), (i32, i32), i32), EstimatorError>(e),
            Ok(resolved) => res is Ok && resolved_ints(res->Ok_0) == resolved,
        },
{
    let resolved = match resolve_batch(shots, counts, degree, measure) {
        Ok(resolved) => resolved,
        Err(e) => {
            return Err(e);
        },
    };
    if counts.len() % 2 != 0 {
        return Err(EstimatorError::Consistency);
    }
    Ok(resolved)
}

/// The overlap of every pair of a batch on the subsystem that a degree
/// selects. The batch holds the first histograms of all pairs, then the
/// second histograms in the same order.
///
/// The shots declared are held against the first histogram, and the degree
/// and the measurement window are resolved once, for the length of its
/// bitstrings. A batch with an odd number of histograms is refused. Then
/// every pair is estimated under the resolved range. The values come in the
/// order of the pairs, each with its position, and with them the resolved
/// range and the measurement window.
pub fn overlap_echo_core_rust(
    shots: i32,
    counts: Vec<Histogram>,
    degree: Option<QubitDegree>,
    measure: Option<(i32, i32)>,
) -> (res: Result<(Vec<(i32, Estimate)>, (i32, i32), (i32, i32)), EstimatorError>)
    requires
        counts@.len() <= i32::MAX,
        batch_resolvable(shots, counts@, degree),
        halves_resolution(shots, counts@, degree, measure) matches Ok(resolved) ==> pairs_defined(
            halves(counts@).0,
            halves(counts@).1,
            resolved_selection(resolved),
        ),
    ensures
        match halves_resolution(shots, counts@, degree, measure) {
            Err(e) => res is Err && res->Err_0 == e,
            Ok(resolved) => {
                match pairs_failure(
                    halves(counts@).0,
                    halves(counts@).1,
                    resolved_selection(resolved),
                    counts@.len() as int / 2,
                ) {
                    Some(e) => res is Err && res->Err_0 == e,
                    None => {
                        &&& res is Ok
                        &&& are_echoes(
                            res->Ok_0.0@,
                            halves(counts@).0,
                            halves(counts@).1,
                            resolved_selection(resolved),
                        )
                        &&& (res->Ok_0.1.0 as int, res->Ok_0.1.1 as int) == resolved.0
                        &&& (res->Ok_0.2.0 as int, res->Ok_0.2.1 as int) == resolved.1
                    },
                }
            },
        },
{
    let (bitstring_range, actual_measure, subsystems_size) = match resolve_halves(
        shots,
        &counts,
        degree,
        measure,
    ) {
        Ok(resolved) => resolved,
        Err(e) => {
            return Err(e);
        },
    };
    let times: usize = counts.len() / 2;
    let selection = Selection::Range { range: bitstring_range, subsystem_size: subsystems_size };
    match echo_batch(&counts, &counts, times, times, &selection) {
        Ok(values) => Ok((values, bitstring_range, actual_measure)),
        Err(e) => Err(e),
    }
}

/// The failure, if any, with which two batches are refused before any pair
/// is estimated: one of consistency where the batches differ in length, or
/// the shots declared are not those of the first histogram of each, or the
/// bitstrings of these two differ in length.
pub open spec fn pairing_refused(
    shots: i32,
    first_counts: Seq<Histogram>,
    second_counts: Seq<Histogram>,
) -> bool {
    ||| first_counts.len() != second_counts.len()
    ||| shots != total(first_counts[0]@)
    ||| shots != total(second_counts[0]@)
    ||| key_len(first_counts[0]@) != key_len(second_counts[0]@)
}

/// Two batches can be held against each other: unless they differ in
/// length, each has a first histogram, and, where the shots of both are
/// those declared, neither of the two is empty.
pub open spec fn pairing_resolvable(
    shots: i32,
    first_counts: Seq<Histogram>,
    second_counts: Seq<Histogram>,
) -> bool {
    first_counts.len() == second_counts.len() ==> {
        &&& first_counts.len() > 0
        &&& first_counts[0].wf()
        &&& second_counts[0].wf()
        &&& shots == total(first_counts[0]@) && shots == total(second_counts[0]@)
            ==> first_counts[0]@.len() > 0 && second_counts[0]@.len() > 0
    }
}

/// Whether two batches can be held against each other.
pub fn pairing_is_resolvable(
    shots: i32,
    first_counts: &Vec<Histogram>,
    second_counts: &Vec<Histogram>,
) -> (resolvable: bool)
    requires
        first_counts@.len() > 0 ==> first_counts@[0].wf(),
        second_counts@.len() > 0 ==> second_counts@[0].wf(),
    ensures
        resolvable == pairing_resolvable(shots, first_counts@, second_counts@),
{
    if first_counts.len() != second_counts.len() {
        return true;
    }
    if first_counts.len() == 0 {
        return false;
    }
    if shots != first_counts[0].shots() || shots != second_counts[0].shots() {
        return true;
    }
    first_counts[0].len() > 0 && second_counts[0].len() > 0
}

/// Holds two batches against each other and against the shots declared, and
/// chooses the registers once for all pairs: those given, else all registers
/// of the bitstrings of the first histogram.
pub fn resolve_pairing(
    shots: i32,
    first_counts: &Vec<Histogram>,
    second_counts: &Vec<Histogram>,
    selected_classical_registers: Option<Vec<i32>>,
) -> (res: Result<Vec<i32>, EstimatorError>)
    requires
        pairing_resolvable(shots, first_counts@, second_counts@),
    ensures
        pairing_refused(shots, first_counts@, second_counts@) ==> res is Err && res->Err_0
            == EstimatorError::Consistency,
        !pairing_refused(shots, first_counts@, second_counts@) ==> res is Ok && res->Ok_0@
            == chosen_registers(selected_classical_registers, key_len(first_counts@[0]@)),
{
    if first_counts.len() != second_counts.len() {
        return Err(EstimatorError::Consistency);
    }
    let sample_shots_01: i32 = first_counts[0].shots();
    let sample_shots_02: i32 = second_counts[0].shots();
    if shots != sample_shots_01 || shots != sample_shots_02 {
        return Err(EstimatorError::Consistency);
    }
    if first_counts[0].key_len() != second_counts[0].key_len() {
        return Err(EstimatorError::Consistency);
    }
    let measured_system_size: i32 = first_counts[0].key_len() as i32;
    match selected_classical_registers {
        Some(registers) => Ok(registers),
        None => Ok(all_registers(measured_system_size)),
    }
}

/// The overlap of every pair of two batches on the given registers, or on
/// all registers where none are given. Pair `k` is made of histogram `k` of
/// each batch.
///
/// The batches have to be equally long, the shots declared those of the
/// first histogram of each, and the bitstrings of these two equally long.
/// The values come in the order of the pairs, each with its position; with
/// them come the registers in ascending order, and the positions of the
/// pairs whose own ascending list does not agree with it, of which there are
/// none.
pub fn overlap_echo_core_2_rust(
    shots: i32,
    first_counts: Vec<Histogram>,
    second_counts: Vec<Histogram>,
    selected_classical_registers: Option<Vec<i32>>,
) -> (res: Result<(Vec<(i32, Estimate)>, Vec<i32>, Vec<i32>), EstimatorError>)
    requires
        first_counts@.len() <= i32::MAX,
        pairing_resolvable(shots, first_counts@, second_counts@),
        !pairing_refused(shots, first_counts@, second_counts@) ==> pairs_defined(
            first_counts@,
            second_counts@,
            SelectionView::Registers(
                chosen_registers(selected_classical_registers, key_len(first_counts@[0]@)),
            ),
        ),
    ensures
        pairing_refused(shots, first_counts@, second_counts@) ==> res is Err && res->Err_0
            == EstimatorError::Consistency,
        !pairing_refused(shots, first_counts@, second_counts@) ==> {
            let chosen = chosen_registers(
                selected_classical_registers,
                key_len(first_counts@[0]@),
            );
            match pairs_failure(
                first_counts@,
                second_counts@,
                SelectionView::Registers(chosen),
                first_counts@.len() as int,
            ) {
                Some(e) => res is Err && res->Err_0 == e,
                None => {
                    &&& res is Ok
                    &&& are_echoes(
                        res->Ok_0.0@,
                        first_counts@,
                        second_counts@,
                        SelectionView::Registers(chosen),
                    )
                    &&& ascending(res->Ok_0.1@)
                    &&& res->Ok_0.1@.to_multiset() == chosen.to_multiset()
                    &&& res->Ok_0.2@.len() == 0
                },
            }
        },
{
    let registers = match resolve_pairing(
        shots,
        &first_counts,
        &second_counts,
        selected_classical_registers,
    ) {
        Ok(registers) => registers,
        Err(e) => {
            return Err(e);
        },
    };
    let times: usize = first_counts.len();
    let sorted = sorted_registers(&registers);
    let disagreeing = disagreeing_items(&registers, &sorted, times);
    let selection = Selection::Registers(registers);
    assert(first_counts@.subrange(0, times as int) == first_counts@);
    assert(second_counts@.subrange(0, 0 + times) == second_counts@);
    match echo_batch(&first_counts, &second_counts, 0, times, &selection) {
        Ok(values) => Ok((values, sorted, disagreeing)),
        Err(e) => Err(e),
    }
}

} // verus!
