//! Purity of one state: the estimate of a histogram against itself, for one
//! histogram and for a batch of them.

use vstd::prelude::*;
use crate::construct::{
    degree_handler_rust,
    resolution,
    resolved_ints,
    selection_defined,
    selection_is_defined,
    QubitDegree,
};
use crate::error::EstimatorError;
use crate::histogram::{key_len, reduced, total, Histogram, Tally};
use crate::randomized::{pair_spectrum, Estimate};
use crate::registers::{
    agree,
    all_registers,
    ascending,
    every_register,
    in_order,
    lemma_in_order,
    registers_agree,
    sorted_registers,
};
use crate::selection::{SelectionView, Selection};

verus! {

/// The purity of a histogram under a selection has an answer: the selection
/// has one for the bitstrings of the histogram, and registers are taken from
/// a histogram that is not empty.
pub open spec fn purity_defined(counts: Tally, selection: SelectionView) -> bool {
    match selection {
        SelectionView::Range { range, subsystem_size } => counts.len() > 0 ==> selection.applies_to(
            key_len(counts),
        ),
        SelectionView::Registers(registers) => counts.len() > 0 && selection.applies_to(key_len(counts)),
    }
}

/// Whether the purity of a histogram under a selection has an answer.
pub fn purity_is_defined(counts: &Histogram, selection: &Selection) -> (defined: bool)
    ensures
        defined == purity_defined(counts@, selection@),
{
    match selection {
        Selection::Range { .. } => counts.len() == 0 || selection.is_applicable(counts.key_len()),
        Selection::Registers(_) => counts.len() > 0 && selection.is_applicable(counts.key_len()),
    }
}

/// The selection is refused for the bitstrings of the histogram.
pub open spec fn purity_refused(counts: Tally, selection: SelectionView) -> bool {
    counts.len() > 0 && selection.refused(key_len(counts))
}

/// The estimate is the purity of the histogram under the selection: the
/// histogram is reduced, and every pair of outcomes of the reduced
/// histogram, an outcome with itself too, is weighed at its distance.
pub open spec fn is_purity(estimate: Estimate, counts: Tally, selection: SelectionView) -> bool {
    let part = reduced(counts, selection);
    &&& estimate.shots == total(counts)
    &&& estimate.subsystem_size == selection.size()
    &&& estimate.weighs(part, part)
}

/// The purity of one histogram under a selection, with the position `idx`
/// of the histogram in its batch handed back as given.
pub fn purity_cell(idx: i32, counts: &Histogram, selection: &Selection) -> (res: Result<
    (i32, Estimate),
    EstimatorError,
>)
    requires
        counts.wf(),
        purity_defined(counts@, selection@),
    ensures
        purity_refused(counts@, selection@) ==> res is Err && res->Err_0
            == EstimatorError::OutOfRange,
        !purity_refused(counts@, selection@) ==> res is Ok && res->Ok_0.0 == idx && is_purity(
            res->Ok_0.1,
            counts@,
            selection@,
        ),
{
    let shots: i32 = counts.shots();
    let part = match counts.reduce(selection) {
        Ok(part) => part,
        Err(e) => {
            return Err(e);
        },
    };
    let spectrum = pair_spectrum(&part, &part);
    Ok((idx, Estimate { spectrum, subsystem_size: selection.subsystem_size(), shots }))
}

/// The purity of one histogram on the positions of a range.
///
/// A range that starts at or after position zero and ends at or before
/// `subsystem_size` is cut out of every bitstring directly; any other goes
/// through the cyclic slice, and is refused where it reaches outside the
/// bitstrings.
pub fn purity_cell_rust(
    idx: i32,
    single_counts: Histogram,
    bit_string_range: (i32, i32),
    subsystem_size: i32,
) -> (res: Result<(i32, Estimate), EstimatorError>)
    requires
        single_counts.wf(),
        purity_defined(single_counts@, SelectionView::Range { range: bit_string_range, subsystem_size }),
    ensures
        purity_refused(single_counts@, SelectionView::Range { range: bit_string_range, subsystem_size })
            ==> res is Err && res->Err_0 == EstimatorError::OutOfRange,
        !purity_refused(single_counts@, SelectionView::Range { range: bit_string_range, subsystem_size })
            ==> res is Ok && res->Ok_0.0 == idx && is_purity(
            res->Ok_0.1,
            single_counts@,
            SelectionView::Range { range: bit_string_range, subsystem_size },
        ),
{
    let selection = Selection::Range { range: bit_string_range, subsystem_size };
    purity_cell(idx, &single_counts, &selection)
}

/// The purity of one histogram on the given registers, with the registers
/// in ascending order. The bitstrings are put together from the registers
/// in the order given.
pub fn purity_cell_2_rust(
    idx: i32,
    single_counts: Histogram,
    selected_classical_registers: Vec<i32>,
) -> (res: (i32, Estimate, Vec<i32>))
    requires
        single_counts.wf(),
        purity_defined(single_counts@, SelectionView::Registers(selected_classical_registers@)),
    ensures
        res.0 == idx,
        is_purity(res.1, single_counts@, SelectionView::Registers(selected_classical_registers@)),
        ascending(res.2@),
        res.2@.to_multiset() == selected_classical_registers@.to_multiset(),
{
    let sorted = sorted_registers(&selected_classical_registers);
    let selection = Selection::Registers(selected_classical_registers);
    match purity_cell(idx, &single_counts, &selection) {
        Ok((idx, estimate)) => (idx, estimate, sorted),
        Err(_) => {
            proof {
                assert(false);
            }
            vstd::pervasive::unreached()
        },
    }
}

/// What resolving the degree of a batch gives: a failure of consistency
/// where the shots declared are not those of the first histogram, else what
/// the degree resolves to for the length of its bitstrings.
pub open spec fn batch_resolution(
    shots: i32,
    first: Tally,
    degree: Option<QubitDegree>,
    measure: Option<(i32, i32)>,
) -> Result<((int, int), (int, int), int), EstimatorError> {
    if shots != total(first) {
        Err(EstimatorError::Consistency)
    } else {
        resolution(key_len(first), degree, measure)
    }
}

/// The degree of a batch can be resolved: there is a first histogram, and,
/// where its shots are those declared, it is not empty and the degree has
/// an answer for the length of its bitstrings.
pub open spec fn batch_resolvable(
    shots: i32,
    counts: Seq<Histogram>,
    degree: Option<QubitDegree>,
) -> bool {
    &&& counts.len() > 0
    &&& counts[0].wf()
    &&& shots == total(counts[0]@) ==> counts[0]@.len() > 0 && selection_defined(
        key_len(counts[0]@),
        degree,
    )
}

/// Whether the degree of a batch can be resolved.
pub fn batch_is_resolvable(
    shots: i32,
    counts: &Vec<Histogram>,
    degree: Option<QubitDegree>,
) -> (resolvable: bool)
    requires
        counts@.len() > 0 ==> counts@[0].wf(),
    ensures
        resolvable == batch_resolvable(shots, counts@, degree),
{
    if counts.len() == 0 {
        return false;
    }
    if shots != counts[0].shots() {
        return true;
    }
    counts[0].len() > 0 && selection_is_defined(counts[0].key_len() as i32, degree)
}

/// The selection that a resolved range and size make.
pub open spec fn resolved_selection(resolved: ((int, int), (int, int), int)) -> SelectionView {
    SelectionView::Range {
        range: (resolved.0.0 as i32, resolved.0.1 as i32),
        subsystem_size: resolved.2 as i32,
    }
}

/// Holds the shots declared for a batch against its first histogram, and
/// resolves the degree and the measurement window once for the whole batch,
/// by the length of the bitstrings of that histogram.
pub fn resolve_batch(
    shots: i32,
    counts: &Vec<Histogram>,
    degree: Option<QubitDegree>,
    measure: Option<(i32, i32)>,
) -> (res: Result<((i32, i32), (i32, i32), i32), EstimatorError>)
    requires
        batch_resolvable(shots, counts@, degree),
    ensures
        match batch_resolution(shots, counts@[0]@, degree, measure) {
            Err(e) => res == Err::<((i32, i32), (i32, i32), i32), EstimatorError>(e),
            Ok(resolved) => res is Ok && resolved_ints(res->Ok_0) == resolved,
        },
{
    let sample_shots: i32 = counts[0].shots();
    if shots != sample_shots {
        return Err(EstimatorError::Consistency);
    }
    let allsystems_size: i32 = counts[0].key_len() as i32;
    degree_handler_rust(allsystems_size, degree, measure)
}

/// Every histogram of the batch is one, and its purity under the selection
/// has an answer.
pub open spec fn batch_defined(counts: Seq<Histogram>, selection: SelectionView) -> bool {
    forall|k: int|
        0 <= k < counts.len() ==> (#[trigger] counts[k]).wf() && purity_defined(
            counts[k]@,
            selection,
        )
}

/// The selection is refused for a histogram of the batch.
pub open spec fn batch_refused(counts: Seq<Histogram>, selection: SelectionView) -> bool {
    exists|k: int| 0 <= k < counts.len() && purity_refused((#[trigger] counts[k])@, selection)
}

/// Each value is the purity of the histogram at its position, and carries
/// that position.
pub open spec fn are_purities(
    values: Seq<(i32, Estimate)>,
    counts: Seq<Histogram>,
    selection: SelectionView,
) -> bool {
    &&& values.len() == counts.len()
    &&& forall|k: int|
        0 <= k < values.len() ==> (#[trigger] values[k]).0 == k && is_purity(
            values[k].1,
            counts[k]@,
            selection,
        )
}

/// Estimating one batch under one selection twice gives the same values:
/// as many, with the same positions, and with estimates that are the same.
pub proof fn lemma_purities_determined(
    once: Seq<(i32, Estimate)>,
    again: Seq<(i32, Estimate)>,
    counts: Seq<Histogram>,
    selection: SelectionView,
)
    requires
        are_purities(once, counts, selection),
        are_purities(again, counts, selection),
    ensures
        once.len() == again.len(),
        forall|k: int|
            0 <= k < once.len() ==> (#[trigger] once[k]).0 == again[k].0 && once[k].1.same_as(
                again[k].1,
            ),
{
    assert forall|k: int| 0 <= k < once.len() implies (#[trigger] once[k]).0 == again[k].0
        && once[k].1.same_as(again[k].1) by {
        assert(again[k].0 == k);
        assert(once[k].1.spectrum@ =~= again[k].1.spectrum@);
    }
}

/// The purity of every histogram of a batch under one selection, in the
/// order of the batch. One refusal refuses the batch.
pub fn purity_batch(counts: &Vec<Histogram>, selection: &Selection) -> (res: Result<
    Vec<(i32, Estimate)>,
    EstimatorError,
>)
    requires
        counts@.len() <= i32::MAX,
        batch_defined(counts@, selection@),
    ensures
        batch_refused(counts@, selection@) ==> res is Err && res->Err_0
            == EstimatorError::OutOfRange,
        !batch_refused(counts@, selection@) ==> res is Ok && are_purities(
            res->Ok_0@,
            counts@,
            selection@,
        ),
{
    let mut values: Vec<(i32, Estimate)> = Vec::new();
    let mut k: usize = 0;
    while k < counts.len()
        invariant
            k <= counts@.len() <= i32::MAX,
            batch_defined(counts@, selection@),
            values@.len() == k,
            forall|j: int| 0 <= j < k ==> !purity_refused((#[trigger] counts@[j])@, selection@),
            forall|j: int|
                0 <= j < k ==> (#[trigger] values@[j]).0 == j && is_purity(
                    values@[j].1,
                    counts@[j]@,
                    selection@,
                ),
        decreases counts@.len() - k,
    {
        assert(counts@[k as int].wf());
        match purity_cell(k as i32, &counts[k], selection) {
            Ok(value) => {
                values.push(value);
            },
            Err(e) => {
                return Err(e);
            },
        }
        k = k + 1;
    }
    Ok(values)
}

/// The purity of every histogram of a batch on the subsystem that a degree
/// selects.
///
/// The shots declared are held against the first histogram, and the degree
/// and the measurement window are resolved once, for the length of its
/// bitstrings. Then every histogram is estimated under the resolved range.
/// The values come in the order of the batch, each with its position, and
/// with them the resolved range and the measurement window.
pub fn entangled_entropy_core_rust(
    shots: i32,
    counts: Vec<Histogram>,
    degree: Option<QubitDegree>,
    measure: Option<(i32, i32)>,
) -> (res: Result<(Vec<(i32, Estimate)>, (i32, i32), (i32, i32)), EstimatorError>)
    requires
        counts@.len() <= i32::MAX,
        batch_resolvable(shots, counts@, degree),
        batch_resolution(shots, counts@[0]@, degree, measure) matches Ok(resolved)
            ==> batch_defined(counts@, resolved_selection(resolved)),
    ensures
        match batch_resolution(shots, counts@[0]@, degree, measure) {
            Err(e) => res is Err && res->Err_0 == e,
            Ok(resolved) => {
                if batch_refused(counts@, resolved_selection(resolved)) {
                    res is Err && res->Err_0 == EstimatorError::OutOfRange
                } else {
                    &&& res is Ok
                    &&& are_purities(res->Ok_0.0@, counts@, resolved_selection(resolved))
                    &&& (res->Ok_0.1.0 as int, res->Ok_0.1.1 as int) == resolved.0
                    &&& (res->Ok_0.2.0 as int, res->Ok_0.2.1 as int) == resolved.1
                }
            },
        },
{
    let (bitstring_range, actual_measure, subsystems_size) = match resolve_batch(
        shots,
        &counts,
        degree,
        measure,
    ) {
        Ok(resolved) => resolved,
        Err(e) => {
            return Err(e);
        },
    };
    let selection = Selection::Range { range: bitstring_range, subsystem_size: subsystems_size };
    match purity_batch(&counts, &selection) {
        Ok(values) => Ok((values, bitstring_range, actual_measure)),
        Err(e) => Err(e),
    }
}

/// The registers that a batch is estimated on: those given, else all
/// registers of a bitstring of `len` characters.
pub open spec fn chosen_registers(selected: Option<Vec<i32>>, len: int) -> Seq<i32> {
    match selected {
        Some(registers) => registers@,
        None => every_register(len),
    }
}

/// The registers of a batch can be chosen: there is a first histogram, and
/// it is not empty where its shots are those declared.
pub open spec fn registers_resolvable(shots: i32, counts: Seq<Histogram>) -> bool {
    &&& counts.len() > 0
    &&& counts[0].wf()
    &&& shots == total(counts[0]@) ==> counts[0]@.len() > 0
}

/// Whether the registers of a batch can be chosen.
pub fn registers_are_resolvable(shots: i32, counts: &Vec<Histogram>) -> (resolvable: bool)
    requires
        counts@.len() > 0 ==> counts@[0].wf(),
    ensures
        resolvable == registers_resolvable(shots, counts@),
{
    if counts.len() == 0 {
        return false;
    }
    shots != counts[0].shots() || counts[0].len() > 0
}

/// Holds the shots declared for a batch against its first histogram, and
/// chooses the registers once for the whole batch: those given, else all
/// registers of the bitstrings of that histogram.
pub fn resolve_registers(
    shots: i32,
    counts: &Vec<Histogram>,
    selected_classical_registers: Option<Vec<i32>>,
) -> (res: Result<Vec<i32>, EstimatorError>)
    requires
        registers_resolvable(shots, counts@),
    ensures
        shots != total(counts@[0]@) ==> res is Err && res->Err_0 == EstimatorError::Consistency,
        shots == total(counts@[0]@) ==> res is Ok && res->Ok_0@ == chosen_registers(
            selected_classical_registers,
            key_len(counts@[0]@),
        ),
{
    let sample_shots: i32 = counts[0].shots();
    if shots != sample_shots {
        return Err(EstimatorError::Consistency);
    }
    let measured_system_size: i32 = counts[0].key_len() as i32;
    match selected_classical_registers {
        Some(registers) => Ok(registers),
        None => Ok(all_registers(measured_system_size)),
    }
}

/// The positions in a batch of `len` items that disagree with `expected`.
/// Every item puts the same registers in ascending order, so either none
/// disagrees, or every one does: all positions from zero to `len - 1`.
pub open spec fn disagreeing(registers: Seq<i32>, expected: Seq<i32>, len: int) -> Seq<i32> {
    if agree(expected, in_order(registers)) {
        Seq::empty()
    } else {
        every_register(len)
    }
}

/// The positions in a batch of `len` items at which putting the registers
/// in ascending order once more gives a list that does not agree with
/// `expected`. There are none where `expected` is that list itself.
pub fn disagreeing_items(registers: &Vec<i32>, expected: &Vec<i32>, len: usize) -> (items: Vec<i32>)
    requires
        len <= i32::MAX,
    ensures
        items@ == disagreeing(registers@, expected@, len as int),
        ascending(expected@) && expected@.to_multiset() == registers@.to_multiset()
            ==> items@.len() == 0,
{
    let mut items: Vec<i32> = Vec::new();
    let mut k: usize = 0;
    while k < len
        invariant
            k <= len <= i32::MAX,
            items@ == disagreeing(registers@, expected@, k as int),
        decreases len - k,
    {
        let sorted = sorted_registers(registers);
        proof {
            lemma_in_order(registers@, sorted@);
        }
        if !registers_agree(expected, &sorted) {
            items.push(k as i32);
            assert(items@ =~= every_register(k + 1));
        }
        k = k + 1;
    }
    proof {
        if ascending(expected@) && expected@.to_multiset() == registers@.to_multiset() {
            lemma_in_order(registers@, expected@);
        }
    }
    items
}

/// The purity of every histogram of a batch on the given registers, or on
/// all registers where none are given.
///
/// The shots declared are held against the first histogram. The values come
/// in the order of the batch, each with its position; with them come the
/// registers in ascending order, and the positions of the items whose own
/// ascending list does not agree with it, of which there are none.
pub fn entangled_entropy_core_2_rust(
    shots: i32,
    counts: Vec<Histogram>,
    selected_classical_registers: Option<Vec<i32>>,
) -> (res: Result<(Vec<(i32, Estimate)>, Vec<i32>, Vec<i32>), EstimatorError>)
    requires
        counts@.len() <= i32::MAX,
        registers_resolvable(shots, counts@),
        shots == total(counts@[0]@) ==> batch_defined(
            counts@,
            SelectionView::Registers(chosen_registers(selected_classical_registers, key_len(counts@[0]@))),
        ),
    ensures
        shots != total(counts@[0]@) ==> res is Err && res->Err_0 == EstimatorError::Consistency,
        shots == total(counts@[0]@) ==> {
            let chosen = chosen_registers(selected_classical_registers, key_len(counts@[0]@));
            &&& res is Ok
            &&& are_purities(res->Ok_0.0@, counts@, SelectionView::Registers(chosen))
            &&& ascending(res->Ok_0.1@)
            &&& res->Ok_0.1@.to_multiset() == chosen.to_multiset()
            &&& res->Ok_0.2@.len() == 0
        },
{
    let registers = match resolve_registers(shots, &counts, selected_classical_registers) {
        Ok(registers) => registers,
        Err(e) => {
            return Err(e);
        },
    };
    let sorted = sorted_registers(&registers);
    let disagreeing = disagreeing_items(&registers, &sorted, counts.len());
    let selection = Selection::Registers(registers);
    assert(counts@[0].wf() && purity_defined(counts@[0]@, selection@));
    match purity_batch(&counts, &selection) {
        Ok(values) => Ok((values, sorted, disagreeing)),
        Err(e) => {
            proof {
                let k = choose|k: int|
                    0 <= k < counts@.len() && purity_refused((#[trigger] counts@[k])@, selection@);
                assert(false);
            }
            Err(e)
        },
    }
}

} // verus!
