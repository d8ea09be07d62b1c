use boorust::construct::QubitDegree;
use boorust::echo::{
    echo_batch, overlap_echo_core_2_rust, overlap_echo_core_rust, pairing_is_resolvable,
    resolve_halves,
    resolve_pairing,
};
use boorust::entropy::{
    batch_is_resolvable, disagreeing_items, entangled_entropy_core_2_rust,
    entangled_entropy_core_rust, purity_batch, registers_are_resolvable, resolve_batch,
    resolve_registers,
};
use boorust::error::{EstimatorError, RangeViolations};
use boorust::histogram::Histogram;
use boorust::randomized::Estimate;
use boorust::selection::Selection;

fn histogram(items: &[(&str, i32)]) -> Histogram {
    Histogram::from_pairs(items.iter().map(|(k, c)| (k.to_string(), *c)).collect()).unwrap()
}

fn estimate(spectrum: &[u64], subsystem_size: i32, shots: i32) -> Estimate {
    Estimate { spectrum: spectrum.to_vec(), subsystem_size, shots }
}

fn two_states() -> Vec<Histogram> {
    vec![histogram(&[("00", 100)]), histogram(&[("00", 50), ("11", 50)])]
}

#[test]
fn entropy_core_estimates_every_histogram() {
    let (values, range, measure) =
        entangled_entropy_core_rust(100, two_states(), None, None).unwrap();
    assert_eq!(
        values,
        vec![(0, estimate(&[10000, 0, 0], 2, 100)), (1, estimate(&[5000, 0, 5000], 2, 100))]
    );
    assert_eq!(range, (0, 2));
    assert_eq!(measure, (0, 2));
}

#[test]
fn entropy_core_on_the_last_position() {
    let (values, range, measure) =
        entangled_entropy_core_rust(100, two_states(), Some(QubitDegree::Single(1)), None)
            .unwrap();
    assert_eq!(
        values,
        vec![(0, estimate(&[10000, 0], 1, 100)), (1, estimate(&[5000, 5000], 1, 100))]
    );
    assert_eq!(range, (1, 2));
    assert_eq!(measure, (1, 2));
}

#[test]
fn entropy_core_keeps_a_given_measure() {
    let (_, range, measure) =
        entangled_entropy_core_rust(100, two_states(), Some(QubitDegree::Pair(1, 0)), Some((5, 9)))
            .unwrap();
    assert_eq!(range, (0, 1));
    assert_eq!(measure, (5, 9));
}

#[test]
fn entropy_core_refuses_other_shots() {
    let res = entangled_entropy_core_rust(99, two_states(), None, None);
    assert_eq!(res.unwrap_err(), EstimatorError::Consistency);
}

#[test]
fn entropy_core_checks_the_first_histogram_only() {
    let counts = vec![histogram(&[("00", 100)]), histogram(&[("00", 5), ("11", 5)])];
    let (values, _, _) = entangled_entropy_core_rust(100, counts, None, None).unwrap();
    assert_eq!(values[1], (1, estimate(&[50, 0, 50], 2, 10)));
}

#[test]
fn entropy_core_hands_on_degree_failures() {
    let beyond = entangled_entropy_core_rust(100, two_states(), Some(QubitDegree::Single(3)), None);
    assert_eq!(beyond.unwrap_err(), EstimatorError::OutOfRange);
    let negative =
        entangled_entropy_core_rust(100, two_states(), Some(QubitDegree::Single(-1)), None);
    assert_eq!(negative.unwrap_err(), EstimatorError::InvalidArgument);
    let empty = entangled_entropy_core_rust(100, two_states(), Some(QubitDegree::Single(0)), None);
    assert_eq!(
        empty.unwrap_err(),
        EstimatorError::Configuration(RangeViolations {
            empty_or_reversed: true,
            start_below_register: false,
            end_beyond_register: false,
            wider_than_register: false,
        })
    );
}

#[test]
fn entropy_core_fails_as_a_whole() {
    let counts = vec![histogram(&[("000", 5)]), histogram(&[("00", 5)])];
    let res = entangled_entropy_core_rust(5, counts, Some(QubitDegree::Single(1)), None);
    assert_eq!(res.unwrap_err(), EstimatorError::OutOfRange);
}

#[test]
fn entropy_core_gives_the_same_twice() {
    let items = [("0000", 13), ("0110", 29), ("1111", 31), ("1001", 27), ("0001", 0)];
    let batch = || vec![histogram(&items), histogram(&items[..3]), histogram(&items[2..])];
    let degree = Some(QubitDegree::Pair(-1, 2));
    let first = entangled_entropy_core_rust(100, batch(), degree, None).unwrap();
    let second = entangled_entropy_core_rust(100, batch(), degree, None).unwrap();
    assert_eq!(first, second);
    assert_eq!(first.1, (-1, 2));
    assert_eq!(first.0.len(), 3);
    for (k, value) in first.0.iter().enumerate() {
        assert_eq!(value.0, k as i32);
        let shots = value.1.shots as u64;
        assert_eq!(value.1.spectrum.iter().sum::<u64>(), shots * shots);
    }
}

#[test]
fn resolve_batch_resolves_once_for_the_first_histogram() {
    let counts = vec![histogram(&[("00000000", 100)]), histogram(&[("00", 1)])];
    assert_eq!(
        resolve_batch(100, &counts, Some(QubitDegree::Pair(7, 3)), None),
        Ok(((3, 7), (3, 7), 4))
    );
    assert_eq!(
        resolve_batch(1, &counts, Some(QubitDegree::Pair(7, 3)), None),
        Err(EstimatorError::Consistency)
    );
}

#[test]
fn purity_batch_numbers_its_values() {
    let selection = Selection::Registers(vec![0]);
    let values = purity_batch(&two_states(), &selection).unwrap();
    assert_eq!(
        values,
        vec![(0, estimate(&[10000, 0], 1, 100)), (1, estimate(&[5000, 5000], 1, 100))]
    );
    assert_eq!(purity_batch(&Vec::new(), &selection).unwrap(), Vec::new());
}

#[test]
fn entropy_core_2_estimates_on_given_registers() {
    let counts = vec![histogram(&[("1001", 60), ("0001", 40)])];
    let (values, sorted, disagreeing) =
        entangled_entropy_core_2_rust(100, counts, Some(vec![3, 0])).unwrap();
    assert_eq!(values, vec![(0, estimate(&[5200, 4800, 0], 2, 100))]);
    assert_eq!(sorted, vec![0, 3]);
    assert_eq!(disagreeing, Vec::<i32>::new());
}

#[test]
fn entropy_core_2_takes_all_registers_by_default() {
    let counts = vec![histogram(&[("1001", 60), ("0001", 40)]), histogram(&[("1111", 100)])];
    let (values, sorted, disagreeing) = entangled_entropy_core_2_rust(100, counts, None).unwrap();
    assert_eq!(
        values,
        vec![
            (0, estimate(&[5200, 4800, 0, 0, 0], 4, 100)),
            (1, estimate(&[10000, 0, 0, 0, 0], 4, 100)),
        ]
    );
    assert_eq!(sorted, vec![0, 1, 2, 3]);
    assert_eq!(disagreeing, Vec::<i32>::new());
}

#[test]
fn entropy_core_2_refuses_other_shots() {
    let counts = vec![histogram(&[("1001", 60), ("0001", 40)])];
    let res = entangled_entropy_core_2_rust(10, counts, Some(vec![3, 0]));
    assert_eq!(res.unwrap_err(), EstimatorError::Consistency);
}

#[test]
fn resolve_registers_chooses_given_or_all() {
    let counts = vec![histogram(&[("100", 60), ("000", 40)])];
    assert_eq!(resolve_registers(100, &counts, Some(vec![2, 2, 0])), Ok(vec![2, 2, 0]));
    assert_eq!(resolve_registers(100, &counts, None), Ok(vec![0, 1, 2]));
    assert_eq!(resolve_registers(1, &counts, None), Err(EstimatorError::Consistency));
}

#[test]
fn disagreeing_items_finds_none() {
    assert_eq!(disagreeing_items(&vec![2, 0, 1], &vec![0, 1, 2], 5), Vec::<i32>::new());
    assert_eq!(disagreeing_items(&vec![2, 0, 1], &vec![0, 1], 5), Vec::<i32>::new());
    assert_eq!(disagreeing_items(&vec![2, 0, 1], &vec![0, 1, 2], 0), Vec::<i32>::new());
}

#[test]
fn disagreeing_items_finds_every_item_where_the_lists_differ() {
    assert_eq!(disagreeing_items(&vec![2, 0, 1], &vec![0, 2, 1], 3), vec![0, 1, 2]);
    assert_eq!(disagreeing_items(&vec![2, 0], &vec![2, 0], 2), vec![0, 1]);
    assert_eq!(disagreeing_items(&vec![2, 0], &vec![1], 0), Vec::<i32>::new());
}

fn four_states() -> Vec<Histogram> {
    vec![
        histogram(&[("00", 100)]),
        histogram(&[("01", 100)]),
        histogram(&[("11", 100)]),
        histogram(&[("01", 100)]),
    ]
}

#[test]
fn echo_core_pairs_the_two_halves() {
    let (values, range, measure) = overlap_echo_core_rust(100, four_states(), None, None).unwrap();
    assert_eq!(
        values,
        vec![(0, estimate(&[0, 0, 10000], 2, 100)), (1, estimate(&[10000, 0, 0], 2, 100))]
    );
    assert_eq!(range, (0, 2));
    assert_eq!(measure, (0, 2));
}

#[test]
fn echo_core_refuses_an_odd_batch() {
    let mut counts = four_states();
    counts.pop();
    let res = overlap_echo_core_rust(100, counts, None, None);
    assert_eq!(res.unwrap_err(), EstimatorError::Consistency);
}

#[test]
fn echo_core_refuses_other_shots() {
    let res = overlap_echo_core_rust(1, four_states(), None, None);
    assert_eq!(res.unwrap_err(), EstimatorError::Consistency);
}

#[test]
fn echo_core_refuses_a_pair_with_different_shots() {
    let counts = vec![histogram(&[("00", 100)]), histogram(&[("11", 90)])];
    let res = overlap_echo_core_rust(100, counts, None, None);
    assert_eq!(res.unwrap_err(), EstimatorError::Consistency);
}

#[test]
fn echo_core_resolves_the_degree_before_it_counts_the_batch() {
    let mut counts = four_states();
    counts.pop();
    let res = overlap_echo_core_rust(100, counts, Some(QubitDegree::Single(5)), None);
    assert_eq!(res.unwrap_err(), EstimatorError::OutOfRange);
}

#[test]
fn echo_core_gives_the_same_twice() {
    let degree = Some(QubitDegree::Single(1));
    let first = overlap_echo_core_rust(100, four_states(), degree, None).unwrap();
    let second = overlap_echo_core_rust(100, four_states(), degree, None).unwrap();
    assert_eq!(first, second);
    assert_eq!(
        first.0,
        vec![(0, estimate(&[0, 10000], 1, 100)), (1, estimate(&[10000, 0], 1, 100))]
    );
}

#[test]
fn echo_core_2_pairs_two_batches() {
    let mut firsts = four_states();
    let seconds = firsts.split_off(2);
    let (values, sorted, disagreeing) =
        overlap_echo_core_2_rust(100, firsts, seconds, Some(vec![0])).unwrap();
    assert_eq!(
        values,
        vec![(0, estimate(&[0, 10000], 1, 100)), (1, estimate(&[10000, 0], 1, 100))]
    );
    assert_eq!(sorted, vec![0]);
    assert_eq!(disagreeing, Vec::<i32>::new());
}

#[test]
fn echo_core_2_takes_all_registers_by_default() {
    let mut firsts = four_states();
    let seconds = firsts.split_off(2);
    let (values, sorted, _) = overlap_echo_core_2_rust(100, firsts, seconds, None).unwrap();
    assert_eq!(
        values,
        vec![(0, estimate(&[0, 0, 10000], 2, 100)), (1, estimate(&[10000, 0, 0], 2, 100))]
    );
    assert_eq!(sorted, vec![0, 1]);
}

#[test]
fn echo_core_2_refuses_batches_of_different_lengths() {
    let mut firsts = four_states();
    let seconds = firsts.split_off(3);
    let res = overlap_echo_core_2_rust(100, firsts, seconds, None);
    assert_eq!(res.unwrap_err(), EstimatorError::Consistency);
}

#[test]
fn echo_core_2_refuses_other_shots() {
    let firsts = vec![histogram(&[("00", 100)])];
    let seconds = vec![histogram(&[("11", 90)])];
    assert_eq!(
        overlap_echo_core_2_rust(100, firsts, seconds, None).unwrap_err(),
        EstimatorError::Consistency
    );
    let firsts = vec![histogram(&[("00", 100)])];
    let seconds = vec![histogram(&[("11", 100)])];
    assert_eq!(
        overlap_echo_core_2_rust(90, firsts, seconds, None).unwrap_err(),
        EstimatorError::Consistency
    );
}

#[test]
fn echo_core_2_refuses_bitstrings_of_different_lengths() {
    let firsts = vec![histogram(&[("00", 100)])];
    let seconds = vec![histogram(&[("111", 100)])];
    assert_eq!(
        overlap_echo_core_2_rust(100, firsts, seconds, Some(vec![0])).unwrap_err(),
        EstimatorError::Consistency
    );
}

#[test]
fn echo_core_2_refuses_a_later_pair_with_different_shots() {
    let firsts = vec![histogram(&[("00", 100)]), histogram(&[("00", 100)])];
    let seconds = vec![histogram(&[("11", 100)]), histogram(&[("11", 10)])];
    assert_eq!(
        overlap_echo_core_2_rust(100, firsts, seconds, Some(vec![1])).unwrap_err(),
        EstimatorError::Consistency
    );
}

#[test]
fn resolve_pairing_chooses_given_or_all() {
    let firsts = vec![histogram(&[("100", 100)])];
    let seconds = vec![histogram(&[("000", 100)])];
    assert_eq!(resolve_pairing(100, &firsts, &seconds, Some(vec![1])), Ok(vec![1]));
    assert_eq!(resolve_pairing(100, &firsts, &seconds, None), Ok(vec![0, 1, 2]));
    assert_eq!(
        resolve_pairing(100, &firsts, &Vec::new(), None),
        Err(EstimatorError::Consistency)
    );
}

#[test]
fn echo_batch_pairs_with_an_offset() {
    let counts = four_states();
    let selection = Selection::Range { range: (0, 2), subsystem_size: 2 };
    let values = echo_batch(&counts, &counts, 2, 2, &selection).unwrap();
    assert_eq!(
        values,
        vec![(0, estimate(&[0, 0, 10000], 2, 100)), (1, estimate(&[10000, 0, 0], 2, 100))]
    );
    let own = echo_batch(&counts, &counts, 0, 4, &selection).unwrap();
    assert_eq!(own.len(), 4);
    for value in own.iter() {
        assert_eq!(value.1, estimate(&[10000, 0, 0], 2, 100));
    }
}

#[test]
fn batch_is_resolvable_tells_where_a_batch_can_start() {
    let counts = two_states();
    assert!(batch_is_resolvable(100, &counts, None));
    assert!(batch_is_resolvable(1, &counts, Some(QubitDegree::Pair(1, 0))));
    assert!(!batch_is_resolvable(100, &Vec::new(), None));
    let empty_first = vec![Histogram::new()];
    assert!(!batch_is_resolvable(0, &empty_first, None));
    assert!(batch_is_resolvable(5, &empty_first, None));
    assert!(registers_are_resolvable(100, &counts));
    assert!(!registers_are_resolvable(0, &empty_first));
    assert!(!registers_are_resolvable(0, &Vec::new()));
}

#[test]
fn pairing_is_resolvable_tells_where_two_batches_can_start() {
    let firsts = two_states();
    let seconds = two_states();
    assert!(pairing_is_resolvable(100, &firsts, &seconds));
    assert!(pairing_is_resolvable(100, &firsts, &Vec::new()));
    assert!(!pairing_is_resolvable(100, &Vec::new(), &Vec::new()));
    let empty_first = vec![Histogram::new(), histogram(&[("0", 1)])];
    assert!(!pairing_is_resolvable(0, &empty_first, &empty_first));
    assert!(pairing_is_resolvable(100, &empty_first, &seconds));
}

#[test]
fn resolve_halves_refuses_an_odd_batch_after_the_degree() {
    let mut counts = four_states();
    assert_eq!(resolve_halves(100, &counts, None, None), Ok(((0, 2), (0, 2), 2)));
    counts.pop();
    assert_eq!(resolve_halves(100, &counts, None, None), Err(EstimatorError::Consistency));
    assert_eq!(
        resolve_halves(100, &counts, Some(QubitDegree::Single(-1)), None),
        Err(EstimatorError::InvalidArgument)
    );
}
