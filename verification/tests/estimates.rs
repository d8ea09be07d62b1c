use boorust::echo::{echo_cell, echo_cell_2_rust, echo_cell_rust, echo_is_defined};
use boorust::entropy::{purity_cell, purity_cell_2_rust, purity_cell_rust, purity_is_defined};
use boorust::error::EstimatorError;
use boorust::hadamard::{purity_echo_core_rust, Ratio};
use boorust::histogram::Histogram;
use boorust::randomized::{ensemble_cell_rust, pair_spectrum, EnsembleTerm, Estimate};
use boorust::selection::Selection;

fn histogram(items: &[(&str, i32)]) -> Histogram {
    Histogram::from_pairs(items.iter().map(|(k, c)| (k.to_string(), *c)).collect()).unwrap()
}

fn term_value(term: &EnsembleTerm) -> f64 {
    f64::powi(2.0, term.subsystem_size)
        * f64::powi(2.0, -term.distance)
        * (term.weight as f64)
        / ((term.shots as f64) * (term.shots as f64))
}

fn estimate_value(estimate: &Estimate) -> f64 {
    let shots = estimate.shots as f64;
    let mut sum = 0.0;
    for (d, weight) in estimate.spectrum.iter().enumerate() {
        sum += f64::powi(2.0, estimate.subsystem_size)
            * f64::powi(2.0, -(d as i32))
            * (*weight as f64)
            / (shots * shots);
    }
    sum
}

fn close(a: f64, b: f64) -> bool {
    (a - b).abs() <= 1e-12 * (1.0 + a.abs() + b.abs())
}

#[test]
fn ensemble_cell_at_distance_zero() {
    let term = ensemble_cell_rust("00", 10, "00", 10, 2, 100);
    assert_eq!(term, EnsembleTerm { weight: 100, distance: 0, subsystem_size: 2, shots: 100 });
    assert!(close(term_value(&term), 0.04));
}

#[test]
fn ensemble_cell_at_distance_two() {
    let term = ensemble_cell_rust("00", 10, "11", 10, 2, 100);
    assert_eq!(term, EnsembleTerm { weight: 100, distance: 2, subsystem_size: 2, shots: 100 });
    assert!(close(term_value(&term), 0.01));
}

#[test]
fn ensemble_cell_of_long_bitstrings() {
    let term = ensemble_cell_rust("1010101010101010", 100, "0101010101010101", 100, 12, 1000);
    assert_eq!(
        term,
        EnsembleTerm { weight: 10000, distance: 16, subsystem_size: 12, shots: 1000 }
    );
    assert!(close(term_value(&term), 0.000625));
}

#[test]
fn ensemble_cell_holds_the_largest_product() {
    let term = ensemble_cell_rust("0", i32::MAX, "1", i32::MIN, -3, 7);
    assert_eq!(term.weight, (i32::MAX as i64) * (i32::MIN as i64));
    assert_eq!(term.distance, 1);
    assert_eq!(term.subsystem_size, -3);
    assert_eq!(term.shots, 7);
}

#[test]
fn purity_of_a_single_outcome_is_two_to_the_size() {
    let res = purity_cell_rust(0, histogram(&[("00", 100)]), (0, 2), 2).unwrap();
    assert_eq!(res.0, 0);
    assert_eq!(res.1, Estimate { spectrum: vec![10000, 0, 0], subsystem_size: 2, shots: 100 });
    assert!(close(estimate_value(&res.1), 4.0));
}

#[test]
fn purity_weighs_every_ordered_pair() {
    let res = purity_cell_rust(7, histogram(&[("00", 50), ("11", 50)]), (0, 2), 2).unwrap();
    assert_eq!(res.0, 7);
    assert_eq!(res.1.spectrum, vec![5000, 0, 5000]);
    assert!(close(estimate_value(&res.1), 2.5));
}

#[test]
fn purity_of_a_reduced_histogram() {
    let h = histogram(&[("000", 10), ("001", 20), ("100", 30), ("111", 40)]);
    let res = purity_cell_rust(3, h, (0, 2), 2).unwrap();
    assert_eq!(res.0, 3);
    assert_eq!(res.1, Estimate { spectrum: vec![3400, 4200, 2400], subsystem_size: 2, shots: 100 });
    assert_eq!(res.1.spectrum.iter().sum::<u64>(), 100 * 100);
    assert!(close(estimate_value(&res.1), 4.0 * (3400.0 + 2100.0 + 600.0) / 10000.0));
}

#[test]
fn purity_through_the_slicer() {
    let h = histogram(&[("000", 10), ("001", 20), ("100", 30), ("111", 40)]);
    let res = purity_cell_rust(1, h, (1, 3), 2).unwrap();
    assert_eq!(res.1, Estimate { spectrum: vec![3600, 3200, 3200], subsystem_size: 2, shots: 100 });
}

#[test]
fn purity_out_of_range_is_refused() {
    let h = histogram(&[("000", 10), ("001", 20)]);
    assert_eq!(purity_cell_rust(1, h, (2, 4), 2).unwrap_err(), EstimatorError::OutOfRange);
}

#[test]
fn purity_of_an_empty_histogram_has_no_weight() {
    let res = purity_cell_rust(5, Histogram::new(), (0, 2), 2).unwrap();
    assert_eq!(res, (5, Estimate { spectrum: vec![0], subsystem_size: 2, shots: 0 }));
}

#[test]
fn purity_hands_the_index_back() {
    for idx in [i32::MIN, -1, 0, 1, 12345, i32::MAX] {
        let res = purity_cell_rust(idx, histogram(&[("01", 3)]), (0, 2), 2).unwrap();
        assert_eq!(res.0, idx);
    }
}

#[test]
fn purity_by_registers() {
    let h = histogram(&[("1001", 60), ("0001", 40)]);
    let res = purity_cell_2_rust(2, h, vec![3, 0]);
    assert_eq!(res.0, 2);
    assert_eq!(res.1, Estimate { spectrum: vec![5200, 4800, 0], subsystem_size: 2, shots: 100 });
    assert_eq!(res.2, vec![0, 3]);
    assert!(close(estimate_value(&res.1), 4.0 * (5200.0 + 2400.0) / 10000.0));
}

#[test]
fn purity_by_registers_in_any_order_weighs_the_same() {
    let first = purity_cell_2_rust(0, histogram(&[("1001", 60), ("0011", 40)]), vec![0, 1]);
    let second = purity_cell_2_rust(0, histogram(&[("1001", 60), ("0011", 40)]), vec![1, 0]);
    assert_eq!(first.1, second.1);
    assert_eq!(first.2, vec![0, 1]);
    assert_eq!(second.2, vec![0, 1]);
}

#[test]
fn purity_cell_takes_either_selection() {
    let h = histogram(&[("10", 1), ("01", 1)]);
    let by_range = purity_cell(0, &h, &Selection::Range { range: (0, 2), subsystem_size: 2 });
    let by_registers = purity_cell(0, &h, &Selection::Registers(vec![1, 0]));
    assert_eq!(by_range.unwrap().1.spectrum, vec![2, 0, 2]);
    assert_eq!(by_registers.unwrap().1.spectrum, vec![2, 0, 2]);
}

#[test]
fn pair_spectrum_of_two_histograms() {
    let first = histogram(&[("00", 3), ("01", 5)]);
    let second = histogram(&[("01", 7), ("11", 11)]);
    assert_eq!(pair_spectrum(&first, &second), vec![35, 21 + 55, 33]);
    assert_eq!(pair_spectrum(&second, &first), vec![35, 21 + 55, 33]);
    assert_eq!(pair_spectrum(&first, &Histogram::new()), vec![0]);
}

#[test]
fn pair_spectrum_holds_the_largest_weight() {
    let h = histogram(&[("0", i32::MAX)]);
    let max = i32::MAX as u64;
    assert_eq!(pair_spectrum(&h, &h), vec![max * max, 0]);
}

#[test]
fn echo_of_opposite_outcomes() {
    let res = echo_cell_rust(4, histogram(&[("00", 100)]), histogram(&[("11", 100)]), (0, 2), 2)
        .unwrap();
    assert_eq!(res.0, 4);
    assert_eq!(res.1, Estimate { spectrum: vec![0, 0, 10000], subsystem_size: 2, shots: 100 });
    assert!(close(estimate_value(&res.1), 1.0));
}

#[test]
fn echo_of_equal_histograms_is_the_purity() {
    let items = [("000", 10), ("001", 20), ("100", 30), ("111", 40)];
    let echo = echo_cell_rust(0, histogram(&items), histogram(&items), (0, 2), 2).unwrap();
    let purity = purity_cell_rust(0, histogram(&items), (0, 2), 2).unwrap();
    assert_eq!(echo, purity);
}

#[test]
fn echo_refuses_different_shots() {
    let res = echo_cell_rust(0, histogram(&[("00", 100)]), histogram(&[("11", 99)]), (0, 2), 2);
    assert_eq!(res.unwrap_err(), EstimatorError::Consistency);
}

#[test]
fn echo_out_of_range_is_refused() {
    let res = echo_cell_rust(0, histogram(&[("00", 100)]), histogram(&[("11", 100)]), (1, 3), 2);
    assert_eq!(res.unwrap_err(), EstimatorError::OutOfRange);
}

#[test]
fn echo_by_registers() {
    let first = histogram(&[("1001", 60), ("0001", 40)]);
    let second = histogram(&[("1000", 100)]);
    let res = echo_cell_2_rust(9, first, second, vec![3, 0]).unwrap();
    assert_eq!(res.0, 9);
    assert_eq!(res.1, Estimate { spectrum: vec![0, 6000, 4000], subsystem_size: 2, shots: 100 });
    assert_eq!(res.2, vec![0, 3]);
}

#[test]
fn echo_by_registers_refuses_different_lengths() {
    let first = histogram(&[("1001", 100)]);
    let second = histogram(&[("100", 100)]);
    let res = echo_cell_2_rust(0, first, second, vec![0]);
    assert_eq!(res.unwrap_err(), EstimatorError::Consistency);
}

#[test]
fn echo_by_registers_refuses_different_shots() {
    let first = histogram(&[("1001", 100)]);
    let second = histogram(&[("1000", 10)]);
    let res = echo_cell_2_rust(0, first, second, vec![0]);
    assert_eq!(res.unwrap_err(), EstimatorError::Consistency);
}

#[test]
fn echo_cell_takes_either_selection() {
    let first = histogram(&[("10", 2)]);
    let second = histogram(&[("01", 2)]);
    let res = echo_cell(1, &first, &second, &Selection::Registers(vec![0])).unwrap();
    assert_eq!(res.1, Estimate { spectrum: vec![0, 4], subsystem_size: 1, shots: 2 });
}

#[test]
fn hadamard_test_reads_both_outcomes() {
    let res = purity_echo_core_rust(100, vec![histogram(&[("0", 70), ("1", 30)])]);
    assert_eq!(res, Ok(Ratio { numerator: 40, denominator: 100 }));
}

#[test]
fn hadamard_test_reads_one_outcome() {
    assert_eq!(
        purity_echo_core_rust(100, vec![histogram(&[("0", 100)])]),
        Ok(Ratio { numerator: 100, denominator: 100 })
    );
    assert_eq!(
        purity_echo_core_rust(100, vec![histogram(&[("1", 100)])]),
        Ok(Ratio { numerator: 100, denominator: 100 })
    );
}

#[test]
fn hadamard_test_refuses_other_shots() {
    assert_eq!(
        purity_echo_core_rust(99, vec![histogram(&[("0", 70), ("1", 30)])]),
        Err(EstimatorError::Consistency)
    );
}

#[test]
fn hadamard_test_refuses_other_outcomes() {
    assert_eq!(
        purity_echo_core_rust(100, vec![histogram(&[("00", 70), ("11", 30)])]),
        Err(EstimatorError::InvalidArgument)
    );
    assert_eq!(
        purity_echo_core_rust(0, vec![Histogram::new()]),
        Err(EstimatorError::InvalidArgument)
    );
}

#[test]
fn purity_is_defined_tells_where_the_cell_answers() {
    let h = histogram(&[("001", 5)]);
    assert!(purity_is_defined(&h, &Selection::Range { range: (0, 2), subsystem_size: 2 }));
    assert!(!purity_is_defined(&h, &Selection::Range { range: (0, 4), subsystem_size: 4 }));
    assert!(purity_is_defined(&h, &Selection::Range { range: (0, 4), subsystem_size: 3 }));
    assert!(purity_is_defined(&Histogram::new(), &Selection::Range { range: (3, 1), subsystem_size: 9 }));
    assert!(purity_is_defined(&h, &Selection::Registers(vec![2, 0])));
    assert!(!purity_is_defined(&h, &Selection::Registers(vec![3])));
    assert!(!purity_is_defined(&Histogram::new(), &Selection::Registers(vec![])));
}

#[test]
fn echo_is_defined_tells_where_the_cell_answers() {
    let first = histogram(&[("001", 5)]);
    let long = histogram(&[("00111", 5)]);
    let other_shots = histogram(&[("0", 6)]);
    let cut = Selection::Range { range: (0, 4), subsystem_size: 4 };
    assert!(!echo_is_defined(&first, &long, &cut));
    assert!(!echo_is_defined(&long, &first, &cut));
    assert!(echo_is_defined(&long, &long, &cut));
    assert!(echo_is_defined(&first, &other_shots, &cut));
    let sliced = Selection::Range { range: (3, 5), subsystem_size: 2 };
    assert!(echo_is_defined(&first, &long, &sliced));
    assert!(echo_is_defined(&long, &first, &sliced));
    let registers = Selection::Registers(vec![4]);
    assert!(echo_is_defined(&first, &long, &registers));
    assert!(echo_is_defined(&long, &long, &registers));
    assert!(!echo_is_defined(&first, &first, &registers));
    assert!(!echo_is_defined(&Histogram::new(), &Histogram::new(), &registers));
}

fn pairwise_sum(first: &[(String, i32)], second: &[(String, i32)], size: i32, shots: i32) -> f64 {
    let mut sum = 0.0;
    for (s_i, m_i) in first {
        for (s_j, m_j) in second {
            sum += term_value(&ensemble_cell_rust(s_i, *m_i, s_j, *m_j, size, shots));
        }
    }
    sum
}

fn made_up_counts(seed: &mut u64, len: usize, outcomes: usize, shots: i32) -> Vec<(String, i32)> {
    let mut next = || {
        *seed = seed.wrapping_mul(6364136223846793005).wrapping_add(1442695040888963407);
        (*seed >> 33) as usize
    };
    let mut pairs: Vec<(String, i32)> = Vec::new();
    let mut left = shots;
    while pairs.len() < outcomes {
        let word = next() % (1 << len);
        let bits: String =
            (0..len).map(|p| if (word >> p) & 1 == 1 { '1' } else { '0' }).collect();
        if pairs.iter().any(|(key, _)| *key == bits) {
            continue;
        }
        let count = if pairs.len() + 1 == outcomes { left } else { (next() as i32) % (left + 1) };
        left -= count;
        pairs.push((bits, count));
    }
    pairs
}

#[test]
fn purity_agrees_with_the_sum_over_all_pairs() {
    let mut seed = 7;
    for len in 1..7 {
        let pairs = made_up_counts(&mut seed, len, 1 + len, 1000);
        let h = Histogram::from_pairs(pairs.clone()).unwrap();
        let size = len as i32;
        let (_, estimate) = purity_cell_rust(0, h, (0, size), size).unwrap();
        assert_eq!(estimate.shots, 1000);
        assert_eq!(estimate.spectrum.iter().sum::<u64>(), 1_000_000);
        assert!(close(estimate_value(&estimate), pairwise_sum(&pairs, &pairs, size, 1000)));
    }
}

#[test]
fn echo_agrees_with_the_sum_over_all_pairs() {
    let mut seed = 11;
    for len in 1..7 {
        let first = made_up_counts(&mut seed, len, 1 + len, 500);
        let second = made_up_counts(&mut seed, len, 2, 500);
        let size = len as i32;
        let (_, estimate) = echo_cell_rust(
            0,
            Histogram::from_pairs(first.clone()).unwrap(),
            Histogram::from_pairs(second.clone()).unwrap(),
            (0, size),
            size,
        )
        .unwrap();
        assert_eq!(estimate.spectrum.iter().sum::<u64>(), 250_000);
        assert!(close(estimate_value(&estimate), pairwise_sum(&first, &second, size, 500)));
    }
}

#[test]
fn purity_of_a_part_agrees_with_the_sum_over_the_reduced_pairs() {
    let mut seed = 13;
    let pairs = made_up_counts(&mut seed, 6, 20, 4096);
    let h = Histogram::from_pairs(pairs.clone()).unwrap();
    let selection = Selection::Range { range: (-2, 1), subsystem_size: 3 };
    assert!(purity_is_defined(&h, &selection));
    let part = h.reduce(&selection).unwrap().to_pairs();
    assert_eq!(part.iter().map(|(_, count)| *count).sum::<i32>(), 4096);
    let (_, estimate) = purity_cell(0, &h, &selection).unwrap();
    assert_eq!(estimate.spectrum.len(), 4);
    assert!(close(estimate_value(&estimate), pairwise_sum(&part, &part, 3, 4096)));
}
