use boorust::bits::chars_of;
use boorust::error::EstimatorError;
use boorust::histogram::Histogram;
use boorust::registers::{all_registers, registers_agree, sorted_registers};
use boorust::selection::Selection;

fn pairs(items: &[(&str, i32)]) -> Vec<(String, i32)> {
    items.iter().map(|(k, c)| (k.to_string(), *c)).collect()
}

fn histogram(items: &[(&str, i32)]) -> Histogram {
    Histogram::from_pairs(pairs(items)).unwrap()
}

#[test]
fn histogram_keeps_outcomes_in_order() {
    let h = histogram(&[("00", 10), ("11", 30), ("01", 0)]);
    assert_eq!(h.len(), 3);
    assert_eq!(h.key_len(), 2);
    assert_eq!(h.shots(), 40);
    assert_eq!(h.bits(1), &vec!['1', '1']);
    assert_eq!(h.count(1), 30);
    assert_eq!(h.count(2), 0);
    assert_eq!(h.to_pairs(), pairs(&[("00", 10), ("11", 30), ("01", 0)]));
}

#[test]
fn histogram_empty() {
    let h = Histogram::new();
    assert_eq!(h.len(), 0);
    assert_eq!(h.key_len(), 0);
    assert_eq!(h.shots(), 0);
    assert_eq!(h.to_pairs(), Vec::new());
    let g = Histogram::from_pairs(Vec::new()).unwrap();
    assert_eq!(g.len(), 0);
}

#[test]
fn histogram_position_finds_a_bitstring() {
    let h = histogram(&[("00", 10), ("11", 30), ("01", 0)]);
    assert_eq!(h.position(&chars_of("00")), 0);
    assert_eq!(h.position(&chars_of("01")), 2);
    assert_eq!(h.position(&chars_of("10")), 3);
    assert_eq!(h.position(&chars_of("0")), 3);
}

#[test]
fn histogram_refuses_a_repeated_bitstring() {
    assert!(Histogram::from_pairs(pairs(&[("00", 1), ("01", 2), ("00", 3)])).is_none());
}

#[test]
fn histogram_refuses_bitstrings_of_different_lengths() {
    assert!(Histogram::from_pairs(pairs(&[("00", 1), ("011", 2)])).is_none());
    assert!(Histogram::from_pairs(pairs(&[("", 1), ("0", 2)])).is_none());
}

#[test]
fn histogram_refuses_a_negative_count() {
    assert!(Histogram::from_pairs(pairs(&[("00", 1), ("01", -2)])).is_none());
}

#[test]
fn histogram_refuses_more_shots_than_fit() {
    assert!(Histogram::from_pairs(pairs(&[("00", i32::MAX), ("01", 1)])).is_none());
    let h = histogram(&[("00", i32::MAX - 1), ("01", 1)]);
    assert_eq!(h.shots(), i32::MAX);
}

#[test]
fn reduce_adds_up_the_counts_of_equal_parts() {
    let h = histogram(&[("000", 10), ("001", 20), ("100", 30), ("111", 40)]);
    let selection = Selection::Range { range: (0, 2), subsystem_size: 2 };
    assert!(selection.is_applicable(h.key_len()));
    let part = h.reduce(&selection).unwrap();
    assert_eq!(part.to_pairs(), pairs(&[("00", 30), ("10", 30), ("11", 40)]));
    assert_eq!(part.shots(), 100);
}

#[test]
fn reduce_through_the_slicer_cuts_the_same_piece() {
    let h = histogram(&[("000", 10), ("001", 20), ("100", 30), ("111", 40)]);
    let selection = Selection::Range { range: (1, 3), subsystem_size: 2 };
    assert!(selection.is_applicable(h.key_len()));
    let part = h.reduce(&selection).unwrap();
    assert_eq!(part.to_pairs(), pairs(&[("00", 40), ("01", 20), ("11", 40)]));
}

#[test]
fn reduce_wraps_round_the_end() {
    let h = histogram(&[("001", 5), ("110", 7)]);
    let selection = Selection::Range { range: (-1, 2), subsystem_size: 3 };
    assert!(selection.is_applicable(h.key_len()));
    let part = h.reduce(&selection).unwrap();
    assert_eq!(part.to_pairs(), pairs(&[("100", 5), ("011", 7)]));
}

#[test]
fn reduce_out_of_range_is_refused() {
    let h = histogram(&[("001", 5), ("110", 7)]);
    let selection = Selection::Range { range: (1, 4), subsystem_size: 3 };
    assert!(selection.is_applicable(h.key_len()));
    assert_eq!(h.reduce(&selection).unwrap_err(), EstimatorError::OutOfRange);
    let below = Selection::Range { range: (-4, -1), subsystem_size: 3 };
    assert!(below.is_applicable(h.key_len()));
    assert_eq!(h.reduce(&below).unwrap_err(), EstimatorError::OutOfRange);
}

#[test]
fn reduce_of_an_empty_histogram_is_empty() {
    let h = Histogram::new();
    let selection = Selection::Range { range: (1, 4), subsystem_size: 3 };
    assert_eq!(h.reduce(&selection).unwrap().len(), 0);
}

#[test]
fn reduce_of_subsystem_sized_histogram_is_unchanged() {
    let items = [("00", 10), ("11", 30), ("01", 0), ("10", 60)];
    let h = histogram(&items);
    let selection = Selection::Range { range: (0, 2), subsystem_size: 2 };
    assert!(selection.is_applicable(h.key_len()));
    let once = h.reduce(&selection).unwrap();
    assert_eq!(once.to_pairs(), pairs(&items));
    let twice = once.reduce(&selection).unwrap();
    assert_eq!(twice.to_pairs(), pairs(&items));
}

#[test]
fn reduce_by_registers_reads_from_the_end() {
    let h = histogram(&[("1001", 5)]);
    let selection = Selection::Registers(vec![0, 2]);
    assert!(selection.is_applicable(h.key_len()));
    let part = h.reduce(&selection).unwrap();
    assert_eq!(part.to_pairs(), pairs(&[("10", 5)]));
}

#[test]
fn pick_by_registers_keeps_the_given_order() {
    let key = chars_of("1001");
    assert_eq!(Selection::Registers(vec![0, 2]).pick(&key), Ok(chars_of("10")));
    assert_eq!(Selection::Registers(vec![2, 0]).pick(&key), Ok(chars_of("01")));
    assert_eq!(Selection::Registers(vec![3, 3, 1]).pick(&key), Ok(chars_of("110")));
    assert_eq!(Selection::Registers(vec![]).pick(&key), Ok(chars_of("")));
    let word = chars_of("abcd");
    assert_eq!(Selection::Registers(vec![0, 1, 2, 3]).pick(&word), Ok(chars_of("dcba")));
}

#[test]
fn pick_by_range() {
    let key = chars_of("10011");
    let direct = Selection::Range { range: (1, 3), subsystem_size: 5 };
    assert_eq!(direct.pick(&key), Ok(chars_of("00")));
    let sliced = Selection::Range { range: (-2, 1), subsystem_size: 3 };
    assert_eq!(sliced.pick(&key), Ok(chars_of("111")));
    let refused = Selection::Range { range: (-6, 1), subsystem_size: 3 };
    assert_eq!(refused.pick(&key), Err(EstimatorError::OutOfRange));
}

#[test]
fn selection_is_applicable_tells_where_it_answers() {
    let direct = Selection::Range { range: (1, 3), subsystem_size: 5 };
    assert!(direct.is_applicable(3));
    assert!(!direct.is_applicable(2));
    let reversed = Selection::Range { range: (3, 1), subsystem_size: 5 };
    assert!(!reversed.is_applicable(5));
    let sliced = Selection::Range { range: (3, 1), subsystem_size: 0 };
    assert!(!sliced.is_applicable(5));
    assert!(sliced.is_applicable(0));
    let registers = Selection::Registers(vec![0, 3]);
    assert!(registers.is_applicable(4));
    assert!(!registers.is_applicable(3));
    assert!(!Selection::Registers(vec![-1]).is_applicable(4));
}

#[test]
fn selection_sizes() {
    assert_eq!(Selection::Range { range: (1, 3), subsystem_size: 5 }.subsystem_size(), 5);
    assert_eq!(Selection::Registers(vec![4, 1, 1]).subsystem_size(), 3);
}

#[test]
fn registers_are_sorted_ascending() {
    assert_eq!(sorted_registers(&vec![3, 1, 2]), vec![1, 2, 3]);
    assert_eq!(sorted_registers(&vec![2, 0]), vec![0, 2]);
    assert_eq!(sorted_registers(&vec![5, -1, 5, 0, -7]), vec![-7, -1, 0, 5, 5]);
    assert_eq!(sorted_registers(&vec![]), Vec::<i32>::new());
    assert_eq!(sorted_registers(&vec![1, 2, 3]), vec![1, 2, 3]);
}

#[test]
fn all_registers_counts_from_zero() {
    assert_eq!(all_registers(4), vec![0, 1, 2, 3]);
    assert_eq!(all_registers(0), Vec::<i32>::new());
    assert_eq!(all_registers(-3), Vec::<i32>::new());
}

#[test]
fn registers_agree_as_far_as_both_reach() {
    assert!(registers_agree(&vec![0, 1, 2], &vec![0, 1, 2]));
    assert!(!registers_agree(&vec![0, 1, 2], &vec![0, 2, 1]));
    assert!(registers_agree(&vec![0, 1, 2], &vec![0, 1]));
    assert!(registers_agree(&vec![], &vec![7]));
}
