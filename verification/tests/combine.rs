use nums::arith::{checked_quotient, outcomes};
use nums::collect::{check_for_solutions, contains_same, push_if_new};
use nums::combine::{
    calculate_result_map, has_solution, mark_solutions, single_cube_map, ValueMap,
};
use nums::game::calculation::Calculation;

const SMALL: u64 = 4294967295;
const LARGE: u64 = u64::MAX;

fn map_of(entries: &[(u64, usize)]) -> ValueMap {
    let mut map = ValueMap::new();
    for (value, die) in entries {
        map.insert(*value, Calculation::Cube(*die, *value));
    }
    map
}

fn holds_quotient(map: &ValueMap) -> bool {
    map.values().any(|c| matches!(c, Calculation::Div(_, _)))
}

#[test]
fn one_step_gives_sum_differences_product_and_exact_quotients() {
    let o = outcomes(SMALL, 12, 4);
    assert_eq!(o.sum, Some(16));
    assert_eq!(o.difference, Some(8));
    assert_eq!(o.reverse_difference, None);
    assert_eq!(o.product, Some(48));
    assert_eq!(o.quotient, Some(3));
    assert_eq!(o.reverse_quotient, None);
}

#[test]
fn equal_operands_give_both_differences_and_both_quotients() {
    let o = outcomes(SMALL, 7, 7);
    assert_eq!(o.difference, Some(0));
    assert_eq!(o.reverse_difference, Some(0));
    assert_eq!(o.quotient, Some(1));
    assert_eq!(o.reverse_quotient, Some(1));
}

#[test]
fn results_above_the_limit_are_left_out() {
    let o = outcomes(SMALL, 4294967295, 1);
    assert_eq!(o.sum, None);
    assert_eq!(o.product, Some(4294967295));
    let o = outcomes(SMALL, 65536, 65536);
    assert_eq!(o.product, None);
    assert_eq!(o.sum, Some(131072));
    let o = outcomes(LARGE, 65536, 65536);
    assert_eq!(o.product, Some(4294967296));
    let o = outcomes(LARGE, u64::MAX, 2);
    assert_eq!(o.sum, None);
    assert_eq!(o.product, None);
    assert_eq!(o.difference, Some(u64::MAX - 2));
}

#[test]
fn no_quotient_by_zero() {
    let o = outcomes(SMALL, 5, 0);
    assert_eq!(o.quotient, None);
    assert_eq!(o.reverse_quotient, Some(0));
    assert_eq!(checked_quotient(0, 0), None);
}

#[test]
fn no_inexact_quotient() {
    assert_eq!(checked_quotient(20, 3), None);
    assert_eq!(checked_quotient(3, 20), None);
    assert_eq!(checked_quotient(21, 3), Some(7));
}

#[test]
fn no_quotient_of_two_multiples_of_ten() {
    assert_eq!(checked_quotient(20, 30), None);
    assert_eq!(checked_quotient(30, 20), None);
    assert_eq!(checked_quotient(60, 20), None);
    assert_eq!(checked_quotient(100, 10), None);
    assert_eq!(checked_quotient(60, 2), Some(30));
    assert_eq!(checked_quotient(60, 3), Some(20));
}

#[test]
fn zero_divided_by_a_multiple_of_ten_is_kept() {
    assert_eq!(checked_quotient(0, 30), Some(0));
    assert_eq!(checked_quotient(0, 7), Some(0));
}

#[test]
fn merging_twenty_and_thirty_stores_no_quotient() {
    let first = map_of(&[(20, 0)]);
    let second = map_of(&[(30, 1)]);
    let mut merged = ValueMap::new();
    calculate_result_map(SMALL, &first, &second, &mut merged);
    assert!(!holds_quotient(&merged));
    let mut keys: Vec<u64> = merged.keys().copied().collect();
    keys.sort();
    assert_eq!(keys, vec![10, 50, 600]);
    let mut swapped = ValueMap::new();
    calculate_result_map(SMALL, &second, &first, &mut swapped);
    assert!(!holds_quotient(&swapped));
}

#[test]
fn merging_twenty_and_three_stores_no_quotient() {
    let first = map_of(&[(20, 0)]);
    let second = map_of(&[(3, 1)]);
    let mut merged = ValueMap::new();
    calculate_result_map(SMALL, &first, &second, &mut merged);
    assert!(!holds_quotient(&merged));
    let mut keys: Vec<u64> = merged.keys().copied().collect();
    keys.sort();
    assert_eq!(keys, vec![17, 23, 60]);
    assert!(!has_solution(SMALL, &first, &second, 6));
}

#[test]
fn merging_twenty_and_four_stores_the_exact_quotient() {
    let first = map_of(&[(20, 0)]);
    let second = map_of(&[(4, 1)]);
    let mut merged = ValueMap::new();
    calculate_result_map(SMALL, &first, &second, &mut merged);
    let five = merged.get(&5).expect("20 / 4");
    let expected =
        Calculation::Div(Box::new(Calculation::Cube(0, 20)), Box::new(Calculation::Cube(1, 4)));
    assert!(*five == expected);
    assert!(matches!(five, Calculation::Div(_, _)));
}

#[test]
fn a_merged_sum_and_product_put_the_larger_operand_first() {
    let first = map_of(&[(2, 0)]);
    let second = map_of(&[(7, 1)]);
    let mut merged = ValueMap::new();
    calculate_result_map(SMALL, &first, &second, &mut merged);
    match merged.get(&9).expect("2 + 7") {
        Calculation::Add(a, b) => {
            assert!(matches!(**a, Calculation::Cube(1, 7)));
            assert!(matches!(**b, Calculation::Cube(0, 2)));
        }
        other => panic!("not a sum: {:?}", other),
    }
    match merged.get(&14).expect("2 * 7") {
        Calculation::Mul(a, b) => {
            assert!(matches!(**a, Calculation::Cube(1, 7)));
            assert!(matches!(**b, Calculation::Cube(0, 2)));
        }
        other => panic!("not a product: {:?}", other),
    }
    match merged.get(&5).expect("7 - 2") {
        Calculation::Sub(a, b) => {
            assert!(matches!(**a, Calculation::Cube(1, 7)));
            assert!(matches!(**b, Calculation::Cube(0, 2)));
        }
        other => panic!("not a difference: {:?}", other),
    }
    assert_eq!(merged.len(), 3);
}

#[test]
fn merging_takes_every_pair_of_entries() {
    let first = map_of(&[(1, 0), (10, 0)]);
    let second = map_of(&[(2, 1), (20, 1)]);
    let mut merged = ValueMap::new();
    calculate_result_map(SMALL, &first, &second, &mut merged);
    let mut keys: Vec<u64> = merged.keys().copied().collect();
    keys.sort();
    // 1,2: 3 1 2 2(2/1); 1,20: 21 19 20 20; 10,2: 12 8 20 5; 10,20: 30 10 200
    assert_eq!(keys, vec![1, 2, 3, 5, 8, 10, 12, 19, 20, 21, 30, 200]);
}

#[test]
fn merging_with_an_empty_map_gives_nothing() {
    let first = map_of(&[(1, 0), (10, 0)]);
    let second = ValueMap::new();
    let mut merged = ValueMap::new();
    calculate_result_map(SMALL, &first, &second, &mut merged);
    assert!(merged.is_empty());
    assert!(!has_solution(SMALL, &first, &second, 1));
}

#[test]
fn the_map_of_a_single_die_has_its_face_under_eight_scalings() {
    let mut map = ValueMap::new();
    single_cube_map(2, 3, &mut map);
    let mut keys: Vec<u64> = map.keys().copied().collect();
    keys.sort();
    assert_eq!(
        keys,
        vec![3, 30, 300, 3_000, 30_000, 300_000, 3_000_000, 30_000_000]
    );
    for (value, calc) in &map {
        match calc {
            Calculation::Cube(die, held) => {
                assert_eq!(*die, 2);
                assert_eq!(held, value);
            }
            other => panic!("not a leaf: {:?}", other),
        }
    }
}

#[test]
fn the_map_of_a_die_showing_zero_has_one_entry() {
    let mut map = ValueMap::new();
    single_cube_map(0, 0, &mut map);
    assert_eq!(map.len(), 1);
    assert!(map.contains_key(&0));
}

#[test]
fn a_solution_is_found_in_either_direction() {
    let first = map_of(&[(3, 0)]);
    let second = map_of(&[(12, 1)]);
    assert!(has_solution(SMALL, &first, &second, 15));
    assert!(has_solution(SMALL, &first, &second, 9));
    assert!(has_solution(SMALL, &first, &second, 36));
    assert!(has_solution(SMALL, &first, &second, 4));
    assert!(!has_solution(SMALL, &first, &second, 5));
    assert!(has_solution(SMALL, &second, &first, 9));
    assert!(has_solution(SMALL, &second, &first, 4));
}

#[test]
fn marking_marks_the_results_that_lie_in_the_table() {
    let first = map_of(&[(3, 0)]);
    let second = map_of(&[(12, 1)]);
    let mut found = vec![false; 10];
    mark_solutions(SMALL, &first, &second, 4, &mut found);
    // the table stands for 4..14: reached are 4 (12/3) and 9 (12-3)
    let expected: Vec<bool> = (4..14u64).map(|t| t == 4 || t == 9).collect();
    assert_eq!(found, expected);
    let mut again = vec![true, false, false, false, false, false, false, false, false, false];
    mark_solutions(SMALL, &first, &second, 5, &mut again);
    // the table stands for 5..15: kept is the mark at 5, new is 9
    let expected: Vec<bool> = (5..15u64).map(|t| t == 5 || t == 9).collect();
    assert_eq!(again, expected);
}

#[test]
fn reported_solutions_keep_the_operand_of_the_first_map_first() {
    let first = map_of(&[(2, 0)]);
    let second = map_of(&[(7, 1)]);
    let mut solutions = Vec::new();
    check_for_solutions(SMALL, &first, &second, &mut solutions, 9);
    assert_eq!(solutions.len(), 1);
    match &solutions[0] {
        Calculation::Add(a, b) => {
            assert!(matches!(**a, Calculation::Cube(0, 2)));
            assert!(matches!(**b, Calculation::Cube(1, 7)));
        }
        other => panic!("not a sum: {:?}", other),
    }
    let mut differences = Vec::new();
    check_for_solutions(SMALL, &first, &second, &mut differences, 5);
    assert_eq!(differences.len(), 1);
    match &differences[0] {
        Calculation::Sub(a, b) => {
            assert!(matches!(**a, Calculation::Cube(1, 7)));
            assert!(matches!(**b, Calculation::Cube(0, 2)));
        }
        other => panic!("not a difference: {:?}", other),
    }
}

#[test]
fn a_solution_is_reported_once() {
    let first = map_of(&[(2, 0)]);
    let second = map_of(&[(2, 1)]);
    let mut solutions = Vec::new();
    check_for_solutions(SMALL, &first, &second, &mut solutions, 4);
    // 2 + 2 and 2 * 2
    assert_eq!(solutions.len(), 2);
    check_for_solutions(SMALL, &second, &first, &mut solutions, 4);
    assert_eq!(solutions.len(), 2);
    let mut zero = Vec::new();
    check_for_solutions(SMALL, &first, &second, &mut zero, 0);
    // 2 - 2 in both directions is one difference
    assert_eq!(zero.len(), 1);
    let mut one = Vec::new();
    check_for_solutions(SMALL, &first, &second, &mut one, 1);
    assert_eq!(one.len(), 1);
}

#[test]
fn pushing_skips_what_the_list_holds() {
    let mut list = Vec::new();
    let sum =
        Calculation::Add(Box::new(Calculation::Cube(0, 1)), Box::new(Calculation::Cube(1, 2)));
    let swapped =
        Calculation::Add(Box::new(Calculation::Cube(1, 2)), Box::new(Calculation::Cube(0, 1)));
    let difference =
        Calculation::Sub(Box::new(Calculation::Cube(1, 2)), Box::new(Calculation::Cube(0, 1)));
    assert!(!contains_same(&list, &sum));
    push_if_new(&mut list, sum.clone());
    assert!(contains_same(&list, &swapped));
    push_if_new(&mut list, swapped);
    assert_eq!(list.len(), 1);
    push_if_new(&mut list, difference);
    assert_eq!(list.len(), 2);
}
