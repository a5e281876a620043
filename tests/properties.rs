use std::collections::HashMap;

use alphametics::puzzle::Puzzle;
use alphametics::solver_bf;
use alphametics::solver_bt;

fn word_value(word: &str, mapping: &HashMap<char, u8>) -> u64 {
    word.chars()
        .fold(0u64, |acc, c| acc * 10 + mapping[&c] as u64)
}

fn check_solution(input: &str, mapping: &HashMap<char, u8>) {
    let (left, right) = input.split_once("==").unwrap();
    let addends: Vec<&str> = left.split('+').map(|s| s.trim()).collect();
    let result = right.trim();
    let sum: u64 = addends.iter().map(|w| word_value(w, mapping)).sum();
    assert_eq!(sum, word_value(result, mapping));
    for w in addends.iter().chain(std::iter::once(&result)) {
        assert_ne!(mapping[&w.chars().next().unwrap()], 0);
    }
    let mut digits: Vec<u8> = mapping.values().copied().collect();
    digits.sort();
    digits.dedup();
    assert_eq!(digits.len(), mapping.len());
}

#[test]
fn returned_mapping_satisfies_the_sum() {
    for input in ["SEND + MORE == MONEY", "NO + NO + TOO == LATE", "AS + A == MOM"] {
        let mapping = solver_bt::solve(input).unwrap();
        check_solution(input, &mapping);
    }
}

#[test]
fn column_search_agrees_with_exhaustive_search() {
    for input in ["I + BB == ILL", "A == B", "ACA + DD == BD", "AB + BA == CC", "A + B == AB"] {
        assert_eq!(solver_bt::solve(input), solver_bf::solve(input));
    }
}

#[test]
fn solving_twice_gives_the_same_result() {
    let input = "SEND + MORE == MONEY";
    assert_eq!(solver_bt::solve(input), solver_bt::solve(input));
    assert_eq!(solver_bt::solve("A == B"), solver_bt::solve("A == B"));
}

#[test]
fn eleven_letters_have_no_solution() {
    assert_eq!(solver_bt::solve("ABCDEFGHIJK == K"), None);
    assert_eq!(solver_bf::solve("ABCDEFGHIJK == K"), None);
}

#[test]
fn lower_case_letters_are_normalized() {
    let expected = [('I', 1), ('B', 9), ('L', 0)]
        .into_iter()
        .collect::<HashMap<char, u8>>();
    assert_eq!(solver_bt::solve("i + bb == ill"), Some(expected));
}

#[test]
fn blanks_around_words_are_ignored() {
    let expected = [('A', 9), ('S', 2), ('M', 1), ('O', 0)]
        .into_iter()
        .collect::<HashMap<char, u8>>();
    assert_eq!(solver_bt::solve("  AS+A   ==MOM  "), Some(expected));
}

#[test]
fn text_without_equality_is_no_puzzle() {
    assert_eq!(solver_bt::solve("A + B"), None);
    assert!(Puzzle::from_str("A + B").is_none());
    assert!(Puzzle::from_str("A + == B").is_none());
    assert!(Puzzle::from_str("A + B ==").is_none());
}

#[test]
fn puzzle_words_are_stored_least_significant_first() {
    let puzzle = Puzzle::from_str("ab + c == ab").unwrap();
    assert_eq!(puzzle.letters, vec!['B', 'A', 'C']);
    assert_eq!(puzzle.addends, vec![vec![0, 1], vec![2]]);
    assert_eq!(puzzle.result, vec![0, 1]);
}

#[test]
fn carry_out_of_the_last_column_is_rejected() {
    assert_eq!(solver_bt::solve("A + A == B"), solver_bf::solve("A + A == B"));
    let mapping = solver_bt::solve("A + A == B").unwrap();
    assert_eq!(mapping[&'A'] * 2, mapping[&'B']);
}

#[test]
fn solve_puzzle_returns_digits_in_letter_order() {
    let puzzle = Puzzle::from_str("I + BB == ILL").unwrap();
    assert_eq!(puzzle.letters, vec!['B', 'I', 'L']);
    assert_eq!(solver_bt::solve_puzzle(&puzzle), Some(vec![9, 1, 0]));
    assert_eq!(solver_bf::solve_puzzle(&puzzle), Some(vec![9, 1, 0]));
}

#[test]
fn sum_must_not_overflow_into_a_missing_column() {
    let mapping = solver_bt::solve("A + B == C").unwrap();
    assert_eq!(mapping[&'A'] + mapping[&'B'], mapping[&'C']);
    let mapping = solver_bf::solve("A + B == C").unwrap();
    assert_eq!(mapping[&'A'] + mapping[&'B'], mapping[&'C']);
}

#[test]
fn misplaced_operators_are_rejected() {
    assert!(Puzzle::from_str("A == B + C").is_none());
    assert!(Puzzle::from_str("A = = B").is_none());
    assert!(Puzzle::from_str("A == B == C").is_none());
    assert!(Puzzle::from_str("+ A == B").is_none());
    assert_eq!(solver_bt::solve("A == B + C"), None);
}

#[test]
fn repeated_letters_in_a_column_count_each_time() {
    let expected = [('A', 9), ('B', 1), ('C', 0)]
        .into_iter()
        .collect::<HashMap<char, u8>>();
    let input = "A + A + A + A + A + A + A + A + A + A + A + B == BCC";
    assert_eq!(solver_bt::solve(input), Some(expected));
    let puzzle = Puzzle::from_str(input).unwrap();
    assert_eq!(puzzle.addends.len(), 12);
    assert_eq!(puzzle.letters, vec!['A', 'B', 'C']);
}

#[test]
fn addends_are_ordered_by_descending_length() {
    let puzzle = Puzzle::from_str("I + BB == ILL").unwrap();
    assert_eq!(puzzle.addends, vec![vec![0, 0], vec![1]]);
    assert_eq!(puzzle.result, vec![2, 2, 1]);
    let puzzle = Puzzle::from_str("A + BC + D + EF == GHI").unwrap();
    assert_eq!(puzzle.letters, vec!['C', 'B', 'F', 'E', 'A', 'D', 'I', 'H', 'G']);
    assert_eq!(puzzle.addends, vec![vec![0, 1], vec![2, 3], vec![4], vec![5]]);
}

#[test]
fn any_white_space_separates_nothing() {
    let expected = [('I', 1), ('B', 9), ('L', 0)]
        .into_iter()
        .collect::<HashMap<char, u8>>();
    assert_eq!(solver_bt::solve("I\t+\u{a0}BB\u{3000}==\u{0b}ILL\u{0c}"), Some(expected.clone()));
    assert_eq!(solver_bf::solve("I\t+\u{a0}BB\u{3000}==\u{0b}ILL\u{0c}"), Some(expected));
}
