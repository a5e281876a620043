use std::collections::HashMap;

use alphametics::solver_bf::solve;

#[test]
fn solver_bf_puzzle_with_three_letters() {
    let answer = solve("I + BB == ILL");
    let expected = [('I', 1), ('B', 9), ('L', 0)].into_iter().collect::<HashMap<char, u8>>();
    assert_eq!(answer, Some(expected));
}

#[test]
fn solver_bf_solution_must_have_unique_value_for_each_letter() {
    let answer = solve("A == B");
    assert_eq!(answer, None);
}

#[test]
fn solver_bf_leading_zero_solution_is_invalid() {
    let answer = solve("ACA + DD == BD");
    assert_eq!(answer, None);
}

#[test]
fn solver_bf_puzzle_with_two_digits_final_carry() {
    let answer = solve("A + A + A + A + A + A + A + A + A + A + A + B == BCC");
    let expected = [('A', 9), ('B', 1), ('C', 0)].into_iter().collect::<HashMap<char, u8>>();
    assert_eq!(answer, Some(expected));
}

#[test]
fn solver_bf_puzzle_with_four_letters() {
    let answer = solve("AS + A == MOM");
    let expected = [('A', 9), ('S', 2), ('M', 1), ('O', 0)]
        .into_iter()
        .collect::<HashMap<char, u8>>();
    assert_eq!(answer, Some(expected));
}

#[test]
fn solver_bf_puzzle_with_six_letters() {
    let answer = solve("NO + NO + TOO == LATE");
    let expected = [('N', 7), ('O', 4), ('T', 9), ('L', 1), ('A', 0), ('E', 2)]
        .into_iter()
        .collect::<HashMap<char, u8>>();
    assert_eq!(answer, Some(expected));
}

#[test]
fn solver_bf_puzzle_with_seven_letters() {
    let answer = solve("HE + SEES + THE == LIGHT");
    let expected = [
        ('E', 4),
        ('G', 2),
        ('H', 5),
        ('I', 0),
        ('L', 1),
        ('S', 9),
        ('T', 7),
    ]
    .into_iter()
    .collect::<HashMap<char, u8>>();
    assert_eq!(answer, Some(expected));
}

#[test]
fn solver_bf_puzzle_with_eight_letters() {
    let answer = solve("SEND + MORE == MONEY");
    let expected = [
        ('S', 9),
        ('E', 5),
        ('N', 6),
        ('D', 7),
        ('M', 1),
        ('O', 0),
        ('R', 8),
        ('Y', 2),
    ]
    .into_iter()
    .collect::<HashMap<char, u8>>();
    assert_eq!(answer, Some(expected));
}

#[test]
fn solver_bf_puzzle_with_ten_letters() {
    let answer = solve("AND + A + STRONG + OFFENSE + AS + A + GOOD == DEFENSE");
    let expected = [
        ('A', 5),
        ('D', 3),
        ('E', 4),
        ('F', 7),
        ('G', 8),
        ('N', 0),
        ('O', 2),
        ('R', 1),
        ('S', 6),
        ('T', 9),
    ]
    .into_iter()
    .collect::<HashMap<char, u8>>();
    assert_eq!(answer, Some(expected));
}
