use advent::day9::{
    extrapolate, extrapolate_back, parse_measures, solve_part1, solve_part2, try_solve_part1,
    try_solve_part2,
};

const INPUT_TEST: &str = "0 3 6 9 12 15\n1 3 6 10 15 21\n10 13 16 21 30 45\n";

#[test]
fn part1_works() {
    let input = INPUT_TEST;
    let result = solve_part1(input);
    assert_eq!(result, 114);
}

#[test]
fn part2_works() {
    let input = INPUT_TEST;
    let result = solve_part2(input);
    assert_eq!(result, 2);
}

#[test]
fn next_values_of_the_sequences() {
    assert_eq!(extrapolate(&vec![0, 3, 6, 9, 12, 15]), Some(18));
    assert_eq!(extrapolate(&vec![1, 3, 6, 10, 15, 21]), Some(28));
    assert_eq!(extrapolate(&vec![10, 13, 16, 21, 30, 45]), Some(68));
    assert_eq!(extrapolate(&vec![5, 5, 5]), Some(5));
    assert_eq!(extrapolate(&vec![7]), Some(7));
    assert_eq!(extrapolate(&vec![0, 0]), Some(0));
    assert_eq!(extrapolate(&vec![]), Some(0));
    assert_eq!(extrapolate(&vec![3, 1, -1]), Some(-3));
}

#[test]
fn values_before_the_sequences() {
    assert_eq!(extrapolate_back(&vec![0, 3, 6, 9, 12, 15]), Some(-3));
    assert_eq!(extrapolate_back(&vec![1, 3, 6, 10, 15, 21]), Some(0));
    assert_eq!(extrapolate_back(&vec![10, 13, 16, 21, 30, 45]), Some(5));
    assert_eq!(extrapolate_back(&vec![5, 5, 5]), Some(5));
    assert_eq!(extrapolate_back(&vec![]), Some(0));
}

#[test]
fn values_that_do_not_fit_are_refused() {
    assert_eq!(extrapolate(&vec![i64::MIN, i64::MAX]), None);
    assert_eq!(extrapolate(&vec![0, i64::MAX]), None);
    assert_eq!(extrapolate_back(&vec![i64::MIN, 0]), None);
    assert_eq!(extrapolate(&vec![i64::MAX - 1, i64::MAX - 1]), Some(i64::MAX - 1));
}

#[test]
fn words_that_are_no_numbers_are_passed_over() {
    let line = "  1 x +3  -4 5.0 --6 7 ".chars().collect::<Vec<_>>();
    assert_eq!(parse_measures(&line), vec![1, 3, -4, 7]);
    let line = "9223372036854775807 9223372036854775808 -9223372036854775808"
        .chars()
        .collect::<Vec<_>>();
    assert_eq!(parse_measures(&line), vec![i64::MAX, i64::MIN]);
}

#[test]
fn steady_lines_have_no_answer() {
    assert_eq!(try_solve_part1(INPUT_TEST), Some(114));
    assert_eq!(try_solve_part2(INPUT_TEST), Some(2));
    assert_eq!(try_solve_part1("1 2 3\n5 5 5"), None);
    assert_eq!(try_solve_part1("1 2 3\n\n3 2 1"), None);
    assert_eq!(try_solve_part1("7"), None);
    assert_eq!(try_solve_part2("1 2 3\n5 5 5"), None);
    assert_eq!(try_solve_part1(""), Some(0));
    assert_eq!(try_solve_part1("1 2\n9223372036854775806 9223372036854775807"), None);
}
