use advent_puzzles::day1::{
    compute_calibration_value_part1, compute_calibration_value_part2, fancy_str_to_number_part1,
    fancy_str_to_number_part2,
};

#[test]
fn day1_t1() {
    let input = "1abc2\npqr3stu8vwx\na1b2c3d4e5f\ntreb7uchet\n";
    assert_eq!(compute_calibration_value_part1(input), 142);
}

#[test]
fn day1_t3() {
    let input = "two1nine\neightwothree\nabcone2threexyz\nxtwone3four\n4nineeightseven2\nzoneight234\n7pqrstsixteen\n";
    assert_eq!(compute_calibration_value_part2(input), 281);
}

#[test]
fn leading_digits() {
    assert_eq!(fancy_str_to_number_part1("7x"), Some('7'));
    assert_eq!(fancy_str_to_number_part1("x7"), None);
    assert_eq!(fancy_str_to_number_part1("seven"), None);
    assert_eq!(fancy_str_to_number_part1(""), None);
}

#[test]
fn spelled_digits_in_either_case() {
    assert_eq!(fancy_str_to_number_part2("zero"), Some('0'));
    assert_eq!(fancy_str_to_number_part2("ONE"), Some('1'));
    assert_eq!(fancy_str_to_number_part2("Two"), Some('2'));
    assert_eq!(fancy_str_to_number_part2("threex"), Some('3'));
    assert_eq!(fancy_str_to_number_part2("four"), Some('4'));
    assert_eq!(fancy_str_to_number_part2("fivE"), Some('5'));
    assert_eq!(fancy_str_to_number_part2("six"), Some('6'));
    assert_eq!(fancy_str_to_number_part2("seven"), Some('7'));
    assert_eq!(fancy_str_to_number_part2("eight"), Some('8'));
    assert_eq!(fancy_str_to_number_part2("nine"), Some('9'));
    assert_eq!(fancy_str_to_number_part2("9nine"), Some('9'));
    assert_eq!(fancy_str_to_number_part2("nin"), None);
    assert_eq!(fancy_str_to_number_part2("xone"), None);
}

#[test]
fn lines_without_digits_count_nothing() {
    assert_eq!(compute_calibration_value_part1("abc\n5\n"), 55);
    assert_eq!(compute_calibration_value_part1(""), 0);
    assert_eq!(compute_calibration_value_part2("oneight\nabc"), 18);
}
