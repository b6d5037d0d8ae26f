use advent_puzzles::day9::parse_lines;
use advent_puzzles::day9::{consume, consume2, start_consuming, start_consuming2};

fn histories() -> Vec<Vec<i32>> {
    vec![vec![0, 3, 6, 9, 12, 15], vec![1, 3, 6, 10, 15, 21], vec![10, 13, 16, 21, 30, 45]]
}

#[test]
fn day9_t1() {
    let res = histories().iter().map(|x| start_consuming(x)).sum::<i32>();
    assert_eq!(res, 114);
}

#[test]
fn day9_t3() {
    let res = histories().iter().map(|x| start_consuming2(x)).sum::<i32>();
    assert_eq!(res, 2);
}

#[test]
fn single_histories() {
    assert_eq!(start_consuming(&vec![0, 3, 6, 9, 12, 15]), 18);
    assert_eq!(start_consuming(&vec![1, 3, 6, 10, 15, 21]), 28);
    assert_eq!(start_consuming(&vec![10, 13, 16, 21, 30, 45]), 68);
    assert_eq!(start_consuming2(&vec![10, 13, 16, 21, 30, 45]), 5);
    assert_eq!(consume(&vec![10, 13, 16, 21, 30, 45]), 23);
    assert_eq!(consume2(&vec![10, 13, 16, 21, 30, 45]), 5);
    assert_eq!(consume(&vec![4]), 0);
    assert_eq!(consume(&vec![]), 0);
    assert_eq!(start_consuming(&vec![7, 7]), 7);
    assert_eq!(start_consuming(&vec![5, 3, 1]), -1);
}

#[test]
fn histories_are_read() {
    assert_eq!(parse_lines("0 3 6 9 12 15\n1 3 6 10 15 21\n10 13 16 21 30 45\n"), Some(histories()));
    assert_eq!(parse_lines("-5 +7 0\r\n2147483647 -2147483648"), Some(vec![vec![-5, 7, 0], vec![i32::MAX, i32::MIN]]));
    assert_eq!(parse_lines("1  2"), Some(vec![vec![1]]));
    assert_eq!(parse_lines("1 2147483648"), Some(vec![vec![1]]));
    assert_eq!(parse_lines("x"), None);
    assert_eq!(parse_lines(""), None);
    assert_eq!(parse_lines("-"), None);
}

#[test]
fn histories_that_do_not_fit() {
    use_try();
}

fn use_try() {
    assert_eq!(advent_puzzles::day9::try_start_consuming(&vec![0, 3, 6, 9, 12, 15]), Some(18));
    assert_eq!(advent_puzzles::day9::try_start_consuming2(&vec![10, 13, 16, 21, 30, 45]), Some(5));
    assert_eq!(advent_puzzles::day9::try_start_consuming(&vec![]), None);
    assert_eq!(advent_puzzles::day9::try_start_consuming(&vec![i32::MIN, i32::MAX]), None);
    assert_eq!(advent_puzzles::day9::try_start_consuming(&vec![0, i32::MAX - 1, i32::MAX]), None);
    assert_eq!(advent_puzzles::day9::try_start_consuming(&vec![0, 1_500_000_000]), None);
    assert_eq!(advent_puzzles::day9::try_start_consuming2(&vec![0, 1_500_000_000]), Some(-1_500_000_000));
    assert_eq!(advent_puzzles::day9::extensions(&vec![7]), Some((0, 0)));
}
