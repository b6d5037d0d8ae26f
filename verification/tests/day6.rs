use advent_puzzles::day6::{parse_line1, parse_line2};
use advent_puzzles::day6::{race, single_run};

#[test]
fn day6_t1() {
    assert_eq!(288, race(&vec![7, 15, 30], &vec![9, 40, 200]));
}

#[test]
fn day6_t3() {
    assert_eq!(71503, single_run(71530, 940200));
}

#[test]
fn ways_to_win_single_races() {
    assert_eq!(single_run(7, 9), 4);
    assert_eq!(single_run(15, 40), 8);
    assert_eq!(single_run(30, 200), 9);
    assert_eq!(single_run(0, 0), 0);
    assert_eq!(single_run(2, 0), 1);
    assert_eq!(single_run(2, 1), 0);
    assert_eq!(race(&vec![], &vec![]), 1);
    assert_eq!(race(&vec![7, 2], &vec![9, 1]), 0);
}

#[test]
fn race_sheets_are_read() {
    let text: Vec<char> = "Time:      7  15   30\nDistance:  9  40  200\n".chars().collect();
    let (times, next) = parse_line1(&text, 0).unwrap();
    let (distances, end) = parse_line1(&text, next).unwrap();
    assert_eq!(times, vec![7, 15, 30]);
    assert_eq!(distances, vec![9, 40, 200]);
    assert_eq!(end, text.len());
    assert_eq!(race(&times, &distances), 288);
    let (time, next) = parse_line2(&text, 0).unwrap();
    let (distance, _) = parse_line2(&text, next).unwrap();
    assert_eq!((time, distance), (71530, 940200));
    assert!(parse_line1(&text, end).is_none());
    let text: Vec<char> = "T: \n".chars().collect();
    assert_eq!(parse_line1(&text, 0), Some((vec![], 4)));
    assert_eq!(parse_line2(&text, 0), None);
    let text: Vec<char> = "T: 1 x 2\n".chars().collect();
    assert_eq!(parse_line1(&text, 0), None);
    assert_eq!(parse_line2(&text, 0), None);
    let text: Vec<char> = "T:1\n".chars().collect();
    assert_eq!(parse_line1(&text, 0), None);
}

#[test]
fn products_that_cannot_be_computed() {
    let try_race = advent_puzzles::day6::try_race;
    assert_eq!(try_race(&vec![7, 15, 30], &vec![9, 40, 200]), Some(288));
    assert_eq!(try_race(&vec![], &vec![]), Some(1));
    assert_eq!(try_race(&vec![7], &vec![9, 40]), Some(4));
    assert_eq!(try_race(&vec![7, 15], &vec![9]), None);
    assert_eq!(try_race(&vec![advent_puzzles::day6::MAX_TIME + 1], &vec![0]), None);
    let long = 1 << 20;
    assert_eq!(single_run(long, 0), long - 1);
    assert_eq!(try_race(&vec![long, long, long], &vec![0, 0, 0]), Some((long - 1).pow(3)));
    assert_eq!(try_race(&vec![long, long, long, long], &vec![0, 0, 0, 0]), None);
    assert_eq!(try_race(&vec![long, long, long, long, 2], &vec![0, 0, 0, 0, 1]), None);
}
