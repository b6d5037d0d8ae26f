use advent_puzzles::day13::{parse, solve, solve2};

const PATTERNS: &str = "#.##..##.\n..#.##.#.\n##......#\n##......#\n..#.##.#.\n..##..##.\n#.#.##.#.\n\n#...##..#\n#....#..#\n..##..###\n#####.##.\n#####.##.\n..##..###\n#....#..#\n";

#[test]
fn day13_t1() {
    let grids = parse(PATTERNS);
    let res = solve(&grids);
    assert_eq!(405, res);
}

#[test]
fn day13_t3() {
    let grids = parse(PATTERNS);
    let res = solve2(&grids);
    assert_eq!(400, res);
}

#[test]
fn patterns_are_read() {
    let grids = parse(PATTERNS);
    assert_eq!(grids.len(), 2);
    assert_eq!(grids[0].size(), (7, 9));
    assert_eq!(grids[1].size(), (7, 9));
    assert_eq!(grids[0].get(0, 0), Some(&'#'));
    assert_eq!(grids[0].get(1, 2), Some(&'#'));
    assert_eq!(grids[1].get(6, 8), Some(&'#'));
    assert_eq!(grids[1].get(2, 0), Some(&'.'));
}

#[test]
fn single_patterns() {
    assert_eq!(solve(&parse("#.#\n.#.\n.#.\n")), 200);
    assert_eq!(solve(&parse(".##\n#..\n.##\n")), 2);
    assert_eq!(solve2(&parse("#.#\n.#.\n.##\n")), 200);
    assert_eq!(solve2(&parse("#.#\n###\n#.#\n")), 100);
}

#[test]
fn texts_that_hold_no_patterns() {
    assert!(advent_puzzles::day13::try_parse("#.\n.#\n").is_none());
    assert!(advent_puzzles::day13::try_parse("#.#\n.#.\n").is_none());
    assert!(advent_puzzles::day13::try_parse("#.#\n\n\n#.#\n").is_none());
    assert!(advent_puzzles::day13::try_parse("#.#\n\n").is_none());
    assert!(advent_puzzles::day13::try_parse("").is_none());
    assert!(advent_puzzles::day13::try_parse("#.#\n#.\n.\n").is_none());
    let grids = advent_puzzles::day13::try_parse("#.#\n\n#\n").unwrap();
    assert_eq!(grids.len(), 2);
    assert_eq!(advent_puzzles::day13::try_solve(&grids), None);
    assert_eq!(advent_puzzles::day13::try_solve(&parse(PATTERNS)), Some(405));
    assert_eq!(advent_puzzles::day13::try_solve2(&parse(PATTERNS)), Some(400));
}
