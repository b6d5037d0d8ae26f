use advent_puzzles::day11::{parse_input, parse_input2, solve, solve2, Universe};

const SKY: &str = "...#......\n.......#..\n#.........\n..........\n......#...\n.#........\n.........#\n..........\n.......#..\n#...#.....";

#[test]
fn day11_t1() {
    let mut universe = parse_input(SKY);
    universe.expand();
    let res = solve(&universe);
    assert_eq!(res, 374);
}

#[test]
fn day11_t3() {
    let universe = parse_input2(SKY, 10);
    let res = solve2(&universe);
    assert_eq!(res, 1030);
    let universe = parse_input2(SKY, 100);
    let res = solve2(&universe);
    assert_eq!(res, 8410);
}

#[test]
fn doubling_matches_a_cost_of_two() {
    let universe = parse_input2(SKY, 2);
    assert_eq!(solve2(&universe), 374);
}

#[test]
fn image_is_read() {
    let u = parse_input("#.\n..\n.#");
    assert_eq!((u.r, u.c), (3, 2));
    assert_eq!(u.data, b"#....#".to_vec());
    let u = parse_input2("#.\n..\n.#", 5);
    assert_eq!(u.row_costs, vec![1, 5, 1]);
    assert_eq!(u.col_costs, vec![1, 1]);
    let u = parse_input2("#..\n#..", 7);
    assert_eq!(u.row_costs, vec![1, 1]);
    assert_eq!(u.col_costs, vec![1, 7, 7]);
}

#[test]
fn rows_and_columns_are_expanded() {
    let mut u = parse_input("#.\n..\n.#");
    u.expand_rows();
    assert_eq!((u.r, u.c), (4, 2));
    assert_eq!(u.data, b"#......#".to_vec());
    let mut u = Universe { data: b"#.#...".to_vec(), r: 2, c: 3 };
    u.rotate();
    assert_eq!((u.r, u.c), (3, 2));
    assert_eq!(u.data, b"#...#.".to_vec());
    let mut u = Universe { data: b"#.#...".to_vec(), r: 2, c: 3 };
    u.expand();
    assert_eq!((u.r, u.c), (3, 4));
    assert_eq!(u.data, b"#..#........".to_vec());
    assert_eq!(solve(&u), 3);
}

#[test]
fn images_with_missing_cells() {
    assert!(parse_input("#.\n..").is_whole());
    assert!(!parse_input("#.\n.").is_whole());
    assert!(!parse_input("#.\n..\n").is_whole());
    assert!(Universe { data: vec![], r: usize::MAX, c: 0 }.is_whole());
    assert!(!Universe { data: vec![1], r: usize::MAX, c: 2 }.is_whole());
}

#[test]
fn sums_of_distances_that_cannot_be_computed() {
    let try_solve = advent_puzzles::day11::try_solve;
    let try_solve2 = advent_puzzles::day11::try_solve2;
    let mut universe = parse_input(SKY);
    universe.expand();
    assert_eq!(try_solve(&universe), Some(374));
    universe.c = 0;
    assert_eq!(try_solve(&universe), None);
    assert_eq!(try_solve2(&parse_input2(SKY, 100)), Some(8410));
    assert_eq!(try_solve2(&parse_input2("#.#", usize::MAX - 1)), Some(usize::MAX));
    assert_eq!(try_solve2(&parse_input2("#.#", usize::MAX)), None);
    assert_eq!(try_solve2(&parse_input2("#..#", usize::MAX - 1)), None);
    assert_eq!(try_solve2(&parse_input2("#..#\n#..#", usize::MAX / 4)), None);
    let mut short = parse_input2(SKY, 2);
    assert!(short.is_whole());
    short.row_costs.pop();
    assert!(!short.is_whole());
    assert_eq!(try_solve2(&short), None);
}
