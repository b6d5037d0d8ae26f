use advent_puzzles::day17::{parse, parse2, solve, solve2, try_solve, try_solve2};
use advent_puzzles::day17::{Cost, Direction, Position, Position2};

const CITY: &str = "2413432311323\n3215453535623\n3255245654254\n3446585845452\n4546657867536\n1438598798454\n4457876987766\n3637877979653\n4654967986887\n4564679986453\n1224686865563\n2546548887735\n4322674655533\n";

#[test]
fn day17_t1() {
    let data = parse(CITY);
    assert_eq!(102, solve(&data));
}

#[test]
fn day17_t3() {
    let data = parse2(CITY);
    assert_eq!(94, solve2(&data));
}

#[test]
fn ultra_crucible_on_a_narrow_city() {
    let data = parse2("111111111111\n999999999991\n999999999991\n999999999991\n999999999991\n");
    assert_eq!(try_solve2(&data), Some(71));
}

#[test]
fn map_is_read_row_by_row() {
    let v = parse("12\n34\n");
    assert_eq!(v.rows, 2);
    assert_eq!(v.cols, 2);
    assert_eq!(
        v.costs,
        vec![
            Cost { row: 0, col: 0, cost: 1 },
            Cost { row: 0, col: 1, cost: 2 },
            Cost { row: 1, col: 0, cost: 3 },
            Cost { row: 1, col: 1, cost: 4 },
        ]
    );
    assert_eq!(v.cost(1, 0), 3);
    assert_eq!(parse2("12\n34\n").cost(0, 1), 2);
}

#[test]
fn crucible_moves() {
    let v = parse("123\n456\n789\n");
    let p = Position { row: 1, col: 1, direction: Direction::Up, steps_done: 0 };
    assert_eq!(
        v.successors(&p),
        vec![
            (Position { row: 0, col: 1, direction: Direction::Up, steps_done: 1 }, 2),
            (Position { row: 1, col: 0, direction: Direction::Left, steps_done: 0 }, 4),
            (Position { row: 1, col: 2, direction: Direction::Right, steps_done: 0 }, 6),
        ]
    );
    let p = Position { row: 1, col: 1, direction: Direction::Right, steps_done: 2 };
    assert_eq!(
        v.successors(&p),
        vec![
            (Position { row: 0, col: 1, direction: Direction::Up, steps_done: 0 }, 2),
            (Position { row: 2, col: 1, direction: Direction::Down, steps_done: 0 }, 8),
        ]
    );
    let p = Position { row: 0, col: 0, direction: Direction::Left, steps_done: 0 };
    assert_eq!(
        v.successors(&p),
        vec![(Position { row: 1, col: 0, direction: Direction::Down, steps_done: 0 }, 4)]
    );
    let p = Position { row: 2, col: 2, direction: Direction::Down, steps_done: 1 };
    assert_eq!(
        v.successors(&p),
        vec![(Position { row: 2, col: 1, direction: Direction::Left, steps_done: 0 }, 8)]
    );
}

#[test]
fn ultra_crucible_moves() {
    let v = parse2("123\n456\n789\n");
    let p = Position2 { row: 1, col: 1, direction: Direction::Down, steps_done: 0, steps_to_do: 3 };
    assert_eq!(
        v.successors(&p),
        vec![(
            Position2 { row: 2, col: 1, direction: Direction::Down, steps_done: 1, steps_to_do: 2 },
            8
        )]
    );
    let p = Position2 { row: 1, col: 1, direction: Direction::Down, steps_done: 9, steps_to_do: 0 };
    assert_eq!(
        v.successors(&p),
        vec![
            (
                Position2 {
                    row: 1,
                    col: 0,
                    direction: Direction::Left,
                    steps_done: 0,
                    steps_to_do: 3
                },
                4
            ),
            (
                Position2 {
                    row: 1,
                    col: 2,
                    direction: Direction::Right,
                    steps_done: 0,
                    steps_to_do: 3
                },
                6
            ),
        ]
    );
    let p = Position2 { row: 1, col: 1, direction: Direction::Left, steps_done: 3, steps_to_do: 0 };
    assert_eq!(v.successors(&p).len(), 3);
    assert_eq!(
        v.successors(&p)[0],
        (
            Position2 { row: 1, col: 0, direction: Direction::Left, steps_done: 4, steps_to_do: 0 },
            4
        )
    );
}

#[test]
fn single_block_city_costs_nothing() {
    assert_eq!(try_solve(&parse("7\n")), Some(0));
    assert_eq!(try_solve2(&parse2("7\n")), None);
}

#[test]
fn texts_that_are_no_maps() {
    use_checks();
}

fn use_checks() {
    assert!(advent_puzzles::day17::try_parse("").is_none());
    assert!(advent_puzzles::day17::try_parse("12\n3\n").is_none());
    assert!(advent_puzzles::day17::try_parse("12\n3x\n").is_none());
    assert!(advent_puzzles::day17::try_parse2("1 2\n").is_none());
    let v = advent_puzzles::day17::try_parse(CITY).unwrap();
    assert!(v.is_small());
    assert_eq!(try_solve(&v), Some(102));
    let mut large = advent_puzzles::day17::try_parse("12\n34\n").unwrap();
    large.costs[0].cost = 10;
    assert!(!large.is_small());
    large.costs[0].cost = 9;
    large.rows = usize::MAX / 2;
    assert!(!large.is_small());
    let v2 = advent_puzzles::day17::try_parse2(CITY).unwrap();
    assert!(v2.is_small());
    assert_eq!(try_solve2(&v2), Some(94));
}

#[test]
fn crucibles_start_in_the_top_left_corner_facing_right() {
    assert_eq!(
        advent_puzzles::day17::Visitor::first_state(),
        Position { row: 0, col: 0, direction: Direction::Right, steps_done: 0 }
    );
    assert_eq!(
        advent_puzzles::day17::Visitor2::first_state(),
        Position2 { row: 0, col: 0, direction: Direction::Right, steps_done: 0, steps_to_do: 3 }
    );
    assert_eq!(try_solve(&parse("19\n11\n")), Some(2));
    assert_eq!(try_solve(&parse("11\n91\n")), Some(2));
    assert_eq!(try_solve2(&parse2("11111\n")), Some(4));
    assert_eq!(try_solve2(&parse2("1111\n")), Some(3));
    assert_eq!(try_solve2(&parse2("111\n")), None);
}
