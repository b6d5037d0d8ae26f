use advent_puzzles::day18::{pick_theorem, positions, shoelace, solve};
use advent_puzzles::day18::{Direction, Instruction, Position};

fn plan() -> Vec<Instruction> {
    let steps = [
        (Direction::Right, 6),
        (Direction::Down, 5),
        (Direction::Left, 2),
        (Direction::Down, 2),
        (Direction::Right, 2),
        (Direction::Down, 2),
        (Direction::Left, 5),
        (Direction::Up, 2),
        (Direction::Left, 1),
        (Direction::Up, 2),
        (Direction::Right, 2),
        (Direction::Up, 3),
        (Direction::Left, 2),
        (Direction::Up, 2),
    ];
    steps.iter().map(|&(direction, distance)| Instruction { direction, distance }).collect()
}

#[test]
fn day18_t1() {
    assert_eq!(solve(&plan()), 62);
}

#[test]
fn positions_follow_the_instructions() {
    let path = positions(&vec![
        Instruction { direction: Direction::Right, distance: 2 },
        Instruction { direction: Direction::Up, distance: 1 },
        Instruction { direction: Direction::Left, distance: 1 },
        Instruction { direction: Direction::Down, distance: 1 },
    ]);
    assert_eq!(
        path,
        vec![
            Position { x: 0, y: 0 },
            Position { x: 1, y: 0 },
            Position { x: 2, y: 0 },
            Position { x: 2, y: 1 },
            Position { x: 1, y: 1 },
            Position { x: 1, y: 0 },
        ]
    );
    assert_eq!(positions(&vec![]), vec![Position { x: 0, y: 0 }]);
}

#[test]
fn shoelace_of_a_square() {
    let square = vec![
        Position { x: 0, y: 0 },
        Position { x: 3, y: 0 },
        Position { x: 3, y: 3 },
        Position { x: 0, y: 3 },
        Position { x: 0, y: 0 },
    ];
    assert_eq!(shoelace(&square), 9);
    let mut back = square.clone();
    back.reverse();
    assert_eq!(shoelace(&back), 9);
    assert_eq!(shoelace(&vec![]), 0);
    assert_eq!(shoelace(&vec![Position { x: 5, y: 7 }]), 0);
}

#[test]
fn pick_theorem_values() {
    assert_eq!(pick_theorem(9, 12), 4);
    assert_eq!(pick_theorem(42, 38), 24);
    assert_eq!(pick_theorem(1, 4), 0);
    assert_eq!(pick_theorem(0, -3), 2);
}

#[test]
fn lagoon_of_a_unit_square() {
    let plan = vec![
        Instruction { direction: Direction::Right, distance: 1 },
        Instruction { direction: Direction::Down, distance: 1 },
        Instruction { direction: Direction::Left, distance: 1 },
        Instruction { direction: Direction::Up, distance: 1 },
    ];
    assert_eq!(solve(&plan), 4);
}

const PLAN: &str = "R 6 (#70c710)\nD 5 (#0dc571)\nL 2 (#5713f0)\nD 2 (#d2c081)\nR 2 (#59c680)\nD 2 (#411b91)\nL 5 (#8ceee2)\nU 2 (#caa173)\nL 1 (#1b58a2)\nU 2 (#caa171)\nR 2 (#7807d2)\nU 3 (#a77fa3)\nL 2 (#015232)\nU 2 (#7a21e3)\n";

#[test]
fn plan_is_read() {
    let v = advent_puzzles::day18::parse(PLAN).unwrap();
    assert_eq!(v, plan());
    assert_eq!(solve(&v), 62);
}

#[test]
fn day18_t3() {
    let v = advent_puzzles::day18::parse2(PLAN).unwrap();
    assert_eq!(v.len(), 14);
    assert_eq!(v[0], Instruction { direction: Direction::Right, distance: 461937 });
    assert_eq!(v[1], Instruction { direction: Direction::Down, distance: 56407 });
    assert_eq!(v[7], Instruction { direction: Direction::Up, distance: 829975 });
    assert_eq!(952408144115, solve(&v));
}

#[test]
fn broken_plans() {
    assert_eq!(advent_puzzles::day18::parse(""), None);
    assert_eq!(advent_puzzles::day18::parse("X 6 (#70c710)"), None);
    assert_eq!(advent_puzzles::day18::parse("R6 (#70c710)"), None);
    assert_eq!(advent_puzzles::day18::parse("R 6 (#70c710"), None);
    assert_eq!(advent_puzzles::day18::parse2("R 6 (#70c71)"), None);
    assert_eq!(advent_puzzles::day18::parse2("R 6 (#70c714)"), None);
    assert_eq!(advent_puzzles::day18::parse2("R 6 (#70g710)"), None);
    assert_eq!(
        advent_puzzles::day18::parse("U 3 (x)\r\nL 1 ()\nnonsense"),
        Some(vec![
            Instruction { direction: Direction::Up, distance: 3 },
            Instruction { direction: Direction::Left, distance: 1 },
        ])
    );
}
