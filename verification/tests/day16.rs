use advent_puzzles::day16::{make_move, parse, recurse, solve, solve2};
use advent_puzzles::day16::{Beam, CellType, Direction, Move, VisitedCell};

const CONTRAPTION: &str = ".|...\\....\n|.-.\\.....\n.....|-...\n........|.\n..........\n.........\\\n..../.\\\\..\n.-.-/..|..\n.|....-|.\\\n..//.|....\n";

#[test]
fn day16_t1() {
    let mut data = parse(CONTRAPTION);
    let mut beam = Beam { row: 0, col: 0, direction: Direction::Right };
    assert_eq!(46, solve(&mut data, &mut beam));
}

#[test]
fn day16_t3() {
    let mut data = parse(CONTRAPTION);
    assert_eq!(51, solve2(&mut data));
}

#[test]
fn map_is_read() {
    let maze = parse(".|\n/\\\n-.\n");
    assert_eq!((maze.rows, maze.cols), (3, 2));
    let kinds: Vec<Vec<CellType>> =
        maze.cells.iter().map(|r| r.iter().map(|c| c.cell_type).collect()).collect();
    assert_eq!(
        kinds,
        vec![
            vec![CellType::Empty, CellType::VerticalBar],
            vec![CellType::ForwardSlash, CellType::BackwardSlash],
            vec![CellType::Dash, CellType::Empty],
        ]
    );
    assert!(maze.cells.iter().all(|r| r.iter().all(|c| !c.energized)));
}

#[test]
fn beams_turn_split_and_leave() {
    let at = |direction| Beam { row: 1, col: 1, direction };
    assert_eq!(
        make_move(CellType::Empty, at(Direction::Right), 3, 3),
        Move::Go(Beam { row: 1, col: 2, direction: Direction::Right }, None)
    );
    assert_eq!(
        make_move(CellType::ForwardSlash, at(Direction::Right), 3, 3),
        Move::Go(Beam { row: 0, col: 1, direction: Direction::Up }, None)
    );
    assert_eq!(
        make_move(CellType::BackwardSlash, at(Direction::Right), 3, 3),
        Move::Go(Beam { row: 2, col: 1, direction: Direction::Down }, None)
    );
    assert_eq!(
        make_move(CellType::VerticalBar, at(Direction::Right), 3, 3),
        Move::Go(
            Beam { row: 0, col: 1, direction: Direction::Up },
            Some(Beam { row: 2, col: 1, direction: Direction::Down })
        )
    );
    assert_eq!(
        make_move(CellType::Dash, at(Direction::Up), 3, 3),
        Move::Go(
            Beam { row: 1, col: 0, direction: Direction::Left },
            Some(Beam { row: 1, col: 2, direction: Direction::Right })
        )
    );
    assert_eq!(
        make_move(CellType::Dash, at(Direction::Left), 3, 3),
        Move::Go(Beam { row: 1, col: 0, direction: Direction::Left }, None)
    );
    let corner = Beam { row: 0, col: 0, direction: Direction::Up };
    assert_eq!(make_move(CellType::Empty, corner, 3, 3), Move::Exit);
    assert_eq!(
        make_move(CellType::Dash, corner, 3, 3),
        Move::Go(corner, Some(Beam { row: 0, col: 1, direction: Direction::Right }))
    );
}

#[test]
fn visited_cells_are_listed_in_order() {
    let mut maze = parse("..\\\n...\n");
    let mut beam = Beam { row: 0, col: 0, direction: Direction::Right };
    let mut visited = Vec::new();
    recurse(&mut beam, &mut maze, &mut visited);
    assert_eq!(
        visited,
        vec![
            VisitedCell { row: 0, col: 0, direction: Direction::Right },
            VisitedCell { row: 0, col: 1, direction: Direction::Right },
            VisitedCell { row: 0, col: 2, direction: Direction::Right },
            VisitedCell { row: 1, col: 2, direction: Direction::Down },
        ]
    );
    assert_eq!(beam, Beam { row: 1, col: 2, direction: Direction::Down });
    let lit: Vec<Vec<bool>> =
        maze.cells.iter().map(|r| r.iter().map(|c| c.energized).collect()).collect();
    assert_eq!(lit, vec![vec![true, true, true], vec![false, false, true]]);
}

#[test]
fn beams_in_a_loop_end() {
    let mut maze = parse("/-\\\n|.|\n\\-/\n");
    let mut beam = Beam { row: 0, col: 1, direction: Direction::Right };
    assert_eq!(solve(&mut maze, &mut beam), 8);
}

#[test]
fn texts_that_are_no_contraptions() {
    assert!(advent_puzzles::day16::try_parse("").is_none());
    assert!(advent_puzzles::day16::try_parse("..\n.x\n").is_none());
    let maze = advent_puzzles::day16::try_parse(CONTRAPTION).unwrap();
    assert!(maze.is_ready());
    let ragged = advent_puzzles::day16::try_parse("..\n.\n").unwrap();
    assert!(!ragged.is_ready());
    let mut huge = advent_puzzles::day16::try_parse(".\n").unwrap();
    assert!(huge.is_ready());
    huge.cols = 0;
    assert!(!huge.is_ready());
}

#[test]
fn entries_listed_before_are_kept_whatever_they_hold() {
    let mut maze = parse("..\\\n...\n");
    let mut beam = Beam { row: 0, col: 1, direction: Direction::Right };
    let stale = VisitedCell { row: 700, col: 900, direction: Direction::Up };
    let mut visited = vec![stale];
    recurse(&mut beam, &mut maze, &mut visited);
    assert_eq!(
        visited,
        vec![
            stale,
            VisitedCell { row: 0, col: 1, direction: Direction::Right },
            VisitedCell { row: 0, col: 2, direction: Direction::Right },
            VisitedCell { row: 1, col: 2, direction: Direction::Down },
        ]
    );
    let lit: Vec<Vec<bool>> =
        maze.cells.iter().map(|r| r.iter().map(|c| c.energized).collect()).collect();
    assert_eq!(lit, vec![vec![false, true, true], vec![false, false, true]]);
}

#[test]
fn a_beam_that_is_listed_already_changes_nothing() {
    let mut maze = parse("..\\\n...\n");
    let mut beam = Beam { row: 0, col: 1, direction: Direction::Right };
    let listed = VisitedCell { row: 0, col: 1, direction: Direction::Right };
    let mut visited = vec![listed];
    recurse(&mut beam, &mut maze, &mut visited);
    assert_eq!(visited, vec![listed]);
    assert_eq!(beam, Beam { row: 0, col: 1, direction: Direction::Right });
    assert!(maze.cells.iter().all(|r| r.iter().all(|c| !c.energized)));
    let kinds: Vec<CellType> = maze.cells[0].iter().map(|c| c.cell_type).collect();
    assert_eq!(kinds, vec![CellType::Empty, CellType::Empty, CellType::BackwardSlash]);
}
