use advent_puzzles::day10::builder::build_graph;
use advent_puzzles::day10::builder::find_link;
use advent_puzzles::day10::walk::find_loop;
use advent_puzzles::day10::walk::find_start;
use advent_puzzles::day10::{can_end, has_opening, symbol_from_char};
use advent_puzzles::day10::{count_interior_points, find_cycle_length, parse, scan_cells};
use advent_puzzles::day10::{Cell, Connections, Direction, MazeError};
use advent_puzzles::text::chars_of;

const RING: &str = "S7\nLJ";

const SQUARE: &str = ".....\n.S-7.\n.|.|.\n.L-J.\n.....";

const BENT: &str = "..F7.\n.FJ|.\nSJ.L7\n|F--J\nLJ...";

const WIDE: &str = "...........\n.S-------7.\n.|F-----7|.\n.||.....||.\n.||.....||.\n.|L-7.F-J|.\n.|..|.|..|.\n.L--J.L--J.\n...........";

const LARGE: &str = ".F----7F7F7F7F-7....\n.|F--7||||||||FJ....\n.||.FJ||||||||L7....\nFJL7L7LJLJ||LJ.L-7..\nL--J.L7...LJS7F-7L7.\n....F-J..F7FJ|L7L7L7\n....L7.F7||L7|.L7L7|\n.....|FJLJ|FJ|F7|.LJ\n....FJL-7.||.||||...\n....L---J.LJ.LJLJ...";

const JUNK: &str = "7-F7-\n.FJ|7\nSJLL7\n|F--J\nLJ.LJ";

fn edges_of(text: &str) -> Vec<(usize, usize)> {
    let g = parse(text).unwrap();
    g.raw_edges().iter().map(|e| (e.source().index(), e.target().index())).collect()
}

#[test]
fn minimal_ring_has_length_four_and_nothing_inside() {
    let g = parse(RING).unwrap();
    assert_eq!(find_cycle_length(&g), Ok(4));
    assert_eq!(count_interior_points(&g), Ok(0));
}

#[test]
fn square_loop_encloses_one_cell() {
    let g = parse(SQUARE).unwrap();
    assert_eq!(find_cycle_length(&g), Ok(8));
    assert_eq!(count_interior_points(&g), Ok(1));
}

#[test]
fn bent_loop_has_sixteen_pipes() {
    let g = parse(BENT).unwrap();
    assert_eq!(find_cycle_length(&g), Ok(16));
    assert_eq!(count_interior_points(&g), Ok(1));
}

#[test]
fn interior_counts_of_larger_mazes() {
    assert_eq!(count_interior_points(&parse(WIDE).unwrap()), Ok(4));
    assert_eq!(count_interior_points(&parse(LARGE).unwrap()), Ok(8));
    assert_eq!(count_interior_points(&parse(JUNK).unwrap()), Ok(1));
    assert_eq!(find_cycle_length(&parse(JUNK).unwrap()), Ok(16));
}

#[test]
fn length_equals_the_nodes_of_the_one_way_walk() {
    for text in [RING, SQUARE, BENT, WIDE, LARGE, JUNK] {
        let g = parse(text).unwrap();
        let start = find_start(&g).unwrap();
        let path = find_loop(&g, start).unwrap();
        assert_eq!(find_cycle_length(&g), Ok(path.len()));
        assert_eq!(*path.last().unwrap(), start);
    }
}

#[test]
fn graph_has_a_node_for_every_cell_in_row_order() {
    let g = parse(SQUARE).unwrap();
    assert_eq!(g.node_count(), 25);
    let cells: Vec<Cell> = g.node_weights().cloned().collect();
    assert_eq!(cells[6], Cell { connections: Connections::Start, row: 1, col: 1 });
    assert_eq!(cells[8], Cell { connections: Connections::SouthWest, row: 1, col: 3 });
    assert_eq!(cells[24], Cell { connections: Connections::Ground, row: 4, col: 4 });
}

#[test]
fn edges_join_compatible_pipes_once() {
    assert_eq!(edges_of(RING), vec![(1, 3), (1, 0), (2, 0), (2, 3)]);
    let g = parse(SQUARE).unwrap();
    assert_eq!(g.edge_count(), 8);
}

#[test]
fn ground_has_no_edges_and_mismatched_pipes_stay_apart() {
    let g = parse("-|\n.S").unwrap();
    let edges: Vec<(usize, usize)> =
        g.raw_edges().iter().map(|e| (e.source().index(), e.target().index())).collect();
    assert_eq!(edges, vec![(1, 3)]);
}

#[test]
fn rebuilding_gives_identical_edges() {
    for text in [RING, SQUARE, BENT, JUNK] {
        assert_eq!(edges_of(text), edges_of(text));
    }
}

#[test]
fn unknown_character_fails_parsing() {
    assert_eq!(parse("S7\nLX").err(), Some(MazeError::ParseError(4, 'X')));
    assert_eq!(parse("S7\rLJ").err(), Some(MazeError::ParseError(2, '\r')));
    assert_eq!(parse("é").err(), Some(MazeError::ParseError(0, 'é')));
}

#[test]
fn first_unknown_character_is_reported() {
    assert_eq!(parse("S?\n!J").err(), Some(MazeError::ParseError(1, '?')));
}

#[test]
fn line_endings_are_tolerated() {
    let g = parse("S7\r\nLJ\r\n").unwrap();
    assert_eq!(g.node_count(), 4);
    assert_eq!(find_cycle_length(&g), Ok(4));
    let g = parse("S7\nLJ\n").unwrap();
    assert_eq!(find_cycle_length(&g), Ok(4));
}

#[test]
fn missing_start_is_reported() {
    let g = parse("F7\nLJ").unwrap();
    assert_eq!(find_cycle_length(&g), Err(MazeError::MissingStart));
    assert_eq!(count_interior_points(&g), Err(MazeError::MissingStart));
    let g = parse("").unwrap();
    assert_eq!(find_cycle_length(&g), Err(MazeError::MissingStart));
}

#[test]
fn open_pipe_is_no_cycle() {
    let g = parse("S-7").unwrap();
    assert_eq!(find_cycle_length(&g), Err(MazeError::NoCycle));
    assert_eq!(count_interior_points(&g), Err(MazeError::NoCycle));
    let g = parse("S").unwrap();
    assert_eq!(find_cycle_length(&g), Err(MazeError::NoCycle));
}

#[test]
fn no_cycle_when_start_fits_nothing() {
    for text in [RING, SQUARE, BENT, WIDE, LARGE, JUNK] {
        let cells = scan_cells(&chars_of(text)).unwrap();
        let with = build_graph(&cells, true);
        assert!(find_cycle_length(&with).is_ok());
        let without = build_graph(&cells, false);
        assert_eq!(find_cycle_length(&without), Err(MazeError::NoCycle));
        assert_eq!(count_interior_points(&without), Err(MazeError::NoCycle));
    }
}

#[test]
fn stray_pipe_at_the_start_is_passed_over() {
    let text = ".|.\n-S7\n.LJ";
    let g = parse(text).unwrap();
    assert_eq!(find_cycle_length(&g), Ok(4));
    assert_eq!(count_interior_points(&g), Ok(0));
}

#[test]
fn symbols_of_the_alphabet() {
    assert_eq!(symbol_from_char('|'), Some(Connections::NorthSouth));
    assert_eq!(symbol_from_char('-'), Some(Connections::EastWest));
    assert_eq!(symbol_from_char('L'), Some(Connections::NorthEast));
    assert_eq!(symbol_from_char('J'), Some(Connections::NorthWest));
    assert_eq!(symbol_from_char('7'), Some(Connections::SouthWest));
    assert_eq!(symbol_from_char('F'), Some(Connections::SouthEast));
    assert_eq!(symbol_from_char('.'), Some(Connections::Ground));
    assert_eq!(symbol_from_char('S'), Some(Connections::Start));
    assert_eq!(symbol_from_char('x'), None);
}

#[test]
fn compatibility_table() {
    assert!(has_opening(Connections::NorthEast, Direction::North));
    assert!(has_opening(Connections::NorthEast, Direction::East));
    assert!(!has_opening(Connections::NorthEast, Direction::South));
    assert!(!has_opening(Connections::Start, Direction::South));
    assert!(!has_opening(Connections::Ground, Direction::West));
    assert!(can_end(Connections::SouthEast, Direction::West, true));
    assert!(!can_end(Connections::NorthWest, Direction::West, true));
    assert!(can_end(Connections::Start, Direction::West, true));
    assert!(!can_end(Connections::Start, Direction::West, false));
    assert!(!can_end(Connections::Ground, Direction::North, true));
}

#[test]
fn probe_finds_the_neighbour_it_fits() {
    let cells = scan_cells(&chars_of(RING)).unwrap();
    assert_eq!(find_link(&cells, 1, Direction::South, true), Some(3));
    assert_eq!(find_link(&cells, 1, Direction::West, true), Some(0));
    assert_eq!(find_link(&cells, 1, Direction::West, false), None);
    assert_eq!(find_link(&cells, 1, Direction::North, true), None);
    assert_eq!(find_link(&cells, 0, Direction::East, true), None);
}

fn edges_by_search(cells: &Vec<Cell>, fits: bool) -> Vec<(usize, usize)> {
    let mut edges: Vec<(usize, usize)> = Vec::new();
    for a in 0..cells.len() {
        for d in [Direction::North, Direction::South, Direction::West, Direction::East] {
            if let Some(b) = find_link(cells, a, d, fits) {
                if !edges.contains(&(a, b)) && !edges.contains(&(b, a)) {
                    edges.push((a, b));
                }
            }
        }
    }
    edges
}

#[test]
fn edges_are_what_a_search_through_all_cells_finds() {
    for text in [RING, SQUARE, BENT, WIDE, LARGE, JUNK, "S7\n\n\nLJ\nF", "-S-\n|"] {
        for fits in [true, false] {
            let cells = scan_cells(&chars_of(text)).unwrap();
            let g = build_graph(&cells, fits);
            let edges: Vec<(usize, usize)> =
                g.raw_edges().iter().map(|e| (e.source().index(), e.target().index())).collect();
            assert_eq!(edges, edges_by_search(&cells, fits));
            let mut shuffled = cells.clone();
            shuffled.reverse();
            let g = build_graph(&shuffled, fits);
            let edges: Vec<(usize, usize)> =
                g.raw_edges().iter().map(|e| (e.source().index(), e.target().index())).collect();
            assert_eq!(edges, edges_by_search(&shuffled, fits));
        }
    }
}

#[test]
fn cells_in_any_order_make_the_same_loop() {
    let mut cells = scan_cells(&chars_of(SQUARE)).unwrap();
    cells.reverse();
    let g = build_graph(&cells, true);
    assert_eq!(find_cycle_length(&g), Ok(8));
    assert_eq!(count_interior_points(&g), Ok(1));
}

#[test]
fn empty_lines_leave_rows_out() {
    let cells = scan_cells(&chars_of("S7\n\nLJ")).unwrap();
    assert_eq!(cells[2], Cell { connections: Connections::NorthEast, row: 2, col: 0 });
    let g = build_graph(&cells, true);
    assert_eq!(g.edge_count(), 2);
    assert_eq!(find_cycle_length(&g), Err(MazeError::NoCycle));
}

#[test]
fn interior_is_never_negative() {
    for text in [RING, SQUARE, BENT, WIDE, LARGE, JUNK, "S-7\nL-J"] {
        let inside = count_interior_points(&parse(text).unwrap()).unwrap();
        assert!(inside >= 0);
    }
    assert_eq!(count_interior_points(&parse("S-7\nL-J").unwrap()), Ok(0));
    assert_eq!(find_cycle_length(&parse("S-7\nL-J").unwrap()), Ok(6));
}

#[test]
fn two_starts_side_by_side_are_not_joined() {
    assert_eq!(edges_of("SS"), Vec::<(usize, usize)>::new());
    assert_eq!(edges_of("S\nS"), Vec::<(usize, usize)>::new());
    assert_eq!(edges_of("-SS-"), vec![(0, 1), (3, 2)]);
    assert_eq!(edges_of("S-"), vec![(1, 0)]);
    assert_eq!(edges_of("S|"), Vec::<(usize, usize)>::new());
}
