use advent_puzzles::day14::{
    compute_weight, hare, parse, rotate_east, rotate_north, rotate_south, rotate_west, solve,
    solve2, tilt, tortoise, Tilt,
};
use grid::Grid;

const PLATFORM: &str = "O....#....\nO.OO#....#\n.....##...\nOO.#O....O\n.O.....O#.\nO.#..O.#.#\n..O..#O..O\n.......O..\n#....###..\n#OO..#....\n";

fn show(g: &Grid<char>) -> String {
    let mut s = String::new();
    for row in g.iter_rows() {
        for c in row {
            s.push(*c);
        }
        s.push('\n');
    }
    s
}

#[test]
fn day14_t1() {
    let mut grid = parse(PLATFORM);
    let res = solve(&mut grid);
    assert_eq!(136, res);
}

#[test]
fn day14_t3() {
    let mut grid = parse(PLATFORM);
    let res = solve2(&mut grid);
    assert_eq!(64, res);
}

#[test]
fn platform_is_read_in_rows() {
    let g = parse("O.#\n.O.\n");
    assert_eq!(g.size(), (2, 3));
    assert_eq!(g.get(0, 2), Some(&'#'));
    assert_eq!(g.get(1, 1), Some(&'O'));
    assert_eq!(show(&g), "O.#\n.O.\n");
}

#[test]
fn tilt_north_rolls_rocks_up_to_the_next_obstacle() {
    let mut g = parse(PLATFORM);
    rotate_north(&mut g);
    assert_eq!(
        show(&g),
        "OOOO.#.O..\nOO..#....#\nOO..O##..O\nO..#.OO...\n........#.\n..#....#.#\n..O..#.O.O\n..O.......\n#....###..\n#....#....\n"
    );
}

#[test]
fn tilts_in_the_four_directions() {
    let mut g = parse(".O.\n#.O\nO..\n");
    rotate_west(&mut g);
    assert_eq!(show(&g), "O..\n#O.\nO..\n");
    rotate_south(&mut g);
    assert_eq!(show(&g), "O..\n#..\nOO.\n");
    let mut g = parse(".O.\n#.O\nO..\n");
    rotate_east(&mut g);
    assert_eq!(show(&g), "..O\n#.O\n..O\n");
    rotate_north(&mut g);
    assert_eq!(show(&g), "..O\n#.O\n..O\n");
    tilt(&mut g, Tilt::West);
    assert_eq!(show(&g), "O..\n#O.\nO..\n");
}

#[test]
fn one_and_two_spins() {
    let mut g = parse(PLATFORM);
    tortoise(&mut g);
    assert_eq!(
        show(&g),
        ".....#....\n....#...O#\n...OO##...\n.OO#......\n.....OOO#.\n.O#...O#.#\n....O#....\n......OOOO\n#...O###..\n#..OO#....\n"
    );
    let mut twice = parse(PLATFORM);
    hare(&mut twice);
    tortoise(&mut g);
    assert_eq!(show(&g), show(&twice));
    assert_eq!(
        show(&g),
        ".....#....\n....#...O#\n.....##...\n..O#......\n.....OOO#.\n.O#...O#.#\n....O#...O\n.......OOO\n#..OO###..\n#.OOO#...O\n"
    );
}

#[test]
fn load_counts_rocks_by_their_row() {
    assert_eq!(compute_weight(&parse("OO\n.O\n")), 5);
    assert_eq!(compute_weight(&parse("..\n..\n")), 0);
    assert_eq!(compute_weight(&parse(PLATFORM)), 104);
}

#[test]
fn texts_that_show_no_platform() {
    assert!(advent_puzzles::day14::try_parse("").is_none());
    assert!(advent_puzzles::day14::try_parse("O.#").is_none());
    assert!(advent_puzzles::day14::try_parse("O.#\nO.\n").is_none());
    assert!(advent_puzzles::day14::try_parse("\nO\n").is_none());
    assert_eq!(advent_puzzles::day14::try_parse("\n").unwrap().size(), (0, 0));
    let g = advent_puzzles::day14::try_parse(PLATFORM).unwrap();
    assert!(advent_puzzles::day14::can_weigh(&g));
    let tall = advent_puzzles::day14::try_parse("O\n.\n").unwrap();
    assert!(!advent_puzzles::day14::can_weigh(&tall));
}
