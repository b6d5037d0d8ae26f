use advent_puzzles::day3::{
    east, north, north_east, north_west, south, south_east, south_west, sum_gears_power, west,
    Matrix,
};

const SCHEMATIC: &str = "467..114..\n...*......\n..35..633.\n......#...\n617*......\n.....+.58.\n..592.....\n......755.\n...$.*....\n.664.598..\n";

#[test]
fn day3_t3() {
    let n = sum_gears_power(SCHEMATIC);
    assert_eq!(n, 467835);
}

#[test]
fn grid_is_read() {
    let m = Matrix::from_str(SCHEMATIC);
    assert_eq!((m.rows, m.columns), (10, 10));
    assert_eq!(m.data.len(), 100);
    assert_eq!(m.at(0, 0), '4');
    assert_eq!(m.at(1, 3), '*');
    assert_eq!(m.get(8, 3), '$');
    let empty = Matrix::new(2, 3);
    assert_eq!((empty.rows, empty.columns, empty.data.len()), (2, 3, 0));
}

#[test]
fn cells_are_cleared() {
    let mut m = Matrix::from_str("ab\ncd\n");
    m.clear_at(1, 0);
    assert_eq!(m.data, vec!['a', 'b', '.', 'd']);
    assert_eq!((m.rows, m.columns), (2, 2));
}

#[test]
fn boundary_of_cells() {
    let m = Matrix::from_str("abc\ndef\nghi\n");
    assert_eq!(m.boundary(1, 1, true, true), vec!['a', 'b', 'c', 'd', 'f', 'g', 'h', 'i']);
    assert_eq!(m.boundary(1, 1, false, true), vec!['a', 'b', 'c', 'f', 'g', 'h', 'i']);
    assert_eq!(m.boundary(1, 1, true, false), vec!['a', 'b', 'c', 'd', 'g', 'h', 'i']);
    assert_eq!(m.boundary(0, 0, true, true), vec!['b', 'd', 'e']);
    assert_eq!(m.boundary(2, 2, true, true), vec!['e', 'f', 'h']);
    assert_eq!(m.boundary(0, 2, true, true), vec!['b', 'e', 'f']);
    assert_eq!(m.boundary(2, 0, false, false), vec!['d', 'e']);
    assert_eq!(m.boundary(2, 0, false, true), vec!['d', 'e', 'h']);
}

#[test]
fn numbers_around_a_gear() {
    let m = Matrix::from_str(SCHEMATIC);
    assert_eq!(north(&m, 1, 3), None);
    assert_eq!(north_west(&m, 1, 3), Some(467));
    assert_eq!(north_east(&m, 1, 3), None);
    assert_eq!(south(&m, 1, 3), Some(35));
    assert_eq!(west(&m, 4, 3), Some(617));
    assert_eq!(east(&m, 4, 3), None);
    assert_eq!(north(&m, 8, 5), None);
    assert_eq!(north_east(&m, 8, 5), Some(755));
    assert_eq!(north(&m, 8, 6), Some(755));
    assert_eq!(south(&m, 8, 5), Some(598));
    assert_eq!(south_west(&m, 8, 5), None);
    assert_eq!(south_east(&m, 8, 5), Some(98));
    assert_eq!(south_west(&m, 8, 4), Some(664));
    assert_eq!(north_west(&m, 0, 3), None);
    assert_eq!(south(&m, 9, 3), None);
    assert_eq!(south_east(&m, 9, 3), None);
}

#[test]
fn numbers_at_the_edges() {
    let m = Matrix::from_str("12.\n.*.\n.34\n");
    assert_eq!(north(&m, 1, 1), Some(2));
    assert_eq!(north(&m, 1, 0), Some(2));
    assert_eq!(north(&m, 1, 2), None);
    assert_eq!(north_west(&m, 1, 1), Some(1));
    assert_eq!(south(&m, 1, 1), Some(34));
    assert_eq!(south_east(&m, 1, 1), Some(4));
    assert_eq!(east(&m, 0, 2), None);
    let m = Matrix::from_str("..7\n8..\n...\n");
    assert_eq!(east(&m, 0, 1), Some(78));
    assert_eq!(east(&m, 0, 2), Some(8));
    assert_eq!(west(&m, 1, 1), Some(8));
    assert_eq!(south(&m, 0, 2), None);
}

#[test]
fn day3_t1() {
    let n = advent_puzzles::day3::sum_number_with_boundaries(SCHEMATIC);
    assert_eq!(n, 4361);
}

#[test]
fn numbers_with_their_symbols() {
    let m = Matrix::from_str(SCHEMATIC);
    let found = m.unique_symbols_in_boundary();
    let numbers: Vec<usize> = found.iter().map(|f| f.number).collect();
    assert_eq!(numbers, vec![467, 114, 35, 633, 617, 58, 592, 755, 664, 598]);
    assert_eq!(found[0].boundary, vec!['*']);
    assert_eq!(found[1].boundary, Vec::<char>::new());
    assert_eq!((found[0].r, found[0].c), (0, 3));
    assert_eq!((found[1].r, found[1].c), (0, 8));
    assert_eq!(found[3].boundary, vec!['#']);
    let m = Matrix::from_str("%.#\n.12\n*.#\n");
    let found = m.unique_symbols_in_boundary();
    assert_eq!(found.len(), 1);
    assert_eq!(found[0].number, 12);
    assert_eq!(found[0].boundary, vec!['#', '%', '*']);
    assert_eq!((found[0].r, found[0].c), (1, 2));
    let m = Matrix::from_str("1.2\n...\n3.4\n");
    let found = m.unique_symbols_in_boundary();
    assert_eq!(found.len(), 4);
    assert!(found.iter().all(|f| f.boundary.is_empty()));
    assert_eq!(advent_puzzles::day3::sum_number_with_boundaries("1.2\n.+.\n3.4\n"), 10);
    assert_eq!(advent_puzzles::day3::sum_number_with_boundaries("12\n34\n"), 46);
}

#[test]
fn texts_that_show_no_grid() {
    assert!(Matrix::try_from_str("").is_none());
    assert!(Matrix::try_from_str("abc").is_none());
    assert!(Matrix::try_from_str("\nabc\n").is_none());
    assert!(Matrix::try_from_str("ab\n").is_none());
    assert!(Matrix::try_from_str("ab\nc\n").is_none());
    assert!(Matrix::try_from_str("ab\ncd").is_none());
    let m = Matrix::try_from_str("ab\ncd\n").unwrap();
    assert_eq!((m.rows, m.columns), (2, 2));
    assert!(Matrix::try_from_str(SCHEMATIC).is_some());
}

/// A grid as high as it is wide: the given rows, and rows of dots below.
fn square(rows: &[&str]) -> String {
    let width = rows[0].len();
    let mut text = String::new();
    for k in 0..width {
        let row = if k < rows.len() { rows[k].to_string() } else { ".".repeat(width) };
        assert_eq!(row.len(), width);
        text.push_str(&row);
        text.push('\n');
    }
    text
}

#[test]
fn schematic_sums_that_cannot_be_computed() {
    let numbers = advent_puzzles::day3::try_sum_number_with_boundaries;
    let gears = advent_puzzles::day3::try_sum_gears_power;
    assert_eq!(numbers(SCHEMATIC), Some(4361));
    assert_eq!(gears(SCHEMATIC), Some(467835));
    assert_eq!(numbers("abc"), None);
    assert_eq!(gears("abc"), None);
    assert_eq!(numbers("1.2\n.+.\n3.4\n"), Some(10));
    let large = square(&["18446744073709551615", "...................+"]);
    assert_eq!(numbers(&large), Some(usize::MAX));
    let larger = square(&["18446744073709551616", "...................+"]);
    assert_eq!(numbers(&larger), None);
    let two = square(&["18446744073709551615.1", "......................"]);
    assert_eq!(numbers(&two), None);
    let alone = square(&["18446744073709551615.0", "......................"]);
    assert_eq!(numbers(&alone), Some(0));
    assert_eq!(gears(&square(&["65536*65535"])), Some(4294901760));
    assert_eq!(gears(&square(&["65536*65536"])), None);
    assert_eq!(gears(&square(&["65535*65537"])), Some(u32::MAX));
    assert_eq!(gears(&square(&["65535*65537", "...........", "1*1........"])), None);
    assert_eq!(gears(&square(&["4294967296*1"])), Some(0));
    let m = Matrix::try_from_str(&larger).unwrap();
    assert!(m.try_unique_symbols_in_boundary().is_none());
}
