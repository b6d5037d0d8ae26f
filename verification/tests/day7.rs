use advent_puzzles::day7::symbolic_value;

#[test]
fn cards_are_written_with_their_symbols() {
    let all: Vec<String> = (0..=15).map(symbolic_value).collect();
    assert_eq!(
        all.concat(),
        "X*23456789TJQKAX"
    );
    assert_eq!(symbolic_value(200), "X");
}
