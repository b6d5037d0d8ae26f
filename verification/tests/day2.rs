use advent_puzzles::day2::{
    fewers_number_of_cubes_to_make_it_possible, parse_games, sum_possibile_games, Match,
};

const GAMES: &str = "Game 1: 3 blue, 4 red; 1 red, 2 green, 6 blue; 2 green\nGame 2: 1 blue, 2 green; 3 green, 4 blue, 1 red; 1 green, 1 blue\nGame 3: 8 green, 6 blue, 20 red; 5 blue, 4 red, 13 green; 5 green, 1 red\nGame 4: 1 green, 3 red, 6 blue; 3 green, 6 red; 3 green, 15 blue, 14 red\nGame 5: 6 red, 1 blue, 3 green; 2 blue, 1 red, 2 green\n";

#[test]
fn day2_t1() {
    let sum = sum_possibile_games(GAMES, Match { red: 12, green: 13, blue: 14 });
    assert_eq!(sum, 8);
}

#[test]
fn day2_t3() {
    let sum = fewers_number_of_cubes_to_make_it_possible(GAMES);
    assert_eq!(sum, 2286);
}

#[test]
fn games_are_read() {
    let games = parse_games(GAMES).games;
    assert_eq!(games.len(), 5);
    assert_eq!(games[0].gid, 1);
    assert_eq!(
        games[0].matches,
        vec![
            Match { red: 4, green: 0, blue: 3 },
            Match { red: 1, green: 2, blue: 6 },
            Match { red: 0, green: 2, blue: 0 },
        ]
    );
    assert_eq!(games[4].gid, 5);
    assert_eq!(games[4].matches.len(), 2);
}

#[test]
fn reading_stops_at_the_first_line_that_is_no_game() {
    assert_eq!(parse_games("").games.len(), 0);
    assert_eq!(parse_games("Game 7: 1 red\nnonsense\nGame 8: 1 red").games.len(), 1);
    let games = parse_games("Game 7: 1 red, 2 pink; 3 blue").games;
    assert_eq!(games.len(), 1);
    assert_eq!(games[0].matches, vec![Match { red: 1, green: 0, blue: 0 }]);
    let games = parse_games("Game 12: ").games;
    assert_eq!(games[0].gid, 12);
    assert_eq!(games[0].matches, vec![Match { red: 0, green: 0, blue: 0 }]);
    assert_eq!(parse_games("Game 99999999999: 1 red").games.len(), 0);
    assert_eq!(sum_possibile_games("Game 3: 5 red", Match { red: 4, green: 0, blue: 0 }), 0);
    assert_eq!(sum_possibile_games("Game 3: 5 red", Match { red: 5, green: 0, blue: 0 }), 3);
}

#[test]
fn sums_that_do_not_fit() {
    let games = parse_games(GAMES);
    assert_eq!(advent_puzzles::day2::sum_of_possible(&games, Match { red: 12, green: 13, blue: 14 }), Some(8));
    assert_eq!(advent_puzzles::day2::sum_of_powers(&games), Some(2286));
    let games = parse_games("Game 4294967295: 1 red\nGame 1: 1 red");
    assert_eq!(advent_puzzles::day2::sum_of_possible(&games, Match { red: 1, green: 0, blue: 0 }), None);
    let games = parse_games("Game 1: 65536 red, 65536 green");
    assert_eq!(advent_puzzles::day2::sum_of_powers(&games), None);
    let games = parse_games("Game 1: 65535 red, 65535 green, 2 blue");
    assert_eq!(advent_puzzles::day2::sum_of_powers(&games), None);
    let games = parse_games("Game 1: 65535 red, 65535 green, 1 blue");
    assert_eq!(advent_puzzles::day2::sum_of_powers(&games), Some(4294836225));
}
