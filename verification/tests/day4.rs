use advent_puzzles::day4::{compute_score, duplicate_cards_then_count, parse_cards};

const CARDS: &str = "Card 1: 41 48 83 86 17 | 83 86  6 31 17  9 48 53\nCard 2: 13 32 20 16 61 | 61 30 68 82 17 32 24 19\nCard 3:  1 21 53 59 44 | 69 82 63 72 16 21 14  1\nCard 4: 41 92 73 84 69 | 59 84 76 51 58  5 54 83\nCard 5: 87 83 26 28 32 | 88 30 70 12 93 22 82 36\nCard 6: 31 18 13 56 72 | 74 77 10 23 35 67 36 11\n";

#[test]
fn day4_t1() {
    assert_eq!(compute_score(CARDS), 13);
}

#[test]
fn day4_t3() {
    assert_eq!(duplicate_cards_then_count(CARDS), 30);
}

#[test]
fn cards_are_read() {
    let cards = parse_cards(CARDS);
    assert_eq!(cards.len(), 6);
    assert_eq!(cards[0].cid, 1);
    assert_eq!(cards[0].value, 4);
    assert_eq!(cards[0].winning_numbers, vec![41, 48, 83, 86, 17]);
    assert_eq!(cards[0].available_numbers, vec![83, 86, 6, 31, 17, 9, 48, 53]);
    assert_eq!(cards[2].winning_numbers, vec![1, 21, 53, 59, 44]);
    assert_eq!(cards[5].value, 0);
    assert_eq!(parse_cards("Card 1: 1 2 |").len(), 1);
    assert_eq!(parse_cards("Card 1 1 2 | 3").len(), 0);
    assert_eq!(parse_cards("").len(), 0);
}

#[test]
fn points_double_with_every_win() {
    assert_eq!(compute_score("Card 1: 1 2 3 | 4 5"), 0);
    assert_eq!(compute_score("Card 1: 1 2 3 | 3"), 1);
    assert_eq!(compute_score("Card 1: 1 2 3 | 3 1 2 9"), 4);
    assert_eq!(duplicate_cards_then_count("Card 1: 1 | 1\nCard 2: 1 | 2"), 3);
    assert_eq!(duplicate_cards_then_count("Card 1: 1 | 2"), 1);
}

#[test]
fn cards_whose_copies_fall_outside() {
    let count = |text: &str| advent_puzzles::day4::count_with_copies(&parse_cards(text));
    assert_eq!(count(CARDS), Some(30));
    assert_eq!(count(""), None);
    assert_eq!(count("Card 1: 1 | 1"), None);
    assert_eq!(count("Card 0: 1 | 2"), None);
    assert_eq!(count("Card 5: 1 | 2"), Some(1));
    assert_eq!(advent_puzzles::day4::score_of(&parse_cards(CARDS)), Some(13));
}
