use advent_puzzles::day7::{
    compute_hands, compute_hands2, kind_points, parse_lines, parse_lines2, write_decimal, Card,
    Hand,
};

const HANDS: &str = "32T3K 765\nT55J5 684\nKK677 28\nKTJJT 220\nQQQJA 483\n";

fn hand(values: &[u8], bid: u32) -> Hand {
    Hand { cards: values.iter().map(|&value| Card { value }).collect(), bid, points: 0 }
}

#[test]
fn day7_t1() {
    let mut hands = parse_lines(HANDS).unwrap();
    assert_eq!(Some(6440), compute_hands(&mut hands));
}

#[test]
fn day7_t3() {
    let mut hands = parse_lines2(HANDS).unwrap();
    assert_eq!(Some(5905), compute_hands2(&mut hands));
}

#[test]
fn hands_are_read() {
    let hands = parse_lines(HANDS).unwrap();
    assert_eq!(hands.len(), 5);
    assert_eq!(hands[0].cards, vec![3, 2, 10, 3, 13].into_iter().map(|value| Card { value }).collect::<Vec<_>>());
    assert_eq!(hands[0].bid, 765);
    assert_eq!(hands[1].cards[3], Card { value: 11 });
    assert_eq!(parse_lines2(HANDS).unwrap()[1].cards[3], Card { value: 1 });
    assert!(parse_lines("").is_none());
    assert!(parse_lines("32T3K").is_none());
    assert!(parse_lines("1234 5").is_none());
    assert_eq!(parse_lines("22222 5\r\nAAAAA 6\nxx").unwrap().len(), 2);
}

#[test]
fn hands_are_ranked_from_the_strongest() {
    let mut hands = parse_lines(HANDS).unwrap();
    compute_hands(&mut hands);
    let bids: Vec<u32> = hands.iter().map(|h| h.bid).collect();
    assert_eq!(bids, vec![483, 684, 28, 220, 765]);
    let points: Vec<u32> = hands.iter().map(|h| h.points).collect();
    assert_eq!(points, vec![4, 4, 3, 3, 2]);
    let mut hands = parse_lines2(HANDS).unwrap();
    compute_hands2(&mut hands);
    let bids: Vec<u32> = hands.iter().map(|h| h.bid).collect();
    assert_eq!(bids, vec![220, 483, 684, 28, 765]);
}

#[test]
fn equal_hands_keep_their_order() {
    let mut hands = vec![hand(&[2, 2, 2, 2, 2], 10), hand(&[2, 2, 2, 2, 2], 1)];
    assert_eq!(compute_hands(&mut hands), Some(1 + 2 * 10));
    let mut hands = vec![hand(&[2, 2, 2, 2, 2], 1), hand(&[2, 2, 2, 2, 2], 10)];
    assert_eq!(compute_hands(&mut hands), Some(10 + 2));
}

#[test]
fn hands_of_no_kind_have_no_winnings() {
    let mut hands = vec![hand(&[2, 3, 4], 10)];
    assert_eq!(compute_hands(&mut hands), None);
    let mut hands = vec![hand(&[2, 3, 1], 10)];
    assert_eq!(compute_hands2(&mut hands), Some(10));
    let mut hands = vec![hand(&[1, 1, 1, 1, 1], 3)];
    assert_eq!(compute_hands2(&mut hands), Some(3));
    assert_eq!(compute_hands(&mut vec![]), Some(0));
}

#[test]
fn kinds_by_their_counts() {
    let points = |s: &str, jokers| kind_points(&s.chars().collect(), jokers);
    assert_eq!(points("11111", false), Some(1));
    assert_eq!(points("1112", false), Some(2));
    assert_eq!(points("122", false), Some(3));
    assert_eq!(points("113", false), Some(4));
    assert_eq!(points("23", false), Some(5));
    assert_eq!(points("14", false), Some(6));
    assert_eq!(points("5", false), Some(7));
    assert_eq!(points("1111", false), None);
    assert_eq!(points("1111", true), Some(2));
    assert_eq!(points("112", true), Some(4));
    assert_eq!(points("22", true), Some(5));
    assert_eq!(points("13", true), Some(6));
    assert_eq!(points("4", true), Some(7));
    assert_eq!(points("111", true), Some(4));
    assert_eq!(points("12", true), Some(6));
    assert_eq!(points("3", true), Some(7));
    assert_eq!(points("11", true), Some(6));
    assert_eq!(points("2", true), Some(7));
    assert_eq!(points("1", true), Some(7));
    assert_eq!(points("", true), Some(7));
    assert_eq!(points("", false), None);
    assert_eq!(points("6", true), None);
    assert_eq!(write_decimal(0), vec!['0']);
    assert_eq!(write_decimal(907), vec!['9', '0', '7']);
}
