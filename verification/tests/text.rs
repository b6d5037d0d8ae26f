use advent_puzzles::text::{chars_of, code_of, digit_of, lines, parse_number, split};

fn text(s: &str) -> Vec<char> {
    s.chars().collect()
}

#[test]
fn chars_are_collected_in_order() {
    assert_eq!(chars_of("a|é"), vec!['a', '|', 'é']);
    assert_eq!(chars_of(""), Vec::<char>::new());
    assert_eq!(code_of('A'), 65);
}

#[test]
fn split_keeps_empty_pieces() {
    assert_eq!(split(&text("a,bc,,d"), ','), vec![text("a"), text("bc"), text(""), text("d")]);
    assert_eq!(split(&text(""), ','), vec![text("")]);
    assert_eq!(split(&text(","), ','), vec![text(""), text("")]);
}

#[test]
fn lines_drop_the_last_empty_piece_and_carriage_returns() {
    assert_eq!(lines(&text("ab\ncd\n")), vec![text("ab"), text("cd")]);
    assert_eq!(lines(&text("ab\r\ncd")), vec![text("ab"), text("cd")]);
    assert_eq!(lines(&text("ab\n\ncd")), vec![text("ab"), text(""), text("cd")]);
    assert_eq!(lines(&text("")), Vec::<Vec<char>>::new());
}

#[test]
fn numbers_are_read_or_refused() {
    assert_eq!(parse_number(&text("0")), Some(0));
    assert_eq!(parse_number(&text("0042")), Some(42));
    assert_eq!(parse_number(&text("18446744073709551615")), Some(u64::MAX));
    assert_eq!(parse_number(&text("18446744073709551616")), None);
    assert_eq!(parse_number(&text("99999999999999999999999")), None);
    assert_eq!(parse_number(&text("")), None);
    assert_eq!(parse_number(&text("12a")), None);
    assert_eq!(parse_number(&text("-1")), None);
    assert_eq!(digit_of('7'), Some(7));
    assert_eq!(digit_of('x'), None);
}

#[test]
fn carriage_return_stays_where_no_line_feed_follows() {
    assert_eq!(lines(&text("ab\r\ncd\r")), vec![text("ab"), text("cd\r")]);
    assert_eq!(lines(&text("ab\r")), vec![text("ab\r")]);
    assert_eq!(lines(&text("ab\r\n")), vec![text("ab")]);
    assert_eq!(lines(&text("a\rb\r\r\n")), vec![text("a\rb\r")]);
    let std_lines: Vec<Vec<char>> = "ab\r\ncd\r".lines().map(text).collect();
    assert_eq!(lines(&text("ab\r\ncd\r")), std_lines);
}
