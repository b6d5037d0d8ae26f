use advent_puzzles::day15::{aoc_hash, get_steps, parse, solve, Operation};

const SEQUENCE: &str = "rn=1,cm-,qp=3,cm=2,qp-,pc=4,ot=9,ab=5,pc-,pc=6,ot=7";

#[test]
fn day15_t1() {
    let data = parse(SEQUENCE);
    assert_eq!(1320, solve(&data));
}

#[test]
fn hash_of_a_word() {
    assert_eq!(aoc_hash(&"HASH".chars().collect()), 52);
    assert_eq!(aoc_hash(&"rn=1".chars().collect()), 30);
    assert_eq!(aoc_hash(&Vec::new()), 0);
}

#[test]
fn steps_split_at_commas() {
    let data = parse("ab=1,c-");
    assert_eq!(data, vec![vec!['a', 'b', '=', '1'], vec!['c', '-']]);
    assert_eq!(parse(""), vec![Vec::<char>::new()]);
}

#[test]
fn steps_are_read() {
    let steps = get_steps(&parse(SEQUENCE));
    assert_eq!(steps.len(), 11);
    assert_eq!(steps[0].operation, Operation::Insert);
    assert_eq!(steps[0].chest.label, vec!['r', 'n']);
    assert_eq!(steps[0].chest.chest_id, 0);
    assert_eq!(steps[0].chest.focal_length, 1);
    assert_eq!(steps[1].operation, Operation::Remove);
    assert_eq!(steps[1].chest.label, vec!['c', 'm']);
    assert_eq!(steps[1].chest.chest_id, 0);
    assert_eq!(steps[1].chest.focal_length, 0);
    assert_eq!(steps[5].chest.chest_id, 3);
    assert_eq!(steps[10].chest.focal_length, 7);
}

#[test]
fn day15_t3() {
    let data = parse(SEQUENCE);
    assert_eq!(145, advent_puzzles::day15::solve2(&data));
}

#[test]
fn lenses_are_replaced_in_place_and_removed() {
    let power = |s: &str| advent_puzzles::day15::solve2(&parse(s));
    assert_eq!(power("rn=1"), 1);
    assert_eq!(power("rn=1,cm=2"), 1 + 4);
    assert_eq!(power("rn=1,cm=2,rn=7"), 7 + 4);
    assert_eq!(power("rn=1,cm=2,rn-"), 2);
    assert_eq!(power("rn=1,cm-,xx-"), 1);
    assert_eq!(power("pc=4"), 16);
}

#[test]
fn steps_that_cannot_be_read() {
    let read = |s: &str| advent_puzzles::day15::try_get_steps(&parse(s)).map(|steps| steps.len());
    assert_eq!(read(SEQUENCE), Some(11));
    assert_eq!(read("rn"), None);
    assert_eq!(read("rn="), None);
    assert_eq!(read("rn=x"), None);
    assert_eq!(read("rn=1,"), None);
    assert_eq!(read("rn-x,=2"), Some(2));
    assert!(advent_puzzles::day15::check_step(&"a-".chars().collect()));
    assert!(!advent_puzzles::day15::check_step(&"a=99999999999999999999999".chars().collect()));
}

#[test]
fn focusing_power_that_cannot_be_computed() {
    let power = |s: &str| advent_puzzles::day15::try_solve2(&parse(s));
    assert_eq!(power(SEQUENCE), Some(145));
    assert_eq!(power("rn=1,cm=2,rn=7"), Some(11));
    assert_eq!(power("rn=1,cm-,xx-"), Some(1));
    assert_eq!(power("rn"), None);
    assert_eq!(power("rn=x"), None);
    assert_eq!(power("rn=18446744073709551615"), Some(usize::MAX));
    assert_eq!(power("rn=18446744073709551615,cm=1"), None);
    assert_eq!(power("pc=18446744073709551615"), None);
    assert_eq!(power("rn=18446744073709551615,rn-"), Some(0));
}
