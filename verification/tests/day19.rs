use advent_puzzles::day19::{parse, parse_jump, solve, Operator, Rule};

const SORTING: &str = "px{a<2006:qkq,m>2090:A,rfg}\npv{a>1716:R,A}\nlnx{m>1548:A,A}\nrfg{s<537:gd,x>2440:R,A}\nqs{s>3448:A,lnx}\nqkq{x<1416:A,crn}\ncrn{x>2662:A,R}\nin{s<1351:px,qqz}\nqqz{s>2770:qs,m<1801:hdj,R}\ngd{a>3333:R,R}\nhdj{m>838:A,pv}\n\n{x=787,m=2655,a=1222,s=2876}\n{x=1679,m=44,a=2067,s=496}\n{x=2036,m=264,a=79,s=2244}\n{x=2461,m=1339,a=466,s=291}\n{x=2127,m=1623,a=2188,s=1013}\n";

#[test]
fn day19_t1() {
    let data = parse(SORTING).unwrap();
    assert_eq!(19114, solve(&data));
}

#[test]
fn workflows_and_parts_are_read() {
    let data = parse(SORTING).unwrap();
    assert_eq!(data.workflows.len(), 11);
    assert_eq!(data.categories.len(), 5);
    assert_eq!(data.workflows[0].name, vec!['p', 'x']);
    assert_eq!(data.workflows[0].jumps.len(), 3);
    assert_eq!(
        data.workflows[0].jumps[0].condition,
        Some(Rule { category: 'a', operator: Operator::LessThan, value: 2006 })
    );
    assert_eq!(data.workflows[0].jumps[0].destination, vec!['q', 'k', 'q']);
    assert_eq!(data.workflows[0].jumps[2].condition, None);
    assert_eq!(data.workflows[0].jumps[2].destination, vec!['r', 'f', 'g']);
    let ratings: Vec<u32> = data.categories[1].iter().map(|c| c.value).collect();
    assert_eq!(ratings, vec![1679, 44, 2067, 496]);
}

#[test]
fn jumps_with_and_without_conditions() {
    let text: Vec<char> = "sx,m>5:A,s<7".chars().collect();
    let (jump, end) = parse_jump(&text, 0).unwrap();
    assert_eq!((jump.destination, jump.condition, end), (vec!['s', 'x'], None, 2));
    let (jump, end) = parse_jump(&text, 3).unwrap();
    assert_eq!(jump.destination, vec!['A']);
    assert_eq!(jump.condition, Some(Rule { category: 'm', operator: Operator::GreaterThan, value: 5 }));
    assert_eq!(end, 8);
    let (jump, end) = parse_jump(&text, 9).unwrap();
    assert_eq!((jump.destination, jump.condition, end), (vec!['s'], None, 10));
    assert!(parse_jump(&text, 2).is_none());
}

#[test]
fn broken_texts() {
    assert!(parse("").is_none());
    assert!(parse("in{A}").is_none());
    assert!(parse("in{A}\n{x=1,m=1,a=1,s=1}").is_none());
    assert!(parse("in{A\n\n{x=1,m=1,a=1,s=1}").is_none());
    let data = parse("in{x>1:A,R}\r\n\r\n{x=1,m=1,a=1,s=1}\n{x=2,m=3,a=4,s=5}\ngarbage").unwrap();
    assert_eq!(data.categories.len(), 2);
    assert_eq!(solve(&data), 14);
}

#[test]
fn parts_that_cannot_be_sorted() {
    let sum = |text: &str| advent_puzzles::day19::try_solve(&parse(text).unwrap());
    assert_eq!(sum(SORTING), Some(19114));
    assert_eq!(sum("in{x>1:A,R}\n\n{x=2,m=3,a=4,s=5}"), Some(14));
    assert_eq!(sum("ab{A}\n\n{x=2,m=3,a=4,s=5}"), None);
    assert_eq!(sum("in{x>1:zz,R}\n\n{x=2,m=3,a=4,s=5}"), None);
    assert_eq!(sum("in{x>1:in,R}\n\n{x=2,m=3,a=4,s=5}"), None);
    assert_eq!(sum("in{x>5:A}\n\n{x=2,m=3,a=4,s=5}"), None);
    assert_eq!(sum("in{A}\n\n{x=2,m=3,a=4}"), None);
    assert_eq!(sum("in{A}\n\n{x=4294967295,m=1,a=0,s=0}"), None);
    assert_eq!(sum("in{A}\n\n{x=4294967295,m=0,a=0,s=0}\n{x=1,m=0,a=0,s=0}"), None);
    assert_eq!(sum("in{bb}\nbb{cc}\ncc{A}\n\n{x=1,m=1,a=1,s=1}"), Some(4));
}
