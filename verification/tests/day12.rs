use advent_puzzles::day12::{new_cache, on_dot, on_hash, parse, parse2, recurse, solve};

const ROWS: &str = "???.### 1,1,3\n.??..??...?##. 1,1,3\n?#?#?#?#?#?#?#? 1,3,1,6\n????.#...#... 4,1,1\n????.######..#####. 1,6,5\n?###???????? 3,2,1\n";

fn count(seed: &str, groups: &[usize]) -> usize {
    let seed: Vec<char> = seed.chars().collect();
    let groups = groups.to_vec();
    let mut cache = new_cache(&seed, &groups);
    recurse(&seed, 0, &groups, 0, &mut cache)
}

#[test]
fn day12_t1() {
    let mut records = parse(ROWS);
    let res = solve(&mut records);
    assert_eq!(res, 21);
}

#[test]
fn day12_t3() {
    let mut records = parse2(ROWS);
    let res = solve(&mut records);
    assert_eq!(res, 525152);
}

#[test]
fn rows_are_read_and_unfolded() {
    let records = parse(".# 1\n???.### 1,1,3");
    assert_eq!(records.len(), 2);
    assert_eq!(records[0].seed, vec!['.', '#']);
    assert_eq!(records[0].groups, vec![1]);
    assert_eq!(records[1].groups, vec![1, 1, 3]);
    let records = parse2(".# 1");
    assert_eq!(records[0].seed, ".#?.#?.#?.#?.#".chars().collect::<Vec<char>>());
    assert_eq!(records[0].groups, vec![1, 1, 1, 1, 1]);
}

#[test]
fn arrangements_of_single_rows() {
    assert_eq!(count("???.###", &[1, 1, 3]), 1);
    assert_eq!(count(".??..??...?##.", &[1, 1, 3]), 4);
    assert_eq!(count("?###????????", &[3, 2, 1]), 10);
    assert_eq!(count("", &[]), 1);
    assert_eq!(count("", &[1]), 0);
    assert_eq!(count("...", &[]), 1);
    assert_eq!(count("#", &[]), 0);
    assert_eq!(count("?", &[]), 1);
    assert_eq!(count("?", &[1]), 1);
    assert_eq!(count("??", &[1]), 2);
    assert_eq!(count("##", &[1]), 0);
    assert_eq!(count("#.#", &[1, 1]), 1);
    assert_eq!(count("???", &[1, 1]), 1);
}

#[test]
fn first_spring_taken_either_way() {
    let seed: Vec<char> = "??".chars().collect();
    let groups = vec![1];
    let mut cache = new_cache(&seed, &groups);
    assert_eq!(on_dot(&seed, 0, &groups, 0, &mut cache), 1);
    assert_eq!(on_hash(&seed, 0, &groups, 0, &mut cache), 1);
    assert_eq!(recurse(&seed, 0, &groups, 0, &mut cache), 2);
    assert_eq!(cache[1][0], Some(1));
    assert_eq!(cache[2][1], Some(1));
}

#[test]
fn lines_that_are_no_rows() {
    assert!(advent_puzzles::day12::try_parse("???.###").is_none());
    assert!(advent_puzzles::day12::try_parse("???.### 1,x").is_none());
    assert!(advent_puzzles::day12::try_parse("???.### 1,,3").is_none());
    assert!(advent_puzzles::day12::try_parse(".# 1\n\n").is_none());
    assert_eq!(advent_puzzles::day12::try_parse(ROWS).unwrap().len(), 6);
    let records = advent_puzzles::day12::try_parse2(".# 1").unwrap();
    assert_eq!(records[0].groups, vec![1, 1, 1, 1, 1]);
    assert!(records[0].is_countable());
    let odd = advent_puzzles::day12::try_parse(".x 1").unwrap();
    assert!(!odd[0].is_countable());
    let large = advent_puzzles::day12::try_parse(".# 18446744073709551615,1").unwrap();
    assert!(!large[0].is_countable());
}

#[test]
fn arrangement_sums_that_cannot_be_computed() {
    let try_solve = advent_puzzles::day12::try_solve;
    assert_eq!(try_solve(&parse(ROWS)), Some(21));
    assert_eq!(try_solve(&parse2(ROWS)), Some(525152));
    assert_eq!(try_solve(&Vec::new()), Some(0));
    assert_eq!(try_solve(&parse("?x? 1")), None);
    let many = format!("{} 1", "?".repeat(60));
    assert_eq!(try_solve(&parse(&many)), Some(60));
    let wide = format!("{} {}", "?.".repeat(40), "1,".repeat(19) + "1");
    assert_eq!(try_solve(&parse(&wide)), Some(137846528820));
    let huge = format!("{} {}", "?.".repeat(100), "1,".repeat(49) + "1");
    assert_eq!(try_solve(&parse(&huge)), None);
    let rows = format!("{}\n{}\n", wide, many);
    assert_eq!(try_solve(&parse(&rows)), Some(137846528880));
}
