use advent_puzzles::day8::parse_entries;
use advent_puzzles::day8::{lcmm, walk, walk2, walk3, Network};

fn name(s: &str) -> Vec<char> {
    s.chars().collect()
}

fn network(entries: &[(&str, &str, &str)]) -> Network {
    let index = |n: &str| entries.iter().position(|e| e.0 == n).unwrap();
    Network {
        names: entries.iter().map(|e| name(e.0)).collect(),
        jumps: entries.iter().map(|e| (index(e.1), index(e.2))).collect(),
    }
}

#[test]
fn day8_t1() {
    let net = network(&[("AAA", "BBB", "BBB"), ("BBB", "AAA", "ZZZ"), ("ZZZ", "ZZZ", "ZZZ")]);
    let steps = walk(0, &name("LLR"), &net);
    assert_eq!(steps, 6);
}

#[test]
fn day8_t3() {
    let net = network(&[
        ("11A", "11B", "XXX"),
        ("11B", "XXX", "11Z"),
        ("11Z", "11B", "XXX"),
        ("22A", "22B", "XXX"),
        ("22B", "22C", "22C"),
        ("22C", "22Z", "22Z"),
        ("22Z", "22B", "22B"),
        ("XXX", "XXX", "XXX"),
    ]);
    let steps = walk3(&name("LR"), &net);
    assert_eq!(steps, 6);
}

#[test]
fn walks_follow_the_directions() {
    let net = network(&[
        ("AAA", "BBB", "CCC"),
        ("BBB", "DDD", "EEE"),
        ("CCC", "ZZZ", "GGG"),
        ("DDD", "DDD", "DDD"),
        ("EEE", "EEE", "EEE"),
        ("GGG", "GGG", "GGG"),
        ("ZZZ", "ZZZ", "ZZZ"),
    ]);
    assert_eq!(walk(0, &name("RL"), &net), 2);
    assert_eq!(walk2(0, &name("RL"), &net), 2);
    assert_eq!(walk(6, &name("RL"), &net), 1);
    let net = network(&[("XXA", "XXZ", "XXA"), ("XXZ", "XXZ", "XXZ")]);
    assert_eq!(walk2(0, &name("RRL"), &net), 3);
}

#[test]
fn least_common_multiples() {
    assert_eq!(lcmm(vec![7]), 7);
    assert_eq!(lcmm(vec![4, 6]), 12);
    assert_eq!(lcmm(vec![2, 3, 4]), 12);
    assert_eq!(lcmm(vec![6, 10, 15, 1]), 30);
    assert_eq!(lcmm(vec![5, 5]), 5);
}

#[test]
fn network_is_read() {
    let (directions, net) =
        parse_entries("LLR\n\nAAA = (BBB, BBB)\nBBB = (AAA, ZZZ)\nZZZ = (ZZZ, ZZZ)\n")
            .unwrap();
    assert_eq!(directions, name("LLR"));
    assert_eq!(net.names, vec![name("AAA"), name("BBB"), name("ZZZ")]);
    assert_eq!(net.jumps, vec![(1, 1), (0, 2), (2, 2)]);
    assert_eq!(walk(0, &directions, &net), 6);
}

#[test]
fn broken_networks() {
    assert!(parse_entries("").is_none());
    assert!(parse_entries("LXR\n\nAAA = (AAA, AAA)").is_none());
    assert!(parse_entries("LR\nAAA = (AAA, AAA)").is_none());
    assert!(parse_entries("LR\n\nAAA = (AAA, BBB)").is_none());
    assert!(parse_entries("LR\n\nAAA = (AAA,AAA)").is_none());
    let (_, net) = parse_entries("R\r\n\r\n1A = (1A, 1A)\r\nrest").unwrap();
    assert_eq!(net.jumps, vec![(0, 0)]);
}

#[test]
fn least_common_multiple_with_a_zero_is_zero() {
    assert_eq!(lcmm(vec![0]), 0);
    assert_eq!(lcmm(vec![4, 0]), 0);
    assert_eq!(lcmm(vec![0, 6]), 0);
    assert_eq!(lcmm(vec![0, 0]), 0);
    assert_eq!(lcmm(vec![3, 0, 5]), 0);
    assert_eq!(lcmm(vec![usize::MAX, 0, 4, 6]), 0);
    assert_eq!(lcmm(vec![usize::MAX, 1]), usize::MAX);
}

#[test]
fn walks_that_end_are_counted() {
    let try_walk = advent_puzzles::day8::try_walk;
    let try_walk2 = advent_puzzles::day8::try_walk2;
    let net = network(&[("AAA", "BBB", "BBB"), ("BBB", "AAA", "ZZZ"), ("ZZZ", "ZZZ", "ZZZ")]);
    assert_eq!(try_walk(0, &name("LLR"), &net), Some(6));
    assert_eq!(try_walk(1, &name("R"), &net), Some(1));
    assert_eq!(try_walk(2, &name("L"), &net), Some(1));
    assert_eq!(try_walk2(0, &name("LLR"), &net), Some(6));
    let net = network(&[("XXA", "XXZ", "XXA"), ("XXZ", "XXZ", "XXZ")]);
    assert_eq!(try_walk2(0, &name("RRL"), &net), Some(3));
}
