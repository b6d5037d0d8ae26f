use advent_puzzles::day5::{parse_maps, parse_seeds};
use advent_puzzles::day5::{find_closest_location, find_closest_location2, SeedMap};

fn almanac() -> (Vec<u64>, Vec<SeedMap>) {
    let seeds = vec![79, 14, 55, 13];
    let maps = vec![
        SeedMap { ranges: vec![vec![50, 98, 2], vec![52, 50, 48]] },
        SeedMap { ranges: vec![vec![0, 15, 37], vec![37, 52, 2], vec![39, 0, 15]] },
        SeedMap {
            ranges: vec![vec![49, 53, 8], vec![0, 11, 42], vec![42, 0, 7], vec![57, 7, 4]],
        },
        SeedMap { ranges: vec![vec![88, 18, 7], vec![18, 25, 70]] },
        SeedMap { ranges: vec![vec![45, 77, 23], vec![81, 45, 19], vec![68, 64, 13]] },
        SeedMap { ranges: vec![vec![0, 69, 1], vec![1, 0, 69]] },
        SeedMap { ranges: vec![vec![60, 56, 37], vec![56, 93, 4]] },
    ];
    (seeds, maps)
}

#[test]
fn day5_t1() {
    let (seeds, maps) = almanac();
    assert_eq!(35, find_closest_location(&seeds, &maps));
}

#[test]
fn day5_t3() {
    let (seeds, maps) = almanac();
    assert_eq!(46, find_closest_location2(&seeds, &maps));
}

#[test]
fn unmapped_numbers_stay() {
    let maps = vec![SeedMap { ranges: vec![vec![100, 10, 5]] }];
    assert_eq!(find_closest_location(&vec![9], &maps), 9);
    assert_eq!(find_closest_location(&vec![10], &maps), 100);
    assert_eq!(find_closest_location(&vec![14], &maps), 104);
    assert_eq!(find_closest_location(&vec![15], &maps), 15);
    assert_eq!(find_closest_location(&vec![], &maps), u64::MAX);
    assert_eq!(find_closest_location(&vec![12, 3], &vec![]), 3);
}

#[test]
fn first_matching_range_wins() {
    let maps = vec![SeedMap { ranges: vec![vec![100, 10, 5], vec![200, 12, 5]] }];
    assert_eq!(find_closest_location(&vec![13], &maps), 103);
    assert_eq!(find_closest_location(&vec![16], &maps), 204);
    let back = vec![SeedMap { ranges: vec![vec![5, 10, 5]] }];
    assert_eq!(find_closest_location(&vec![12], &back), 7);
    assert_eq!(find_closest_location2(&vec![12, 1], &back), 7);
    assert_eq!(find_closest_location2(&vec![3, 2], &maps), 3);
}

#[test]
fn almanac_is_read() {
    let text: Vec<char> = "seeds: 79 14 55 13\n\nseed-to-soil map:\n50 98 2\n52 50 48\n\nsoil-to-fertilizer map:\n0 15 37\n37 52 2\n39 0 15\n".chars().collect();
    let (seeds, next) = parse_seeds(&text, 0).unwrap();
    assert_eq!(seeds, vec![79, 14, 55, 13]);
    let maps = parse_maps(&text, next).unwrap();
    assert_eq!(maps.len(), 2);
    assert_eq!(maps[0].ranges, vec![vec![50, 98, 2], vec![52, 50, 48]]);
    assert_eq!(maps[1].ranges, vec![vec![0, 15, 37], vec![37, 52, 2], vec![39, 0, 15]]);
    assert_eq!(find_closest_location(&seeds, &maps), 52);
    assert!(parse_seeds(&text, 1).is_none());
    let text: Vec<char> = "seeds: 1\n".chars().collect();
    assert!(parse_seeds(&text, 0).is_none());
    let text: Vec<char> = "name".chars().collect();
    assert!(parse_maps(&text, 0).is_none());
    let text: Vec<char> = "name\n".chars().collect();
    assert_eq!(parse_maps(&text, 0).unwrap()[0].ranges, Vec::<Vec<u64>>::new());
}

#[test]
fn maps_and_seeds_that_are_not_well_formed() {
    assert!(SeedMap { ranges: vec![vec![1, 2, 3]] }.is_well_formed());
    assert!(!SeedMap { ranges: vec![vec![1, 2]] }.is_well_formed());
    assert!(!SeedMap { ranges: vec![vec![1, u64::MAX, 1]] }.is_well_formed());
    assert!(SeedMap { ranges: vec![vec![1, u64::MAX, 0]] }.is_well_formed());
    assert!(advent_puzzles::day5::seeds_in_pairs(&vec![1, 2, 3, 4]));
    assert!(!advent_puzzles::day5::seeds_in_pairs(&vec![1, 2, 3]));
    assert!(!advent_puzzles::day5::seeds_in_pairs(&vec![u64::MAX, 1]));
    assert!(advent_puzzles::day5::seeds_in_pairs(&vec![]));
}

#[test]
fn least_location_of_seed_ranges_if_there_is_one() {
    let search = advent_puzzles::day5::try_find_closest_location2;
    let (seeds, maps) = almanac();
    assert_eq!(search(&seeds, &maps), Some(46));
    assert_eq!(search(&vec![5, 2], &vec![]), Some(5));
    let maps = vec![SeedMap { ranges: vec![vec![2, 12, 3]] }];
    assert_eq!(search(&vec![12, 3], &maps), Some(2));
    assert_eq!(search(&vec![14, 1], &maps), Some(4));
}
