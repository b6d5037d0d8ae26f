use crate::scan::has_at;
use crate::scan::line_end_at;
use crate::scan::number_at;
use crate::scan::run_end;
use crate::scan::skip_line_end;
use crate::scan::skip_literal;
use crate::scan::skip_run;
use crate::scan::take_number;
use crate::scan::Class;
use vstd::prelude::*;

verus! {

/// One map of an almanac: each range is a destination start, a source start
/// and a length.
#[derive(Debug)]
pub struct SeedMap {
    pub ranges: Vec<Vec<u64>>,
}

/// Whether a range has its three numbers, and neither its sources nor its
/// destinations leave 64 bits.
pub open spec fn range_ok(range: Seq<u64>) -> bool {
    range.len() >= 3 && range[0] + range[2] <= u64::MAX && range[1] + range[2] <= u64::MAX
}

impl SeedMap {
    /// Whether every range of the map has its three numbers and stays
    /// within 64 bits.
    pub open spec fn wf(&self) -> bool {
        forall|i: int| 0 <= i < self.ranges.len() ==> range_ok(#[trigger] self.ranges[i]@)
    }

    /// The ranges of the map as values.
    pub open spec fn view(&self) -> Seq<Seq<u64>> {
        Seq::new(self.ranges.len() as nat, |i: int| self.ranges[i]@)
    }
}

/// What the first of the ranges from index `from` on that holds `key` among
/// its sources maps it to, or `key` itself where none does. With `forward`
/// the sources of a range start at its second number and its destinations at
/// its first; without, the other way round.
pub open spec fn mapped_from(ranges: Seq<Seq<u64>>, key: u64, forward: bool, from: int) -> u64
    decreases ranges.len() - from,
{
    if from < 0 || from >= ranges.len() {
        key
    } else {
        let range = ranges[from];
        let src = if forward {
            range[1]
        } else {
            range[0]
        };
        let dst = if forward {
            range[0]
        } else {
            range[1]
        };
        if key >= src && key < src + range[2] {
            (dst + (key - src)) as u64
        } else {
            mapped_from(ranges, key, forward, from + 1)
        }
    }
}

/// The number that a map gives for `key`.
pub open spec fn mapped(ranges: Seq<Seq<u64>>, key: u64, forward: bool) -> u64 {
    mapped_from(ranges, key, forward, 0)
}

/// The number that the first `k` maps, one after the other, give for a seed.
pub open spec fn location_upto(maps: Seq<Seq<Seq<u64>>>, seed: u64, k: nat) -> u64
    decreases k,
{
    if k == 0 || k > maps.len() {
        seed
    } else {
        mapped(maps[k - 1], location_upto(maps, seed, (k - 1) as nat), true)
    }
}

/// The location of a seed.
pub open spec fn location(maps: Seq<Seq<Seq<u64>>>, seed: u64) -> u64 {
    location_upto(maps, seed, maps.len())
}

/// The number that the last `k` maps, followed backwards from the last,
/// give for a location.
pub open spec fn origin_upto(maps: Seq<Seq<Seq<u64>>>, place: u64, k: nat) -> u64
    decreases k,
{
    if k == 0 || k > maps.len() {
        place
    } else {
        mapped(maps[maps.len() - k], origin_upto(maps, place, (k - 1) as nat), false)
    }
}

/// The seed that a location comes from.
pub open spec fn origin(maps: Seq<Seq<Seq<u64>>>, place: u64) -> u64 {
    origin_upto(maps, place, maps.len())
}

/// The maps as values.
pub open spec fn views(maps: Seq<SeedMap>) -> Seq<Seq<Seq<u64>>> {
    Seq::new(maps.len(), |i: int| maps[i]@)
}

fn apply(map: &SeedMap, key: u64, forward: bool) -> (r: u64)
    requires
        map.wf(),
    ensures
        r == mapped(map@, key, forward),
{
    let n = map.ranges.len();
    let mut i: usize = 0;
    while i < n
        invariant
            n == map.ranges.len(),
            i <= n,
            map.wf(),
            mapped(map@, key, forward) == mapped_from(map@, key, forward, i as int),
        decreases n - i,
    {
        let range = &map.ranges[i];
        assert(range_ok(map.ranges[i as int]@));
        assert(map@[i as int] == range@);
        let src = if forward {
            range[1]
        } else {
            range[0]
        };
        let dst = if forward {
            range[0]
        } else {
            range[1]
        };
        let len = range[2];
        if key >= src && key < src + len {
            let distance = key - src;
            return dst + distance;
        }
        i = i + 1;
    }
    key
}

/// The least of the locations of the first `k` seeds; the largest number
/// where there is no seed.
pub open spec fn closest_upto(seeds: Seq<u64>, maps: Seq<Seq<Seq<u64>>>, k: nat) -> u64
    decreases k,
{
    if k == 0 || k > seeds.len() {
        u64::MAX
    } else {
        let before = closest_upto(seeds, maps, (k - 1) as nat);
        let here = location(maps, seeds[k - 1]);
        if here < before {
            here
        } else {
            before
        }
    }
}

/// Whether every map is well formed.
pub open spec fn all_wf(maps: Seq<SeedMap>) -> bool {
    forall|i: int| 0 <= i < maps.len() ==> (#[trigger] maps[i]).wf()
}

/// The least location of a seed.
pub fn find_closest_location(seeds: &Vec<u64>, maps: &Vec<SeedMap>) -> (closest: u64)
    requires
        all_wf(maps@),
    ensures
        closest == closest_upto(seeds@, views(maps@), seeds.len() as nat),
{
    let mut closest_location = u64::MAX;
    let mut s: usize = 0;
    while s < seeds.len()
        invariant
            s <= seeds.len(),
            all_wf(maps@),
            closest_location == closest_upto(seeds@, views(maps@), s as nat),
        decreases seeds.len() - s,
    {
        let mut key = seeds[s];
        let mut m: usize = 0;
        while m < maps.len()
            invariant
                m <= maps.len(),
                s < seeds.len(),
                all_wf(maps@),
                key == location_upto(views(maps@), seeds[s as int], m as nat),
            decreases maps.len() - m,
        {
            assert(maps[m as int].wf());
            assert(views(maps@)[m as int] == maps[m as int]@);
            key = apply(&maps[m], key, true);
            m = m + 1;
        }
        if key < closest_location {
            closest_location = key;
        }
        s = s + 1;
    }
    closest_location
}

/// Whether `key` is among the seeds that the first `k` pairs of a start and
/// a length describe.
pub open spec fn is_seed_upto(seeds: Seq<u64>, key: u64, k: nat) -> bool
    decreases k,
{
    if k == 0 || 2 * k > seeds.len() {
        false
    } else {
        is_seed_upto(seeds, key, (k - 1) as nat) || (key >= seeds[2 * k - 2] && key < seeds[2 * k
            - 2] + seeds[2 * k - 1])
    }
}

/// Whether `key` is a seed.
pub open spec fn is_seed(seeds: Seq<u64>, key: u64) -> bool {
    is_seed_upto(seeds, key, seeds.len() / 2)
}

/// Whether the seeds come in pairs of a start and a length that stay within
/// 64 bits.
pub open spec fn seeds_ok(seeds: Seq<u64>) -> bool {
    seeds.len() % 2 == 0 && forall|k: int|
        0 <= k < seeds.len() / 2 ==> #[trigger] seeds[2 * k] + seeds[2 * k + 1] <= u64::MAX
}

fn origin_of(maps: &Vec<SeedMap>, place: u64) -> (key: u64)
    requires
        all_wf(maps@),
    ensures
        key == origin(views(maps@), place),
{
    let mut key = place;
    let n = maps.len();
    let mut k: usize = 0;
    while k < n
        invariant
            n == maps.len(),
            k <= n,
            all_wf(maps@),
            key == origin_upto(views(maps@), place, k as nat),
        decreases n - k,
    {
        assert(maps[n - 1 - k].wf());
        assert(views(maps@)[n - 1 - k] == maps[n - 1 - k]@);
        key = apply(&maps[n - 1 - k], key, false);
        k = k + 1;
    }
    key
}

fn among_seeds(seeds: &Vec<u64>, key: u64) -> (r: bool)
    requires
        seeds_ok(seeds@),
    ensures
        r == is_seed(seeds@, key),
{
    let pairs = seeds.len() / 2;
    let mut k: usize = 0;
    while k < pairs
        invariant
            pairs == seeds.len() / 2,
            k <= pairs,
            seeds_ok(seeds@),
            !is_seed_upto(seeds@, key, k as nat),
        decreases pairs - k,
    {
        assert(seeds[2 * k as int] + seeds[2 * k + 1] <= u64::MAX);
        let start = seeds[2 * k];
        let end = seeds[2 * k] + seeds[2 * k + 1];
        if key >= start && key < end {
            assert(is_seed_upto(seeds@, key, (k + 1) as nat));
            proof {
                lemma_seed_stays(seeds@, key, (k + 1) as nat, pairs as nat);
            }
            return true;
        }
        k = k + 1;
    }
    false
}

proof fn lemma_seed_stays(seeds: Seq<u64>, key: u64, k: nat, m: nat)
    requires
        k <= m,
        2 * m <= seeds.len(),
        is_seed_upto(seeds, key, k),
    ensures
        is_seed_upto(seeds, key, m),
    decreases m - k,
{
    if k < m {
        lemma_seed_stays(seeds, key, k, (m - 1) as nat);
    }
}

/// The least location that comes from a seed, the seeds being given as
/// pairs of a start and a length. The locations are tried from zero upwards.
pub fn find_closest_location2(seeds: &Vec<u64>, maps: &Vec<SeedMap>) -> (closest: u64)
    requires
        all_wf(maps@),
        seeds_ok(seeds@),
        exists|place: u64| place < u64::MAX && is_seed(seeds@, #[trigger] origin(views(maps@), place)),
    ensures
        is_seed(seeds@, origin(views(maps@), closest)),
        forall|place: u64| place < closest ==> !is_seed(seeds@, #[trigger] origin(views(maps@), place)),
{
    try_find_closest_location2(seeds, maps).unwrap()
}

/// The least location that comes from a seed, the seeds being given as
/// pairs of a start and a length, if one does. The locations are tried from
/// zero upwards.
pub fn try_find_closest_location2(seeds: &Vec<u64>, maps: &Vec<SeedMap>) -> (r: Option<u64>)
    requires
        all_wf(maps@),
        seeds_ok(seeds@),
    ensures
        match r {
            Some(closest) => closest < u64::MAX && is_seed(seeds@, origin(views(maps@), closest))
                && forall|place: u64|
                place < closest ==> !is_seed(seeds@, #[trigger] origin(views(maps@), place)),
            None => forall|place: u64|
                place < u64::MAX ==> !is_seed(seeds@, #[trigger] origin(views(maps@), place)),
        },
{
    let mut location: u64 = 0;
    while location < u64::MAX
        invariant
            all_wf(maps@),
            seeds_ok(seeds@),
            forall|place: u64|
                place < location ==> !is_seed(seeds@, #[trigger] origin(views(maps@), place)),
        decreases u64::MAX - location,
    {
        let key = origin_of(maps, location);
        if among_seeds(seeds, key) {
            return Some(location);
        }
        location = location + 1;
    }
    None
}

/// The numbers of a list, after some have been read up to `from`: further
/// ones follow while blanks and a number do.
pub open spec fn numbers_from(s: Seq<char>, from: int, done: Seq<u64>) -> (Seq<u64>, int)
    decreases s.len() - from,
{
    let gap = run_end(s, from, Class::Blank);
    if gap > from {
        match number_at(s, gap) {
            Some((v, end)) => if from < end <= s.len() {
                numbers_from(s, end, done.push(v))
            } else {
                (done, from)
            },
            None => (done, from),
        }
    } else {
        (done, from)
    }
}

/// A list of numbers separated by blanks, none at all included.
pub open spec fn numbers_at(s: Seq<char>, from: int) -> (Seq<u64>, int) {
    match number_at(s, from) {
        Some((v, end)) => numbers_from(s, end, seq![v]),
        None => (Seq::empty(), from),
    }
}

/// The seeds at `from`: `seeds:`, a space, numbers separated by blanks, and
/// two line ends.
pub open spec fn seeds_at(s: Seq<char>, from: int) -> Option<(Seq<u64>, int)> {
    if has_at(s, from, seq!['s', 'e', 'e', 'd', 's', ':', ' ']) {
        let (seeds, end) = numbers_at(s, from + 7);
        match line_end_at(s, end) {
            Some(a) => match line_end_at(s, a) {
                Some(b) => Some((seeds, b)),
                None => None,
            },
            None => None,
        }
    } else {
        None
    }
}

/// Where the line that `from` stands in ends.
pub open spec fn line_stop(s: Seq<char>, from: int) -> int
    decreases s.len() - from,
{
    if from < 0 || from >= s.len() || s[from] == '\n' || s[from] == '\r' {
        from
    } else {
        line_stop(s, from + 1)
    }
}

/// The ranges of a map, after some have been read up to `from`: further
/// ones follow while a line end and a list of at least one number do.
pub open spec fn ranges_from(s: Seq<char>, from: int, done: Seq<Seq<u64>>) -> (Seq<Seq<u64>>, int)
    decreases s.len() - from,
{
    match line_end_at(s, from) {
        Some(next) => {
            let (range, end) = numbers_at(s, next);
            if range.len() > 0 && from < end <= s.len() {
                ranges_from(s, end, done.push(range))
            } else {
                (done, from)
            }
        },
        None => (done, from),
    }
}

/// A map at `from`: a line with its name, and its ranges, one to a line.
pub open spec fn map_at(s: Seq<char>, from: int) -> Option<(Seq<Seq<u64>>, int)> {
    match line_end_at(s, line_stop(s, from)) {
        Some(start) => {
            let (first, end) = numbers_at(s, start);
            if first.len() > 0 {
                Some(ranges_from(s, end, seq![first]))
            } else {
                Some((Seq::empty(), start))
            }
        },
        None => None,
    }
}

/// The maps of a text, after some have been read up to `from`: further ones
/// follow while two line feeds and a map do.
pub open spec fn maps_from(s: Seq<char>, from: int, done: Seq<Seq<Seq<u64>>>) -> Seq<Seq<Seq<u64>>>
    decreases s.len() - from,
{
    if has_at(s, from, seq!['\n', '\n']) {
        match map_at(s, from + 2) {
            Some((map, end)) => if from < end <= s.len() {
                maps_from(s, end, done.push(map))
            } else {
                done
            },
            None => done,
        }
    } else {
        done
    }
}

/// The maps at `from`, an empty line between them; nothing where the first
/// is none.
pub open spec fn maps_at(s: Seq<char>, from: int) -> Option<Seq<Seq<Seq<u64>>>> {
    match map_at(s, from) {
        Some((map, end)) => Some(maps_from(s, end, seq![map])),
        None => None,
    }
}

fn parse_numbers(text: &Vec<char>, from: usize) -> (r: (Vec<u64>, usize))
    requires
        from <= text.len(),
    ensures
        numbers_at(text@, from as int) == (r.0@, r.1 as int),
        from <= r.1 <= text.len(),
        r.0.len() > 0 ==> from < r.1,
{
    let mut numbers: Vec<u64> = Vec::new();
    let (first, mut at) = match take_number(text, from) {
        Some(found) => found,
        None => {
            return (numbers, from);
        },
    };
    numbers.push(first);
    assert(numbers@ =~= seq![first]);
    loop
        invariant
            from < at <= text.len(),
            numbers.len() > 0,
            numbers_at(text@, from as int) == numbers_from(text@, at as int, numbers@),
        ensures
            numbers_at(text@, from as int) == (numbers@, at as int),
            from < at <= text.len(),
            numbers.len() > 0,
        decreases text.len() - at,
    {
        let gap = skip_run(text, at, Class::Blank);
        if gap == at {
            break ;
        }
        match take_number(text, gap) {
            Some((v, end)) => {
                numbers.push(v);
                at = end;
            },
            None => {
                break ;
            },
        }
    }
    (numbers, at)
}

/// Reads the seeds.
pub fn parse_seeds(text: &Vec<char>, from: usize) -> (r: Option<(Vec<u64>, usize)>)
    requires
        from <= text.len(),
    ensures
        match r {
            Some((seeds, end)) => seeds_at(text@, from as int) == Some((seeds@, end as int)) && from
                < end <= text.len(),
            None => seeds_at(text@, from as int) is None,
        },
{
    let start = match skip_literal(text, from, &vec!['s', 'e', 'e', 'd', 's', ':', ' ']) {
        Some(next) => next,
        None => {
            return None;
        },
    };
    let (seeds, end) = parse_numbers(text, start);
    let a = match skip_line_end(text, end) {
        Some(next) => next,
        None => {
            return None;
        },
    };
    match skip_line_end(text, a) {
        Some(b) => Some((seeds, b)),
        None => None,
    }
}

fn skip_line(text: &Vec<char>, from: usize) -> (end: usize)
    requires
        from <= text.len(),
    ensures
        end == line_stop(text@, from as int),
        from <= end <= text.len(),
{
    let mut i = from;
    while i < text.len() && text[i] != '\n' && text[i] != '\r'
        invariant
            from <= i <= text.len(),
            line_stop(text@, from as int) == line_stop(text@, i as int),
        decreases text.len() - i,
    {
        i = i + 1;
    }
    i
}

/// Reads a map.
pub fn parse_map(text: &Vec<char>, from: usize) -> (r: Option<(SeedMap, usize)>)
    requires
        from <= text.len(),
    ensures
        match r {
            Some((map, end)) => map_at(text@, from as int) == Some((map@, end as int)) && from < end
                <= text.len(),
            None => map_at(text@, from as int) is None,
        },
{
    let stop = skip_line(text, from);
    let start = match skip_line_end(text, stop) {
        Some(next) => next,
        None => {
            return None;
        },
    };
    let mut ranges: Vec<Vec<u64>> = Vec::new();
    let (first, end) = parse_numbers(text, start);
    if first.len() == 0 {
        let map = SeedMap { ranges };
        assert(map@ =~= Seq::<Seq<u64>>::empty());
        return Some((map, start));
    }
    let ghost whole = ranges_from(text@, end as int, seq![first@]);
    let ghost mut done = seq![first@];
    ranges.push(first);
    let mut at = end;
    loop
        invariant
            start < at <= text.len(),
            done.len() == ranges.len(),
            forall|i: int| 0 <= i < ranges.len() ==> (#[trigger] ranges[i])@ == done[i],
            whole == ranges_from(text@, at as int, done),
        ensures
            start < at <= text.len(),
            done.len() == ranges.len(),
            forall|i: int| 0 <= i < ranges.len() ==> (#[trigger] ranges[i])@ == done[i],
            whole == (done, at as int),
        decreases text.len() - at,
    {
        let next = match skip_line_end(text, at) {
            Some(next) => next,
            None => {
                break ;
            },
        };
        let (range, end) = parse_numbers(text, next);
        if range.len() == 0 {
            break ;
        }
        proof {
            done = done.push(range@);
        }
        ranges.push(range);
        at = end;
    }
    let map = SeedMap { ranges };
    assert(map@ =~= done);
    Some((map, at))
}

/// Reads the maps.
pub fn parse_maps(text: &Vec<char>, from: usize) -> (r: Option<Vec<SeedMap>>)
    requires
        from <= text.len(),
    ensures
        match r {
            Some(maps) => maps_at(text@, from as int) == Some(views(maps@)),
            None => maps_at(text@, from as int) is None,
        },
{
    let (first, mut at) = match parse_map(text, from) {
        Some(found) => found,
        None => {
            return None;
        },
    };
    let ghost mut done = seq![first@];
    let mut maps: Vec<SeedMap> = Vec::new();
    maps.push(first);
    loop
        invariant
            at <= text.len(),
            done.len() == maps.len(),
            forall|i: int| 0 <= i < maps.len() ==> (#[trigger] maps[i])@ == done[i],
            maps_at(text@, from as int) == Some(maps_from(text@, at as int, done)),
        ensures
            done.len() == maps.len(),
            forall|i: int| 0 <= i < maps.len() ==> (#[trigger] maps[i])@ == done[i],
            maps_at(text@, from as int) == Some(done),
        decreases text.len() - at,
    {
        let next = match skip_literal(text, at, &vec!['\n', '\n']) {
            Some(next) => next,
            None => {
                break ;
            },
        };
        match parse_map(text, next) {
            Some((map, end)) => {
                proof {
                    done = done.push(map@);
                }
                maps.push(map);
                at = end;
            },
            None => {
                break ;
            },
        }
    }
    assert(views(maps@) =~= done);
    Some(maps)
}

impl SeedMap {
    /// Whether every range of the map has its three numbers and stays
    /// within 64 bits.
    pub fn is_well_formed(&self) -> (r: bool)
        ensures
            r == self.wf(),
    {
        let mut i: usize = 0;
        while i < self.ranges.len()
            invariant
                i <= self.ranges.len(),
                forall|k: int| 0 <= k < i ==> range_ok(#[trigger] self.ranges[k]@),
            decreases self.ranges.len() - i,
        {
            let range = &self.ranges[i];
            if range.len() < 3 || range[0] > u64::MAX - range[2] || range[1] > u64::MAX - range[2] {
                assert(!range_ok(self.ranges[i as int]@));
                return false;
            }
            i = i + 1;
        }
        true
    }
}

/// Whether the seeds come in pairs of a start and a length that stay within
/// 64 bits.
pub fn seeds_in_pairs(seeds: &Vec<u64>) -> (r: bool)
    ensures
        r == seeds_ok(seeds@),
{
    if seeds.len() % 2 != 0 {
        return false;
    }
    let pairs = seeds.len() / 2;
    let mut k: usize = 0;
    while k < pairs
        invariant
            pairs == seeds.len() / 2,
            seeds.len() % 2 == 0,
            k <= pairs,
            forall|j: int| 0 <= j < k ==> #[trigger] seeds[2 * j] + seeds[2 * j + 1] <= u64::MAX,
        decreases pairs - k,
    {
        if seeds[2 * k] > u64::MAX - seeds[2 * k + 1] {
            assert(!(seeds[2 * k as int] + seeds[2 * k + 1] <= u64::MAX));
            return false;
        }
        k = k + 1;
    }
    true
}

} // verus!
