use crate::text::all_digits;
use crate::text::chars_of;
use crate::text::decimal_value;
use crate::text::lines;
use crate::text::lines_spec;
use crate::text::parse_number;
use crate::text::split;
use crate::text::split_spec;
use crate::text::views;
use vstd::prelude::*;

verus! {

/// A row of springs: the condition of each, as far as it is known, and the
/// sizes of the groups of damaged springs.
#[derive(Debug)]
pub struct Record {
    pub seed: Vec<char>,
    pub groups: Vec<usize>,
}

/// What is known of the arrangements of the rows that have been looked at:
/// for a row from its spring `i` on and its groups from `j` on, the number
/// at `i` and `j`.
pub type Cache = Vec<Vec<Option<usize>>>;

/// The sum of the sizes of the groups.
pub open spec fn total(groups: Seq<usize>) -> nat
    decreases groups.len(),
{
    if groups.len() == 0 {
        0
    } else {
        groups[0] as nat + total(groups.skip(1))
    }
}

/// Whether a spring among the first `k` is known to work.
pub open spec fn has_dot(seed: Seq<char>, k: nat) -> bool {
    exists|i: int| 0 <= i < k && i < seed.len() && seed[i] == '.'
}

/// The number of arrangements of a row whose first spring is damaged: the
/// first group starts with it, no spring of the group is known to work, a
/// spring that is not known to be damaged ends the group, and the rest of
/// the row holds the other groups.
pub open spec fn hash_arrangements(seed: Seq<char>, groups: Seq<usize>) -> nat
    decreases seed.len(), 0nat,
{
    if seed.len() == 0 || groups.len() == 0 || total(groups) > seed.len() || has_dot(
        seed,
        groups[0] as nat,
    ) {
        0
    } else if seed.len() > groups[0] {
        if seed[groups[0] as int] == '#' {
            0
        } else {
            arrangements(seed.skip(groups[0] + 1), groups.skip(1))
        }
    } else {
        1
    }
}

/// The number of arrangements of a row whose first spring works: those of
/// the rest of the row.
pub open spec fn dot_arrangements(seed: Seq<char>, groups: Seq<usize>) -> nat
    decreases seed.len(), 0nat,
{
    if seed.len() >= 1 {
        arrangements(seed.skip(1), groups)
    } else if groups.len() == 0 {
        1
    } else {
        0
    }
}

/// The number of ways in which the springs of unknown condition can work or
/// be damaged so that the damaged springs form groups of the given sizes.
pub open spec fn arrangements(seed: Seq<char>, groups: Seq<usize>) -> nat
    decreases seed.len(), 1nat,
{
    if seed.len() == 0 {
        if groups.len() == 0 {
            1
        } else {
            0
        }
    } else if seed[0] == '.' {
        dot_arrangements(seed, groups)
    } else if seed[0] == '#' {
        hash_arrangements(seed, groups)
    } else {
        dot_arrangements(seed, groups) + hash_arrangements(seed, groups)
    }
}

/// Whether what the cache holds is true of this row.
pub open spec fn cache_holds(cache: Seq<Vec<Option<usize>>>, seed: Seq<char>, groups: Seq<usize>) -> bool {
    &&& cache.len() == seed.len() + 1
    &&& forall|i: int| 0 <= i < cache.len() ==> (#[trigger] cache[i]).len() == groups.len() + 1
    &&& forall|i: int, j: int|
        0 <= i <= seed.len() && 0 <= j <= groups.len() ==> match (#[trigger] cache[i][j]) {
            Some(n) => n == arrangements(seed.skip(i), groups.skip(j)),
            None => true,
        }
}

proof fn lemma_total_skip(groups: Seq<usize>, j: int)
    requires
        0 <= j <= groups.len(),
    ensures
        total(groups.skip(j)) <= total(groups),
    decreases j,
{
    if j > 0 {
        lemma_total_skip(groups, j - 1);
        let before = groups.skip(j - 1);
        assert(before.skip(1) =~= groups.skip(j));
    } else {
        assert(groups.skip(0) =~= groups);
    }
}

fn total_from(groups: &Vec<usize>, from: usize) -> (sum: usize)
    requires
        from <= groups.len(),
        total(groups@) <= usize::MAX,
    ensures
        sum == total(groups@.skip(from as int)),
    decreases groups.len() - from,
{
    if from == groups.len() {
        assert(groups@.skip(from as int).len() == 0);
        0
    } else {
        let rest = total_from(groups, from + 1);
        proof {
            lemma_total_skip(groups@, from as int);
            assert(groups@.skip(from as int).skip(1) =~= groups@.skip(from + 1));
        }
        groups[from] + rest
    }
}

/// Writes down in the cache that the row from spring `i` on has `n`
/// arrangements with the groups from `j` on; what else the cache holds stays.
fn remember(cache: &mut Cache, i: usize, j: usize, n: usize, Ghost(seed): Ghost<Seq<char>>, Ghost(groups): Ghost<Seq<usize>>)
    requires
        cache_holds(old(cache)@, seed, groups),
        i <= seed.len(),
        j <= groups.len(),
        n == arrangements(seed.skip(i as int), groups.skip(j as int)),
    ensures
        cache_holds(final(cache)@, seed, groups),
        final(cache)@.len() == old(cache)@.len(),
        final(cache)@[i as int]@ == old(cache)@[i as int]@.update(j as int, Some(n)),
        forall|a: int|
            0 <= a < old(cache)@.len() && a != i ==> #[trigger] final(cache)@[a] == old(cache)@[a],
{
    let ghost before = cache@;
    assert(before[i as int].len() == groups.len() + 1);
    cache[i][j] = Some(n);
    assert forall|a: int, b: int| 0 <= a <= seed.len() && 0 <= b <= groups.len() implies match (
    #[trigger] cache@[a][b]) {
        Some(n) => n == arrangements(seed.skip(a), groups.skip(b)),
        None => true,
    } by {
        assert(before[a].len() == groups.len() + 1);
        if a != i {
            assert(cache@[a] == before[a]);
        }
        match before[a][b] {
            Some(n) => {},
            None => {},
        }
    }
    assert forall|a: int| 0 <= a < cache@.len() implies (#[trigger] cache@[a]).len() == groups.len()
        + 1 by {
        assert(before[a].len() == groups.len() + 1);
    }
}

/// The number of arrangements of the row from spring `from` on with the
/// groups from `first` on, its first spring taken to work.
pub fn on_dot(seed: &Vec<char>, from: usize, groups: &Vec<usize>, first: usize, cache: &mut Cache) -> (n: usize)
    requires
        from <= seed.len(),
        first <= groups.len(),
        is_row(seed@),
        total(groups@) <= usize::MAX,
        cache_holds(old(cache)@, seed@, groups@),
        dot_arrangements(seed@.skip(from as int), groups@.skip(first as int)) <= usize::MAX,
    ensures
        n == dot_arrangements(seed@.skip(from as int), groups@.skip(first as int)),
        cache_holds(final(cache)@, seed@, groups@),
{
    try_on_dot(seed, from, groups, first, cache).unwrap()
}

/// The same, or nothing where the number does not fit.
fn try_on_dot(seed: &Vec<char>, from: usize, groups: &Vec<usize>, first: usize, cache: &mut Cache) -> (r: Option<usize>)
    requires
        from <= seed.len(),
        first <= groups.len(),
        is_row(seed@),
        total(groups@) <= usize::MAX,
        cache_holds(old(cache)@, seed@, groups@),
    ensures
        match r {
            Some(n) => n == dot_arrangements(seed@.skip(from as int), groups@.skip(first as int)),
            None => dot_arrangements(seed@.skip(from as int), groups@.skip(first as int))
                > usize::MAX,
        },
        cache_holds(final(cache)@, seed@, groups@),
    decreases seed.len() - from, 0nat,
{
    if from < seed.len() {
        assert(seed@.skip(from as int).skip(1) =~= seed@.skip(from + 1));
        let res = match try_recurse(seed, from + 1, groups, first, cache) {
            Some(res) => res,
            None => {
                return None;
            },
        };
        remember(cache, from + 1, first, res, Ghost(seed@), Ghost(groups@));
        return Some(res);
    }
    if first == groups.len() {
        return Some(1);
    }
    Some(0)
}

fn dot_within(seed: &Vec<char>, from: usize, len: usize) -> (r: bool)
    requires
        from + len <= seed.len(),
    ensures
        r == has_dot(seed@.skip(from as int), len as nat),
{
    let ghost rest = seed@.skip(from as int);
    let mut i: usize = 0;
    while i < len
        invariant
            from + len <= seed.len(),
            rest == seed@.skip(from as int),
            i <= len,
            forall|k: int| 0 <= k < i ==> rest[k] != '.',
        decreases len - i,
    {
        if seed[from + i] == '.' {
            assert(rest[i as int] == '.');
            return true;
        }
        i = i + 1;
    }
    false
}

/// The number of arrangements of the row from spring `from` on with the
/// groups from `first` on, its first spring taken to be damaged.
pub fn on_hash(seed: &Vec<char>, from: usize, groups: &Vec<usize>, first: usize, cache: &mut Cache) -> (n: usize)
    requires
        from < seed.len(),
        first <= groups.len(),
        is_row(seed@),
        total(groups@) <= usize::MAX,
        cache_holds(old(cache)@, seed@, groups@),
        hash_arrangements(seed@.skip(from as int), groups@.skip(first as int)) <= usize::MAX,
    ensures
        n == hash_arrangements(seed@.skip(from as int), groups@.skip(first as int)),
        cache_holds(final(cache)@, seed@, groups@),
{
    try_on_hash(seed, from, groups, first, cache).unwrap()
}

/// The same, or nothing where the number does not fit.
fn try_on_hash(seed: &Vec<char>, from: usize, groups: &Vec<usize>, first: usize, cache: &mut Cache) -> (r: Option<usize>)
    requires
        from < seed.len(),
        first <= groups.len(),
        is_row(seed@),
        total(groups@) <= usize::MAX,
        cache_holds(old(cache)@, seed@, groups@),
    ensures
        match r {
            Some(n) => n == hash_arrangements(seed@.skip(from as int), groups@.skip(first as int)),
            None => hash_arrangements(seed@.skip(from as int), groups@.skip(first as int))
                > usize::MAX,
        },
        cache_holds(final(cache)@, seed@, groups@),
    decreases seed.len() - from, 0nat,
{
    let ghost rest = seed@.skip(from as int);
    let ghost left = groups@.skip(first as int);
    if first == groups.len() {
        return Some(0);
    }
    let left_len = seed.len() - from;
    if total_from(groups, first) > left_len {
        return Some(0);
    }
    let size = groups[first];
    proof {
        assert(left[0] == size);
        assert(left.skip(1) =~= groups@.skip(first + 1));
        assert(total(left) == size + total(left.skip(1)));
    }
    if dot_within(seed, from, size) {
        return Some(0);
    }
    if left_len > size {
        assert(rest[size as int] == seed[from + size]);
        if seed[from + size] == '#' {
            return Some(0);
        }
        assert(rest.skip(size + 1) =~= seed@.skip(from + size + 1));
        let res = match try_recurse(seed, from + size + 1, groups, first + 1, cache) {
            Some(res) => res,
            None => {
                return None;
            },
        };
        remember(cache, from + size + 1, first + 1, res, Ghost(seed@), Ghost(groups@));
        return Some(res);
    }
    Some(1)
}

/// Whether the condition of every spring is written as working, damaged or
/// unknown.
pub open spec fn is_row(seed: Seq<char>) -> bool {
    forall|i: int| 0 <= i < seed.len() ==> #[trigger] seed[i] == '.' || seed[i] == '#' || seed[i] == '?'
}

/// The number of arrangements of the row from spring `from` on with the
/// groups from `first` on.
pub fn recurse(seed: &Vec<char>, from: usize, groups: &Vec<usize>, first: usize, cache: &mut Cache) -> (n: usize)
    requires
        from <= seed.len(),
        first <= groups.len(),
        is_row(seed@),
        total(groups@) <= usize::MAX,
        cache_holds(old(cache)@, seed@, groups@),
        arrangements(seed@.skip(from as int), groups@.skip(first as int)) <= usize::MAX,
    ensures
        n == arrangements(seed@.skip(from as int), groups@.skip(first as int)),
        cache_holds(final(cache)@, seed@, groups@),
{
    try_recurse(seed, from, groups, first, cache).unwrap()
}

/// The same, or nothing where the number does not fit.
fn try_recurse(seed: &Vec<char>, from: usize, groups: &Vec<usize>, first: usize, cache: &mut Cache) -> (r: Option<usize>)
    requires
        from <= seed.len(),
        first <= groups.len(),
        is_row(seed@),
        total(groups@) <= usize::MAX,
        cache_holds(old(cache)@, seed@, groups@),
    ensures
        match r {
            Some(n) => n == arrangements(seed@.skip(from as int), groups@.skip(first as int)),
            None => arrangements(seed@.skip(from as int), groups@.skip(first as int)) > usize::MAX,
        },
        cache_holds(final(cache)@, seed@, groups@),
    decreases seed.len() - from, 1nat,
{
    assert(cache@[from as int].len() == groups.len() + 1);
    match cache[from][first] {
        Some(n) => {
            return Some(n);
        },
        None => {},
    }
    if from == seed.len() {
        if first == groups.len() {
            return Some(1);
        }
        return Some(0);
    }
    let c = seed[from];
    assert(seed@.skip(from as int)[0] == c);
    if c == '.' {
        try_on_dot(seed, from, groups, first, cache)
    } else if c == '#' {
        try_on_hash(seed, from, groups, first, cache)
    } else {
        let a = match try_on_dot(seed, from, groups, first, cache) {
            Some(a) => a,
            None => {
                return None;
            },
        };
        let b = match try_on_hash(seed, from, groups, first, cache) {
            Some(b) => b,
            None => {
                return None;
            },
        };
        a.checked_add(b)
    }
}

fn empty_row(groups: &Vec<usize>) -> (row: Vec<Option<usize>>)
    ensures
        row.len() == groups.len() + 1,
        forall|b: int| 0 <= b < row.len() ==> (#[trigger] row[b]) is None,
{
    let mut row: Vec<Option<usize>> = Vec::new();
    row.push(None);
    let mut j: usize = 0;
    while j < groups.len()
        invariant
            j <= groups.len(),
            row.len() == j + 1,
            forall|b: int| 0 <= b < row.len() ==> (#[trigger] row[b]) is None,
        decreases groups.len() - j,
    {
        row.push(None);
        j = j + 1;
    }
    row
}

/// A cache for a row, with nothing known yet.
pub fn new_cache(seed: &Vec<char>, groups: &Vec<usize>) -> (cache: Cache)
    ensures
        cache_holds(cache@, seed@, groups@),
{
    let mut cache: Cache = Vec::new();
    cache.push(empty_row(groups));
    let mut i: usize = 0;
    while i < seed.len()
        invariant
            i <= seed.len(),
            cache.len() == i + 1,
            forall|a: int| 0 <= a < cache.len() ==> (#[trigger] cache[a]).len() == groups.len() + 1,
            forall|a: int, b: int|
                0 <= a < cache.len() && 0 <= b <= groups.len() ==> (#[trigger] cache[a][b]) is None,
        decreases seed.len() - i,
    {
        cache.push(empty_row(groups));
        i = i + 1;
    }
    cache
}

/// A row as a value.
pub struct RecordView {
    pub seed: Seq<char>,
    pub groups: Seq<usize>,
}

impl Record {
    /// The row as a value.
    pub open spec fn view(&self) -> RecordView {
        RecordView { seed: self.seed@, groups: self.groups@ }
    }
}

/// The rows as values.
pub open spec fn record_views(records: Seq<Record>) -> Seq<RecordView> {
    Seq::new(records.len(), |i: int| records[i]@)
}

/// The sum of the numbers of arrangements of the first `k` rows.
pub open spec fn arrangements_sum(records: Seq<RecordView>, k: nat) -> nat
    decreases k,
{
    if k == 0 || k > records.len() {
        0
    } else {
        arrangements_sum(records, (k - 1) as nat) + arrangements(
            records[k - 1].seed,
            records[k - 1].groups,
        )
    }
}

proof fn lemma_arrangements_sum_grows(records: Seq<RecordView>, k: nat)
    requires
        k <= records.len(),
    ensures
        arrangements_sum(records, k) <= arrangements_sum(records, records.len()),
    decreases records.len() - k,
{
    if k < records.len() {
        lemma_arrangements_sum_grows(records, k + 1);
    }
}

/// The sum of the numbers of arrangements of the rows.
pub fn solve(records: &mut Vec<Record>) -> (sum: usize)
    requires
        arrangements_sum(record_views(old(records)@), old(records).len() as nat) <= usize::MAX,
        forall|i: int|
            0 <= i < old(records).len() ==> total((#[trigger] old(records)[i]).groups@)
                <= usize::MAX && is_row(old(records)[i].seed@),
    ensures
        *final(records) == *old(records),
        sum == arrangements_sum(record_views(old(records)@), old(records).len() as nat),
{
    assert forall|i: int| 0 <= i < record_views(records@).len() implies countable(
        #[trigger] record_views(records@)[i],
    ) by {
        assert(record_views(records@)[i] == records[i]@);
    }
    try_solve(records).unwrap()
}

/// Whether the arrangements of the rows can be counted and added up.
pub open spec fn summable(records: Seq<RecordView>) -> bool {
    (forall|i: int| 0 <= i < records.len() ==> countable(#[trigger] records[i]))
        && arrangements_sum(records, records.len()) <= usize::MAX
}

/// The sum of the numbers of arrangements of the rows, if they can be
/// counted and added up.
pub fn try_solve(records: &Vec<Record>) -> (r: Option<usize>)
    ensures
        match r {
            Some(sum) => summable(record_views(records@)) && sum == arrangements_sum(
                record_views(records@),
                records.len() as nat,
            ),
            None => !summable(record_views(records@)),
        },
{
    let ghost all = record_views(records@);
    let mut sum: usize = 0;
    let mut k: usize = 0;
    while k < records.len()
        invariant
            all == record_views(records@),
            k <= records.len(),
            forall|i: int| 0 <= i < k ==> countable(#[trigger] all[i]),
            sum == arrangements_sum(all, k as nat),
        decreases records.len() - k,
    {
        proof {
            lemma_arrangements_sum_grows(all, (k + 1) as nat);
        }
        let record = &records[k];
        assert(all[k as int] == record@);
        if !record.is_countable() {
            return None;
        }
        let mut memo = new_cache(&record.seed, &record.groups);
        assert(record.seed@.skip(0) =~= record.seed@);
        assert(record.groups@.skip(0) =~= record.groups@);
        let n = match try_recurse(&record.seed, 0, &record.groups, 0, &mut memo) {
            Some(n) => n,
            None => {
                return None;
            },
        };
        sum = match sum.checked_add(n) {
            Some(sum) => sum,
            None => {
                return None;
            },
        };
        k = k + 1;
    }
    Some(sum)
}

/// The numbers that the pieces of a list write.
pub open spec fn numbers_of(pieces: Seq<Seq<char>>) -> Seq<usize> {
    Seq::new(pieces.len(), |i: int| decimal_value(pieces[i]) as usize)
}

/// Whether a line is a row: the springs, a space, and the sizes of the
/// groups, separated by commas.
pub open spec fn is_record(line: Seq<char>) -> bool {
    let pieces = split_spec(line, ' ');
    pieces.len() >= 2 && forall|i: int|
        0 <= i < split_spec(pieces[1], ',').len() ==> {
            let size = #[trigger] split_spec(pieces[1], ',')[i];
            size.len() > 0 && all_digits(size) && decimal_value(size) <= usize::MAX
        }
}

/// The row that a line describes, each part of it taken `copies` times: the
/// springs with an unknown spring between the copies.
pub open spec fn record_of(line: Seq<char>, copies: nat) -> RecordView {
    let pieces = split_spec(line, ' ');
    RecordView {
        seed: repeated(pieces[0], seq!['?'], copies),
        groups: repeated(numbers_of(split_spec(pieces[1], ',')), Seq::empty(), copies),
    }
}

/// A sequence `copies` times over, with `between` between the copies.
pub open spec fn repeated<T>(s: Seq<T>, between: Seq<T>, copies: nat) -> Seq<T>
    decreases copies,
{
    if copies == 0 {
        Seq::empty()
    } else if copies == 1 {
        s
    } else {
        repeated(s, between, (copies - 1) as nat) + between + s
    }
}

fn read_sizes(pieces: &Vec<Vec<char>>) -> (sizes: Vec<usize>)
    requires
        forall|i: int|
            0 <= i < pieces.len() ==> (#[trigger] pieces[i])@.len() > 0 && all_digits(pieces[i]@)
                && decimal_value(pieces[i]@) <= usize::MAX,
    ensures
        sizes@ == numbers_of(views(pieces@)),
{
    let mut sizes: Vec<usize> = Vec::new();
    let mut i: usize = 0;
    while i < pieces.len()
        invariant
            i <= pieces.len(),
            forall|i: int|
                0 <= i < pieces.len() ==> (#[trigger] pieces[i])@.len() > 0 && all_digits(
                    pieces[i]@,
                ) && decimal_value(pieces[i]@) <= usize::MAX,
            sizes@ == numbers_of(views(pieces@)).take(i as int),
        decreases pieces.len() - i,
    {
        assert(pieces[i as int]@.len() > 0);
        let size = parse_number(&pieces[i]).unwrap();
        sizes.push(size as usize);
        assert(sizes@ =~= numbers_of(views(pieces@)).take(i + 1));
        i = i + 1;
    }
    assert(numbers_of(views(pieces@)).take(pieces.len() as int) =~= numbers_of(views(pieces@)));
    sizes
}

fn read_record(line: &Vec<char>, copies: usize) -> (record: Record)
    requires
        is_record(line@),
        copies >= 1,
    ensures
        record@ == record_of(line@, copies as nat),
{
    let pieces = split(line, ' ');
    let ghost parts = views(pieces@);
    assert(parts[0] == pieces[0]@ && parts[1] == pieces[1]@);
    let sizes = split(&pieces[1], ',');
    proof {
        assert forall|i: int| 0 <= i < sizes.len() implies (#[trigger] sizes[i])@.len() > 0
            && all_digits(sizes[i]@) && decimal_value(sizes[i]@) <= usize::MAX by {
            assert(views(sizes@)[i] == sizes[i]@);
            assert(split_spec(parts[1], ',')[i] == sizes[i]@);
        }
    }
    let once = read_sizes(&sizes);
    let mut seed: Vec<char> = Vec::new();
    let mut groups: Vec<usize> = Vec::new();
    let mut k: usize = 0;
    while k < copies
        invariant
            k <= copies,
            parts == views(pieces@),
            pieces.len() >= 2,
            once@ == numbers_of(split_spec(parts[1], ',')),
            seed@ == repeated(parts[0], seq!['?'], k as nat),
            groups@ == repeated(once@, Seq::empty(), k as nat),
        decreases copies - k,
    {
        let ghost seed_before = seed@;
        let ghost groups_before = groups@;
        if k > 0 {
            seed.push('?');
        }
        let mut i: usize = 0;
        let ghost seed_mid = seed@;
        while i < pieces[0].len()
            invariant
                i <= pieces[0].len(),
                pieces.len() >= 2,
                seed@ == seed_mid + pieces[0]@.take(i as int),
            decreases pieces[0].len() - i,
        {
            seed.push(pieces[0][i]);
            assert(seed@ =~= seed_mid + pieces[0]@.take(i + 1));
            i = i + 1;
        }
        let mut j: usize = 0;
        while j < once.len()
            invariant
                j <= once.len(),
                groups@ == groups_before + once@.take(j as int),
            decreases once.len() - j,
        {
            groups.push(once[j]);
            assert(groups@ =~= groups_before + once@.take(j + 1));
            j = j + 1;
        }
        proof {
            assert(pieces[0]@.take(pieces[0].len() as int) =~= pieces[0]@);
            assert(once@.take(once.len() as int) =~= once@);
            assert(parts[0] == pieces[0]@);
            if k == 0 {
                assert(seed@ =~= parts[0]);
                assert(groups@ =~= once@);
            } else {
                assert(seed_mid =~= seed_before + seq!['?']);
                assert(groups@ =~= groups_before + Seq::<usize>::empty() + once@);
            }
        }
        k = k + 1;
    }
    Record { seed, groups }
}

fn read_records(input: &str, copies: usize) -> (records: Vec<Record>)
    requires
        copies >= 1,
        forall|i: int| 0 <= i < lines_spec(input@).len() ==> is_record(#[trigger] lines_spec(input@)[i]),
    ensures
        records.len() == lines_spec(input@).len(),
        forall|i: int|
            0 <= i < records.len() ==> (#[trigger] records[i])@ == record_of(
                lines_spec(input@)[i],
                copies as nat,
            ),
{
    let text = chars_of(input);
    let all = lines(&text);
    let mut records: Vec<Record> = Vec::new();
    let mut k: usize = 0;
    while k < all.len()
        invariant
            k <= all.len(),
            copies >= 1,
            views(all@) == lines_spec(input@),
            forall|i: int|
                0 <= i < lines_spec(input@).len() ==> is_record(#[trigger] lines_spec(input@)[i]),
            records.len() == k,
            forall|i: int|
                0 <= i < k ==> (#[trigger] records[i])@ == record_of(
                    lines_spec(input@)[i],
                    copies as nat,
                ),
        decreases all.len() - k,
    {
        assert(views(all@)[k as int] == all[k as int]@);
        assert(is_record(lines_spec(input@)[k as int]));
        let record = read_record(&all[k], copies);
        records.push(record);
        k = k + 1;
    }
    records
}

/// Reads the rows of a text, one to a line.
pub fn parse(input: &str) -> (records: Vec<Record>)
    requires
        forall|i: int| 0 <= i < lines_spec(input@).len() ==> is_record(#[trigger] lines_spec(input@)[i]),
    ensures
        records.len() == lines_spec(input@).len(),
        forall|i: int|
            0 <= i < records.len() ==> (#[trigger] records[i])@ == record_of(
                lines_spec(input@)[i],
                1,
            ),
{
    read_records(input, 1)
}

/// Reads the rows of a text, each unfolded to five times its length.
pub fn parse2(input: &str) -> (records: Vec<Record>)
    requires
        forall|i: int| 0 <= i < lines_spec(input@).len() ==> is_record(#[trigger] lines_spec(input@)[i]),
    ensures
        records.len() == lines_spec(input@).len(),
        forall|i: int|
            0 <= i < records.len() ==> (#[trigger] records[i])@ == record_of(
                lines_spec(input@)[i],
                5,
            ),
{
    read_records(input, 5)
}

fn check_record(line: &Vec<char>) -> (r: bool)
    ensures
        r == is_record(line@),
{
    let pieces = split(line, ' ');
    let ghost parts = views(pieces@);
    if pieces.len() < 2 {
        return false;
    }
    assert(parts[1] == pieces[1]@);
    let sizes = split(&pieces[1], ',');
    let ghost all = views(sizes@);
    let mut i: usize = 0;
    while i < sizes.len()
        invariant
            i <= sizes.len(),
            all == views(sizes@),
            split_spec(line@, ' ').len() >= 2,
            all == split_spec(split_spec(line@, ' ')[1], ','),
            forall|k: int|
                0 <= k < i ==> (#[trigger] all[k]).len() > 0 && all_digits(all[k]) && decimal_value(
                    all[k],
                ) <= usize::MAX,
        decreases sizes.len() - i,
    {
        assert(all[i as int] == sizes[i as int]@);
        let ghost size = split_spec(split_spec(line@, ' ')[1], ',')[i as int];
        match parse_number(&sizes[i]) {
            Some(v) => {
                if v > usize::MAX as u64 {
                    assert(!(size.len() > 0 && all_digits(size) && decimal_value(size)
                        <= usize::MAX));
                    return false;
                }
            },
            None => {
                assert(!(size.len() > 0 && all_digits(size) && decimal_value(size) <= usize::MAX));
                return false;
            },
        }
        i = i + 1;
    }
    true
}

fn try_read_records(input: &str, copies: usize) -> (r: Option<Vec<Record>>)
    requires
        copies >= 1,
    ensures
        match r {
            Some(records) => (forall|i: int|
                0 <= i < lines_spec(input@).len() ==> is_record(#[trigger] lines_spec(input@)[i]))
                && records.len() == lines_spec(input@).len() && forall|i: int|
                0 <= i < records.len() ==> (#[trigger] records[i])@ == record_of(
                    lines_spec(input@)[i],
                    copies as nat,
                ),
            None => exists|i: int|
                0 <= i < lines_spec(input@).len() && !is_record(#[trigger] lines_spec(input@)[i]),
        },
{
    let text = chars_of(input);
    let all = lines(&text);
    let mut k: usize = 0;
    while k < all.len()
        invariant
            k <= all.len(),
            views(all@) == lines_spec(input@),
            forall|i: int| 0 <= i < k ==> is_record(#[trigger] lines_spec(input@)[i]),
        decreases all.len() - k,
    {
        assert(views(all@)[k as int] == all[k as int]@);
        if !check_record(&all[k]) {
            return None;
        }
        k = k + 1;
    }
    Some(read_records(input, copies))
}

/// Reads the rows of a text, if every line is a row.
pub fn try_parse(input: &str) -> (r: Option<Vec<Record>>)
    ensures
        match r {
            Some(records) => (forall|i: int|
                0 <= i < lines_spec(input@).len() ==> is_record(#[trigger] lines_spec(input@)[i]))
                && records.len() == lines_spec(input@).len() && forall|i: int|
                0 <= i < records.len() ==> (#[trigger] records[i])@ == record_of(
                    lines_spec(input@)[i],
                    1,
                ),
            None => exists|i: int|
                0 <= i < lines_spec(input@).len() && !is_record(#[trigger] lines_spec(input@)[i]),
        },
{
    try_read_records(input, 1)
}

/// Reads the rows of a text, each unfolded to five times its length, if
/// every line is a row.
pub fn try_parse2(input: &str) -> (r: Option<Vec<Record>>)
    ensures
        match r {
            Some(records) => (forall|i: int|
                0 <= i < lines_spec(input@).len() ==> is_record(#[trigger] lines_spec(input@)[i]))
                && records.len() == lines_spec(input@).len() && forall|i: int|
                0 <= i < records.len() ==> (#[trigger] records[i])@ == record_of(
                    lines_spec(input@)[i],
                    5,
                ),
            None => exists|i: int|
                0 <= i < lines_spec(input@).len() && !is_record(#[trigger] lines_spec(input@)[i]),
        },
{
    try_read_records(input, 5)
}

/// Whether the arrangements of a row can be counted: the conditions of its
/// springs are written as they should be, and the sizes of its groups can
/// be added up.
pub open spec fn countable(record: RecordView) -> bool {
    is_row(record.seed) && total(record.groups) <= usize::MAX
}

impl Record {
    /// Whether the arrangements of the row can be counted.
    pub fn is_countable(&self) -> (r: bool)
        ensures
            r == countable(self@),
    {
        let mut i: usize = 0;
        while i < self.seed.len()
            invariant
                i <= self.seed.len(),
                forall|k: int|
                    0 <= k < i ==> #[trigger] self.seed[k] == '.' || self.seed[k] == '#'
                        || self.seed[k] == '?',
            decreases self.seed.len() - i,
        {
            let c = self.seed[i];
            if c != '.' && c != '#' && c != '?' {
                return false;
            }
            i = i + 1;
        }
        let mut sum: usize = 0;
        let mut j = self.groups.len();
        assert(self.groups@.skip(j as int).len() == 0);
        while j > 0
            invariant
                j <= self.groups.len(),
                is_row(self.seed@),
                sum == total(self.groups@.skip(j as int)),
            decreases j,
        {
            j = j - 1;
            proof {
                assert(self.groups@.skip(j as int).skip(1) =~= self.groups@.skip(j + 1));
                lemma_total_skip(self.groups@, j as int);
            }
            if sum > usize::MAX - self.groups[j] {
                return false;
            }
            sum = sum + self.groups[j];
        }
        assert(self.groups@.skip(0) =~= self.groups@);
        true
    }
}

} // verus!
