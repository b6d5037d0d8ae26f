use crate::scan::find_char;
use crate::scan::index_of;
use crate::scan::line_end_at;
use crate::scan::number_at;
use crate::scan::run_end;
use crate::scan::skip_line_end;
use crate::scan::skip_run;
use crate::scan::take_number;
use crate::scan::Class;
use crate::text::all_digits;
use crate::text::decimal_value;
use crate::text::parse_number;
use vstd::prelude::*;

verus! {

/// The longest race for which the ways to win are counted: the distances
/// travelled then fit in 64 bits.
pub const MAX_TIME: u64 = 0xffff_ffff;

/// The distance travelled in a race of `t` milliseconds when the button is
/// held for `j` of them.
pub open spec fn travelled(t: int, j: int) -> int {
    j * (t - j)
}

/// The number of holding times below `k` that beat the record `d`.
pub open spec fn wins_upto(t: int, d: int, k: nat) -> nat
    decreases k,
{
    if k == 0 {
        0
    } else {
        wins_upto(t, d, (k - 1) as nat) + if travelled(t, k - 1) > d {
            1nat
        } else {
            0nat
        }
    }
}

/// The number of ways to beat the record `d` in a race of `t` milliseconds.
pub open spec fn ways_to_win(t: int, d: int) -> nat {
    wins_upto(t, d, (t + 1) as nat)
}

proof fn lemma_wins_bound(t: int, d: int, k: nat)
    ensures
        wins_upto(t, d, k) <= k,
    decreases k,
{
    if k > 0 {
        lemma_wins_bound(t, d, (k - 1) as nat);
    }
}

/// The number of ways to beat the record `d` in a race of `t` milliseconds:
/// the holding times from nothing to `t` with which the boat gets further.
pub fn single_run(t: u64, d: u64) -> (ways: u64)
    requires
        t <= MAX_TIME,
    ensures
        ways == ways_to_win(t as int, d as int),
{
    let mut ways_to_win: u64 = 0;
    let mut j: u64 = 0;
    while j <= t
        invariant
            t <= MAX_TIME,
            j <= t + 1,
            ways_to_win == wins_upto(t as int, d as int, j as nat),
            ways_to_win <= j,
        decreases t + 1 - j,
    {
        let race_time = t - j;
        assert(j * race_time <= 0xffff_ffff * 0xffff_ffff) by (nonlinear_arith)
            requires
                j <= 0xffff_ffff,
                race_time <= 0xffff_ffff,
        ;
        let travelled = j * race_time;
        if travelled > d {
            ways_to_win = ways_to_win + 1;
        }
        j = j + 1;
    }
    ways_to_win
}

/// The product of the ways to win the first `k` races.
pub open spec fn ways_product(times: Seq<u64>, distances: Seq<u64>, k: nat) -> nat
    decreases k,
{
    if k == 0 || k > times.len() || k > distances.len() {
        1
    } else {
        ways_product(times, distances, (k - 1) as nat) * ways_to_win(
            times[k - 1] as int,
            distances[k - 1] as int,
        )
    }
}

/// The product of the numbers of ways to win each race.
pub fn race(times: &Vec<u64>, distances: &Vec<u64>) -> (product: u64)
    requires
        times.len() <= distances.len(),
        forall|i: int| 0 <= i < times.len() ==> #[trigger] times[i] <= MAX_TIME,
        forall|k: nat| k <= times.len() ==> #[trigger] ways_product(times@, distances@, k) <= u64::MAX,
    ensures
        product == ways_product(times@, distances@, times.len() as nat),
{
    try_race(times, distances).unwrap()
}

/// Whether the product of the ways to win can be computed: every race has
/// a record, no race is too long, and the product fits from race to race.
pub open spec fn can_race(times: Seq<u64>, distances: Seq<u64>) -> bool {
    &&& times.len() <= distances.len()
    &&& forall|i: int| 0 <= i < times.len() ==> #[trigger] times[i] <= MAX_TIME
    &&& forall|k: nat| k <= times.len() ==> #[trigger] ways_product(times, distances, k) <= u64::MAX
}

/// The product of the numbers of ways to win each race, if it can be
/// computed.
pub fn try_race(times: &Vec<u64>, distances: &Vec<u64>) -> (r: Option<u64>)
    ensures
        match r {
            Some(product) => can_race(times@, distances@) && product == ways_product(
                times@,
                distances@,
                times.len() as nat,
            ),
            None => !can_race(times@, distances@),
        },
{
    let n = times.len();
    if n > distances.len() {
        return None;
    }
    let mut res: u64 = 1;
    let mut i: usize = 0;
    while i < n
        invariant
            n == times.len(),
            n <= distances.len(),
            i <= n,
            forall|k: int| 0 <= k < i ==> #[trigger] times[k] <= MAX_TIME,
            forall|k: nat| k <= i ==> #[trigger] ways_product(times@, distances@, k) <= u64::MAX,
            res == ways_product(times@, distances@, i as nat),
        decreases n - i,
    {
        let t = times[i];
        if t > MAX_TIME {
            return None;
        }
        let ways = single_run(t, distances[i]);
        match res.checked_mul(ways) {
            Some(product) => {
                res = product;
            },
            None => {
                assert(ways_product(times@, distances@, (i + 1) as nat) > u64::MAX);
                return None;
            },
        }
        i = i + 1;
    }
    Some(res)
}

/// Where the spaces that start at `from` end.
pub open spec fn spaces_end(s: Seq<char>, from: int) -> int
    decreases s.len() - from,
{
    if from < 0 || from >= s.len() || s[from] != ' ' {
        from
    } else {
        spaces_end(s, from + 1)
    }
}

fn skip_spaces(text: &Vec<char>, from: usize) -> (end: usize)
    requires
        from <= text.len(),
    ensures
        end == spaces_end(text@, from as int),
        from <= end <= text.len(),
{
    let mut i = from;
    while i < text.len() && text[i] == ' '
        invariant
            from <= i <= text.len(),
            spaces_end(text@, from as int) == spaces_end(text@, i as int),
        decreases text.len() - i,
    {
        i = i + 1;
    }
    i
}

/// The numbers of a line, after some have been read up to `from`: further
/// ones follow while spaces and a number do.
pub open spec fn numbers_from(s: Seq<char>, from: int, done: Seq<u64>) -> (Seq<u64>, int)
    decreases s.len() - from,
{
    let gap = spaces_end(s, from);
    if gap > from {
        match number_at(s, gap) {
            Some((v, end)) => if from < end <= s.len() {
                numbers_from(s, end, done.push(v))
            } else {
                (done, from)
            },
            None => (done, from),
        }
    } else {
        (done, from)
    }
}

/// Where the list of a line starts: after the next colon and the blanks
/// that follow it, of which there is at least one.
pub open spec fn list_start(s: Seq<char>, from: int) -> Option<int> {
    let colon = index_of(s, from, ':');
    let start = run_end(s, colon + 1, Class::Blank);
    if 0 <= from && colon < s.len() && start > colon + 1 {
        Some(start)
    } else {
        None
    }
}

/// A line with a list of numbers at `from`: a title up to a colon, blanks,
/// numbers separated by spaces, and a line end.
pub open spec fn line1_at(s: Seq<char>, from: int) -> Option<(Seq<u64>, int)> {
    match list_start(s, from) {
        Some(start) => {
            let (numbers, end) = match number_at(s, start) {
                Some((v, next)) => numbers_from(s, next, seq![v]),
                None => (Seq::empty(), start),
            };
            match line_end_at(s, end) {
                Some(stop) => Some((numbers, stop)),
                None => None,
            }
        },
        None => None,
    }
}

/// The letters and digits of a line, after some have been read up to
/// `from`: further ones follow while spaces and letters or digits do.
pub open spec fn pieces_from(s: Seq<char>, from: int, done: Seq<char>) -> (Seq<char>, int)
    decreases s.len() - from,
{
    let gap = spaces_end(s, from);
    let end = run_end(s, gap, Class::LetterOrDigit);
    if from >= 0 && gap > from && gap < end <= s.len() {
        pieces_from(s, end, done + s.subrange(gap, end))
    } else {
        (done, from)
    }
}

/// A line with one number in pieces at `from`: a title up to a colon,
/// blanks, the pieces of the number separated by spaces, and a line end.
pub open spec fn line2_at(s: Seq<char>, from: int) -> Option<(u64, int)> {
    match list_start(s, from) {
        Some(start) => {
            let first = run_end(s, start, Class::LetterOrDigit);
            let (digits, end) = if first > start {
                pieces_from(s, first, s.subrange(start, first))
            } else {
                (Seq::empty(), start)
            };
            match line_end_at(s, end) {
                Some(stop) => if digits.len() > 0 && all_digits(digits) && decimal_value(digits)
                    <= u64::MAX {
                    Some((decimal_value(digits) as u64, stop))
                } else {
                    None
                },
                None => None,
            }
        },
        None => None,
    }
}

fn find_list(text: &Vec<char>, from: usize) -> (r: Option<usize>)
    requires
        from <= text.len(),
    ensures
        match r {
            Some(start) => list_start(text@, from as int) == Some(start as int) && from < start
                <= text.len(),
            None => list_start(text@, from as int) is None,
        },
{
    let colon = find_char(text, from, ':');
    if colon >= text.len() {
        return None;
    }
    let start = skip_run(text, colon + 1, Class::Blank);
    if start == colon + 1 {
        return None;
    }
    Some(start)
}

/// Reads a line with a list of numbers.
pub fn parse_line1(text: &Vec<char>, from: usize) -> (r: Option<(Vec<u64>, usize)>)
    requires
        from <= text.len(),
    ensures
        match r {
            Some((numbers, end)) => line1_at(text@, from as int) == Some((numbers@, end as int))
                && from < end <= text.len(),
            None => line1_at(text@, from as int) is None,
        },
{
    let start = match find_list(text, from) {
        Some(start) => start,
        None => {
            return None;
        },
    };
    let mut numbers: Vec<u64> = Vec::new();
    let mut at = start;
    let ghost whole = match number_at(text@, start as int) {
        Some((v, next)) => numbers_from(text@, next, seq![v]),
        None => (Seq::empty(), start as int),
    };
    match take_number(text, start) {
        Some((v, next)) => {
            numbers.push(v);
            assert(numbers@ =~= seq![v]);
            at = next;
            loop
                invariant
                    start <= at <= text.len(),
                    whole == numbers_from(text@, at as int, numbers@),
                ensures
                    start <= at <= text.len(),
                    whole == (numbers@, at as int),
                decreases text.len() - at,
            {
                let gap = skip_spaces(text, at);
                if gap == at {
                    break ;
                }
                match take_number(text, gap) {
                    Some((v, end)) => {
                        numbers.push(v);
                        at = end;
                    },
                    None => {
                        break ;
                    },
                }
            }
        },
        None => {
            assert(numbers@ =~= Seq::<u64>::empty());
        },
    }
    match skip_line_end(text, at) {
        Some(stop) => Some((numbers, stop)),
        None => None,
    }
}

/// Reads a line with one number whose digits stand in pieces.
pub fn parse_line2(text: &Vec<char>, from: usize) -> (r: Option<(u64, usize)>)
    requires
        from <= text.len(),
    ensures
        match r {
            Some((number, end)) => line2_at(text@, from as int) == Some((number, end as int))
                && from < end <= text.len(),
            None => line2_at(text@, from as int) is None,
        },
{
    let start = match find_list(text, from) {
        Some(start) => start,
        None => {
            return None;
        },
    };
    let mut digits: Vec<char> = Vec::new();
    let mut at = start;
    let first = skip_run(text, start, Class::LetterOrDigit);
    let ghost whole = if first > start {
        pieces_from(text@, first as int, text@.subrange(start as int, first as int))
    } else {
        (Seq::empty(), start as int)
    };
    if first > start {
        let mut i = start;
        while i < first
            invariant
                start <= i <= first <= text.len(),
                digits@ == text@.subrange(start as int, i as int),
            decreases first - i,
        {
            digits.push(text[i]);
            assert(digits@ =~= text@.subrange(start as int, i + 1));
            i = i + 1;
        }
        at = first;
        loop
            invariant
                start <= at <= text.len(),
                whole == pieces_from(text@, at as int, digits@),
            ensures
                start <= at <= text.len(),
                whole == (digits@, at as int),
            decreases text.len() - at,
        {
            let gap = skip_spaces(text, at);
            let end = skip_run(text, gap, Class::LetterOrDigit);
            if gap == at || end == gap {
                break ;
            }
            let ghost before = digits@;
            let mut i = gap;
            while i < end
                invariant
                    gap <= i <= end <= text.len(),
                    digits@ == before + text@.subrange(gap as int, i as int),
                decreases end - i,
            {
                digits.push(text[i]);
                assert(digits@ =~= before + text@.subrange(gap as int, i + 1));
                i = i + 1;
            }
            at = end;
        }
    } else {
        assert(digits@ =~= Seq::<char>::empty());
    }
    let stop = match skip_line_end(text, at) {
        Some(stop) => stop,
        None => {
            return None;
        },
    };
    match parse_number(&digits) {
        Some(number) => Some((number, stop)),
        None => None,
    }
}

} // verus!
