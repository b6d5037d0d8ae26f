use crate::scan::char_at;
use crate::scan::is_char_at;
use crate::scan::line_end_at;
use crate::scan::number_at;
use crate::scan::skip_line_end;
use crate::scan::take_number;
use crate::text::chars_of;
use vstd::prelude::*;

verus! {

/// The differences between each value and the one before it.
pub open spec fn differences(data: Seq<i32>) -> Seq<int> {
    Seq::new(
        if data.len() == 0 {
            0nat
        } else {
            (data.len() - 1) as nat
        },
        |i: int| data[i + 1] - data[i],
    )
}

/// Whether every value is zero.
pub open spec fn all_zero(data: Seq<i32>) -> bool {
    forall|i: int| 0 <= i < data.len() ==> #[trigger] data[i] == 0
}

/// Whether a number fits in 32 bits with a sign.
pub open spec fn in_i32(v: int) -> bool {
    i32::MIN <= v <= i32::MAX
}

/// The numbers as 32-bit values.
pub open spec fn as_i32s(v: Seq<int>) -> Seq<i32> {
    Seq::new(v.len(), |i: int| v[i] as i32)
}

/// What has to be added to the last value of a history to continue it: the
/// last of its differences and what continues those, down to differences
/// that are all zero.
pub open spec fn extension(data: Seq<i32>) -> int
    decreases data.len(),
{
    let diffs = as_i32s(differences(data));
    if data.len() == 0 || all_zero(diffs) {
        0
    } else {
        diffs.last() + extension(diffs)
    }
}

/// What has to be taken from the first value of a history to continue it
/// backwards.
pub open spec fn back_extension(data: Seq<i32>) -> int
    decreases data.len(),
{
    let diffs = as_i32s(differences(data));
    if data.len() == 0 || all_zero(diffs) {
        0
    } else {
        diffs[0] - back_extension(diffs)
    }
}

/// Whether the differences of a history, their differences and so on, and
/// the sums that continue them, all fit in `i32`.
pub open spec fn tame(data: Seq<i32>) -> bool
    decreases data.len(),
{
    let diffs = as_i32s(differences(data));
    &&& forall|i: int| 0 <= i < differences(data).len() ==> in_i32(#[trigger] differences(data)[i])
    &&& (data.len() == 0 || all_zero(diffs) || (tame(diffs) && in_i32(extension(data)) && in_i32(
        back_extension(data),
    )))
}

fn diffs_of(data: &Vec<i32>) -> (res: Vec<i32>)
    requires
        forall|i: int| 0 <= i < differences(data@).len() ==> in_i32(#[trigger] differences(data@)[i]),
    ensures
        res@ == as_i32s(differences(data@)),
{
    let mut res: Vec<i32> = Vec::new();
    let n = data.len();
    if n > 0 {
        let mut i: usize = 0;
        while i < n - 1
            invariant
                n == data.len(),
                n > 0,
                i <= n - 1,
                forall|i: int|
                    0 <= i < differences(data@).len() ==> in_i32(#[trigger] differences(data@)[i]),
                res@ == as_i32s(differences(data@)).take(i as int),
            decreases n - 1 - i,
        {
            assert(in_i32(differences(data@)[i as int]));
            res.push(data[i + 1] - data[i]);
            assert(res@ =~= as_i32s(differences(data@)).take(i + 1));
            i = i + 1;
        }
        assert(as_i32s(differences(data@)).take((n - 1) as int) =~= as_i32s(differences(data@)));
    } else {
        assert(res@ =~= as_i32s(differences(data@)));
    }
    res
}

fn is_all_zero(data: &Vec<i32>) -> (r: bool)
    ensures
        r == all_zero(data@),
{
    let mut i: usize = 0;
    while i < data.len()
        invariant
            i <= data.len(),
            forall|j: int| 0 <= j < i ==> #[trigger] data[j] == 0,
        decreases data.len() - i,
    {
        if data[i] != 0 {
            return false;
        }
        i = i + 1;
    }
    true
}

/// What has to be added to the last value of a history to continue it.
pub fn consume(data: &Vec<i32>) -> (r: i32)
    requires
        tame(data@),
    ensures
        r == extension(data@),
    decreases data.len(),
{
    if data.len() == 0 {
        return 0;
    }
    let res = diffs_of(data);
    if !is_all_zero(&res) {
        let rest = consume(&res);
        return res[res.len() - 1] + rest;
    }
    0
}

/// The value that continues a history.
pub fn start_consuming(data: &Vec<i32>) -> (r: i32)
    requires
        data.len() > 0,
        tame(data@),
        in_i32(data@.last() + extension(data@)),
    ensures
        r == data@.last() + extension(data@),
{
    data[data.len() - 1] + consume(data)
}

/// What has to be taken from the first value of a history to continue it
/// backwards.
pub fn consume2(data: &Vec<i32>) -> (r: i32)
    requires
        tame(data@),
    ensures
        r == back_extension(data@),
    decreases data.len(),
{
    if data.len() == 0 {
        return 0;
    }
    let res = diffs_of(data);
    if !is_all_zero(&res) {
        let rest = consume2(&res);
        return res[0] - rest;
    }
    0
}

/// The value that continues a history backwards.
pub fn start_consuming2(data: &Vec<i32>) -> (r: i32)
    requires
        data.len() > 0,
        tame(data@),
        in_i32(data@[0] - back_extension(data@)),
    ensures
        r == data@[0] - back_extension(data@),
{
    data[0] - consume2(data)
}

fn checked_diffs(data: &Vec<i32>) -> (r: Option<Vec<i32>>)
    ensures
        match r {
            Some(res) => res@ == as_i32s(differences(data@)) && forall|i: int|
                0 <= i < differences(data@).len() ==> in_i32(#[trigger] differences(data@)[i]),
            None => exists|i: int|
                0 <= i < differences(data@).len() && !in_i32(#[trigger] differences(data@)[i]),
        },
{
    let n = data.len();
    let mut i: usize = 0;
    while n > 0 && i < n - 1
        invariant
            n == data.len(),
            i <= n,
            forall|k: int| 0 <= k < i && k < n - 1 ==> in_i32(#[trigger] differences(data@)[k]),
        decreases n - i,
    {
        let d = data[i + 1] as i64 - data[i] as i64;
        if d < i32::MIN as i64 || d > i32::MAX as i64 {
            assert(!in_i32(differences(data@)[i as int]));
            return None;
        }
        i = i + 1;
    }
    Some(diffs_of(data))
}

/// What continues a history forwards and backwards, if its differences
/// and what continues them fit in 32 bits.
pub fn extensions(data: &Vec<i32>) -> (r: Option<(i32, i32)>)
    ensures
        match r {
            Some((forth, back)) => tame(data@) && forth == extension(data@) && back
                == back_extension(data@),
            None => !tame(data@),
        },
    decreases data.len(),
{
    if data.len() == 0 {
        return Some((0, 0));
    }
    let res = match checked_diffs(data) {
        Some(res) => res,
        None => {
            return None;
        },
    };
    if is_all_zero(&res) {
        return Some((0, 0));
    }
    let (forth, back) = match extensions(&res) {
        Some(found) => found,
        None => {
            return None;
        },
    };
    let next = res[res.len() - 1] as i64 + forth as i64;
    let before = res[0] as i64 - back as i64;
    if next < i32::MIN as i64 || next > i32::MAX as i64 || before < i32::MIN as i64 || before
        > i32::MAX as i64 {
        return None;
    }
    Some((next as i32, before as i32))
}

/// The value that continues a history, if there is a history and all that
/// is computed on the way fits in 32 bits.
pub fn try_start_consuming(data: &Vec<i32>) -> (r: Option<i32>)
    ensures
        match r {
            Some(v) => data.len() > 0 && tame(data@) && v == data@.last() + extension(data@),
            None => data.len() == 0 || !tame(data@) || !in_i32(data@.last() + extension(data@)),
        },
{
    if data.len() == 0 {
        return None;
    }
    match extensions(data) {
        Some((forth, _)) => {
            let next = data[data.len() - 1] as i64 + forth as i64;
            if next < i32::MIN as i64 || next > i32::MAX as i64 {
                None
            } else {
                Some(start_consuming(data))
            }
        },
        None => None,
    }
}

/// The value that continues a history backwards, if there is a history and
/// all that is computed on the way fits in 32 bits.
pub fn try_start_consuming2(data: &Vec<i32>) -> (r: Option<i32>)
    ensures
        match r {
            Some(v) => data.len() > 0 && tame(data@) && v == data@[0] - back_extension(data@),
            None => data.len() == 0 || !tame(data@) || !in_i32(data@[0] - back_extension(data@)),
        },
{
    if data.len() == 0 {
        return None;
    }
    match extensions(data) {
        Some((_, back)) => {
            let before = data[0] as i64 - back as i64;
            if before < i32::MIN as i64 || before > i32::MAX as i64 {
                None
            } else {
                Some(start_consuming2(data))
            }
        },
        None => None,
    }
}

/// A number with an optional sign at `from` that fits in 32 bits.
pub open spec fn signed_at(s: Seq<char>, from: int) -> Option<(i32, int)> {
    let negative = char_at(s, from, '-');
    let start = if negative || char_at(s, from, '+') {
        from + 1
    } else {
        from
    };
    match number_at(s, start) {
        Some((v, end)) => if negative && v <= 0x8000_0000 {
            Some(((-(v as int)) as i32, end))
        } else if !negative && v <= 0x7fff_ffff {
            Some((v as i32, end))
        } else {
            None
        },
        None => None,
    }
}

/// The values of a history, after some have been read up to `from`:
/// further ones follow while a space and a number do.
pub open spec fn values_from(s: Seq<char>, from: int, done: Seq<i32>) -> (Seq<i32>, int)
    decreases s.len() - from,
{
    if char_at(s, from, ' ') {
        match signed_at(s, from + 1) {
            Some((v, end)) => if from < end <= s.len() {
                values_from(s, end, done.push(v))
            } else {
                (done, from)
            },
            None => (done, from),
        }
    } else {
        (done, from)
    }
}

/// A history at `from`: numbers separated by single spaces.
pub open spec fn history_at(s: Seq<char>, from: int) -> Option<(Seq<i32>, int)> {
    match signed_at(s, from) {
        Some((v, end)) => Some(values_from(s, end, seq![v])),
        None => None,
    }
}

/// The histories of a text, after some have been read up to `from`.
pub open spec fn histories_from(s: Seq<char>, from: int, done: Seq<Seq<i32>>) -> Seq<Seq<i32>>
    decreases s.len() - from,
{
    match line_end_at(s, from) {
        Some(next) => match history_at(s, next) {
            Some((history, end)) => if from < end <= s.len() {
                histories_from(s, end, done.push(history))
            } else {
                done
            },
            None => done,
        },
        None => done,
    }
}

/// The histories that a text lists, one to a line, up to the first line
/// that is none; nothing where the first line is none.
pub open spec fn histories_of(s: Seq<char>) -> Option<Seq<Seq<i32>>> {
    match history_at(s, 0) {
        Some((history, end)) => Some(histories_from(s, end, seq![history])),
        None => None,
    }
}

/// The histories as values.
pub open spec fn history_views(lines: Seq<Vec<i32>>) -> Seq<Seq<i32>> {
    Seq::new(lines.len(), |i: int| lines[i]@)
}

fn take_signed(text: &Vec<char>, from: usize) -> (r: Option<(i32, usize)>)
    requires
        from <= text.len(),
    ensures
        match r {
            Some((v, end)) => signed_at(text@, from as int) == Some((v, end as int)) && from < end
                <= text.len(),
            None => signed_at(text@, from as int) is None,
        },
{
    let negative = is_char_at(text, from, '-');
    let start = if negative || is_char_at(text, from, '+') {
        from + 1
    } else {
        from
    };
    match take_number(text, start) {
        Some((v, end)) => if negative && v <= 0x8000_0000 {
            if v == 0x8000_0000 {
                Some((i32::MIN, end))
            } else {
                Some((-(v as i32), end))
            }
        } else if !negative && v <= 0x7fff_ffff {
            Some((v as i32, end))
        } else {
            None
        },
        None => None,
    }
}

fn parse_history(text: &Vec<char>, from: usize) -> (r: Option<(Vec<i32>, usize)>)
    requires
        from <= text.len(),
    ensures
        match r {
            Some((history, end)) => history_at(text@, from as int) == Some(
                (history@, end as int),
            ) && from < end <= text.len(),
            None => history_at(text@, from as int) is None,
        },
{
    let (first, mut at) = match take_signed(text, from) {
        Some(found) => found,
        None => {
            return None;
        },
    };
    let ghost whole = values_from(text@, at as int, seq![first]);
    let mut values: Vec<i32> = Vec::new();
    values.push(first);
    assert(values@ =~= seq![first]);
    loop
        invariant
            from < at <= text.len(),
            whole == values_from(text@, at as int, values@),
        ensures
            from < at <= text.len(),
            whole == (values@, at as int),
        decreases text.len() - at,
    {
        if !is_char_at(text, at, ' ') {
            break ;
        }
        match take_signed(text, at + 1) {
            Some((v, end)) => {
                values.push(v);
                at = end;
            },
            None => {
                break ;
            },
        }
    }
    Some((values, at))
}

/// Reads the histories of a text.
pub fn parse_lines(input: &str) -> (r: Option<Vec<Vec<i32>>>)
    ensures
        match r {
            Some(lines) => histories_of(input@) == Some(history_views(lines@)),
            None => histories_of(input@) is None,
        },
{
    let text = chars_of(input);
    let (first, mut at) = match parse_history(&text, 0) {
        Some(found) => found,
        None => {
            return None;
        },
    };
    let ghost mut done = seq![first@];
    let mut lines: Vec<Vec<i32>> = Vec::new();
    lines.push(first);
    loop
        invariant
            at <= text.len(),
            text@ == input@,
            done.len() == lines.len(),
            forall|i: int| 0 <= i < lines.len() ==> (#[trigger] lines[i])@ == done[i],
            histories_of(text@) == Some(histories_from(text@, at as int, done)),
        ensures
            done.len() == lines.len(),
            forall|i: int| 0 <= i < lines.len() ==> (#[trigger] lines[i])@ == done[i],
            histories_of(input@) == Some(done),
        decreases text.len() - at,
    {
        let next = match skip_line_end(&text, at) {
            Some(next) => next,
            None => {
                break ;
            },
        };
        match parse_history(&text, next) {
            Some((history, end)) => {
                proof {
                    done = done.push(history@);
                }
                lines.push(history);
                at = end;
            },
            None => {
                break ;
            },
        }
    }
    assert(history_views(lines@) =~= done);
    Some(lines)
}

} // verus!
