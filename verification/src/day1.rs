use crate::text::chars_of;
use crate::text::lines;
use crate::text::lines_spec;
use crate::text::views;
use vstd::prelude::*;

verus! {

/// A capital letter of the basic alphabet as its small letter, any other
/// character as it is.
pub open spec fn lower(c: char) -> char {
    if 'A' <= c && c <= 'Z' {
        ((c as u32) + 32) as char
    } else {
        c
    }
}

fn to_lower(c: char) -> (r: char)
    ensures
        r == lower(c),
{
    if 'A' <= c && c <= 'Z' {
        let code: u8 = (c as u32 + 32) as u8;
        code as char
    } else {
        c
    }
}

/// Whether `s` begins with `word`, whatever the case of its letters; `word`
/// is in small letters.
pub open spec fn begins_with(s: Seq<char>, word: Seq<char>) -> bool {
    word.len() <= s.len() && forall|i: int| 0 <= i < word.len() ==> lower(#[trigger] s[i]) == word[i]
}

fn has_prefix(text: &Vec<char>, from: usize, word: &Vec<char>) -> (r: bool)
    requires
        from <= text.len(),
    ensures
        r == begins_with(text@.skip(from as int), word@),
{
    let m = word.len();
    if text.len() - from < m {
        return false;
    }
    let ghost s = text@.skip(from as int);
    let mut i: usize = 0;
    while i < m
        invariant
            m == word.len(),
            from + m <= text.len(),
            i <= m,
            s == text@.skip(from as int),
            forall|j: int| 0 <= j < i ==> lower(#[trigger] s[j]) == word[j],
        decreases m - i,
    {
        assert(s[i as int] == text[from + i]);
        if to_lower(text[from + i]) != word[i] {
            return false;
        }
        i = i + 1;
    }
    true
}

/// The digit that `s` begins with, if it begins with one.
pub open spec fn leading_digit(s: Seq<char>) -> Option<char> {
    if s.len() > 0 && '0' <= s[0] && s[0] <= '9' {
        Some(s[0])
    } else {
        None
    }
}

/// The words for the digits from zero to nine.
pub open spec fn digit_words() -> Seq<Seq<char>> {
    seq![
        seq!['z', 'e', 'r', 'o'],
        seq!['o', 'n', 'e'],
        seq!['t', 'w', 'o'],
        seq!['t', 'h', 'r', 'e', 'e'],
        seq!['f', 'o', 'u', 'r'],
        seq!['f', 'i', 'v', 'e'],
        seq!['s', 'i', 'x'],
        seq!['s', 'e', 'v', 'e', 'n'],
        seq!['e', 'i', 'g', 'h', 't'],
        seq!['n', 'i', 'n', 'e'],
    ]
}

/// The digit whose word `s` begins with, trying the first `k` words in
/// order, or the digit that `s` begins with.
pub open spec fn spelled_upto(s: Seq<char>, k: nat) -> Option<char>
    decreases k,
{
    if k == 0 || k > 10 {
        None
    } else {
        match spelled_upto(s, (k - 1) as nat) {
            Some(d) => Some(d),
            None => if begins_with(s, digit_words()[k - 1]) || leading_digit(s) == Some(
                ('0' as u32 + (k - 1)) as char,
            ) {
                Some(('0' as u32 + (k - 1)) as char)
            } else {
                None
            },
        }
    }
}

/// The digit that `s` begins with, written as a digit or spelled out.
pub open spec fn spelled_digit(s: Seq<char>) -> Option<char> {
    spelled_upto(s, 10)
}

fn words() -> (w: Vec<Vec<char>>)
    ensures
        views(w@) == digit_words(),
{
    let w = vec![
        vec!['z', 'e', 'r', 'o'],
        vec!['o', 'n', 'e'],
        vec!['t', 'w', 'o'],
        vec!['t', 'h', 'r', 'e', 'e'],
        vec!['f', 'o', 'u', 'r'],
        vec!['f', 'i', 'v', 'e'],
        vec!['s', 'i', 'x'],
        vec!['s', 'e', 'v', 'e', 'n'],
        vec!['e', 'i', 'g', 'h', 't'],
        vec!['n', 'i', 'n', 'e'],
    ];
    assert(views(w@) =~= digit_words()) by {
        assert forall|i: int| 0 <= i < 10 implies views(w@)[i] =~= digit_words()[i] by {}
    }
    w
}

fn digit_at(text: &Vec<char>, from: usize) -> (r: Option<char>)
    requires
        from <= text.len(),
    ensures
        r == leading_digit(text@.skip(from as int)),
{
    if from < text.len() {
        let c = text[from];
        assert(text@.skip(from as int)[0] == c);
        if '0' <= c && c <= '9' {
            return Some(c);
        }
    }
    None
}

fn spelled_at(text: &Vec<char>, from: usize, names: &Vec<Vec<char>>) -> (r: Option<char>)
    requires
        from <= text.len(),
        views(names@) == digit_words(),
    ensures
        r == spelled_digit(text@.skip(from as int)),
{
    let ghost s = text@.skip(from as int);
    let plain = digit_at(text, from);
    let mut k: usize = 0;
    assert(names.len() == 10) by {
        assert(views(names@).len() == names.len());
        assert(digit_words().len() == 10);
    }
    while k < 10
        invariant
            k <= 10,
            names.len() == 10,
            from <= text.len(),
            s == text@.skip(from as int),
            views(names@) == digit_words(),
            plain == leading_digit(s),
            spelled_upto(s, k as nat) is None,
        decreases 10 - k,
    {
        assert(views(names@)[k as int] == names[k as int]@);
        let digit = (48u8 + k as u8) as char;
        let is_plain = match plain {
            Some(c) => c == digit,
            None => false,
        };
        if has_prefix(text, from, &names[k]) || is_plain {
            assert(spelled_upto(s, (k + 1) as nat) == Some(digit));
            proof {
                lemma_spelled_stays(s, (k + 1) as nat, 10);
            }
            return Some(digit);
        }
        k = k + 1;
    }
    None
}

proof fn lemma_spelled_stays(s: Seq<char>, k: nat, m: nat)
    requires
        k <= m <= 10,
        spelled_upto(s, k) is Some,
    ensures
        spelled_upto(s, m) == spelled_upto(s, k),
    decreases m - k,
{
    if k < m {
        lemma_spelled_stays(s, k, (m - 1) as nat);
    }
}

/// The digit that a text begins with.
pub fn fancy_str_to_number_part1(input: &str) -> (r: Option<char>)
    ensures
        r == leading_digit(input@),
{
    let text = chars_of(input);
    assert(text@.skip(0) =~= text@);
    digit_at(&text, 0)
}

/// The digit that a text begins with, written as a digit or spelled out in
/// letters of either case.
pub fn fancy_str_to_number_part2(input: &str) -> (r: Option<char>)
    ensures
        r == spelled_digit(input@),
{
    let text = chars_of(input);
    let names = words();
    assert(text@.skip(0) =~= text@);
    spelled_at(&text, 0, &names)
}

/// The first digit found among the first `k` positions of a line.
pub open spec fn first_upto(line: Seq<char>, k: nat, spelled: bool) -> Option<char>
    decreases k,
{
    if k == 0 || k > line.len() {
        None
    } else {
        match first_upto(line, (k - 1) as nat, spelled) {
            Some(d) => Some(d),
            None => found_at(line, k - 1, spelled),
        }
    }
}

/// The last digit found among the first `k` positions of a line.
pub open spec fn last_upto(line: Seq<char>, k: nat, spelled: bool) -> Option<char>
    decreases k,
{
    if k == 0 || k > line.len() {
        None
    } else {
        match found_at(line, k - 1, spelled) {
            Some(d) => Some(d),
            None => last_upto(line, (k - 1) as nat, spelled),
        }
    }
}

/// The digit that stands at position `i` of a line.
pub open spec fn found_at(line: Seq<char>, i: int, spelled: bool) -> Option<char> {
    if spelled {
        spelled_digit(line.skip(i))
    } else {
        leading_digit(line.skip(i))
    }
}

/// The value of a digit character.
pub open spec fn digit_number(c: char) -> int {
    c as u32 - '0' as u32
}

/// The calibration value of a line: its first digit as tens and its last
/// digit as units, or nothing where it has no digit.
pub open spec fn line_value(line: Seq<char>, spelled: bool) -> int {
    match (
        first_upto(line, line.len(), spelled),
        last_upto(line, line.len(), spelled),
    ) {
        (Some(a), Some(b)) => 10 * digit_number(a) + digit_number(b),
        _ => 0,
    }
}

/// The sum of the calibration values of the first `k` lines.
pub open spec fn calibration_upto(lines: Seq<Seq<char>>, k: nat, spelled: bool) -> int
    decreases k,
{
    if k == 0 || k > lines.len() {
        0
    } else {
        calibration_upto(lines, (k - 1) as nat, spelled) + line_value(lines[k - 1], spelled)
    }
}

/// The sum of the calibration values of all lines of a text.
pub open spec fn calibration_value(text: Seq<char>, spelled: bool) -> int {
    calibration_upto(lines_spec(text), lines_spec(text).len(), spelled)
}

proof fn lemma_found_is_digit(line: Seq<char>, i: int, spelled: bool)
    ensures
        match found_at(line, i, spelled) {
            Some(d) => '0' <= d && d <= '9',
            None => true,
        },
{
    if spelled {
        lemma_spelled_is_digit(line.skip(i), 10);
    }
}

proof fn lemma_spelled_is_digit(s: Seq<char>, k: nat)
    ensures
        match spelled_upto(s, k) {
            Some(d) => '0' <= d && d <= '9',
            None => true,
        },
    decreases k,
{
    if 0 < k <= 10 {
        lemma_spelled_is_digit(s, (k - 1) as nat);
    }
}

fn value_of_line(line: &Vec<char>, spelled: bool, names: &Vec<Vec<char>>) -> (v: i32)
    requires
        views(names@) == digit_words(),
    ensures
        v == line_value(line@, spelled),
        0 <= v <= 99,
{
    let n = line.len();
    let mut a: Option<char> = None;
    let mut b: Option<char> = None;
    let mut i: usize = 0;
    while i < n
        invariant
            n == line.len(),
            i <= n,
            views(names@) == digit_words(),
            a == first_upto(line@, i as nat, spelled),
            b == last_upto(line@, i as nat, spelled),
            a is Some ==> '0' <= a->0 && a->0 <= '9',
            b is Some ==> '0' <= b->0 && b->0 <= '9',
        decreases n - i,
    {
        let found = if spelled {
            spelled_at(line, i, names)
        } else {
            digit_at(line, i)
        };
        proof {
            lemma_found_is_digit(line@, i as int, spelled);
        }
        if a.is_none() {
            a = found;
        }
        if found.is_some() {
            b = found;
        }
        i = i + 1;
    }
    match (a, b) {
        (Some(x), Some(y)) => {
            let tens: u32 = x as u32 - '0' as u32;
            let units: u32 = y as u32 - '0' as u32;
            (tens * 10 + units) as i32
        },
        _ => 0,
    }
}

fn calibrate(input: &str, spelled: bool) -> (v: i32)
    requires
        99 * lines_spec(input@).len() <= i32::MAX,
    ensures
        v == calibration_value(input@, spelled),
{
    let text = chars_of(input);
    let all = lines(&text);
    let names = words();
    let n = all.len();
    let mut sum: i32 = 0;
    let mut k: usize = 0;
    while k < n
        invariant
            n == all.len(),
            k <= n,
            99 * n <= i32::MAX,
            views(names@) == digit_words(),
            sum == calibration_upto(views(all@), k as nat, spelled),
            0 <= sum <= 99 * k,
        decreases n - k,
    {
        assert(views(all@)[k as int] == all[k as int]@);
        let v = value_of_line(&all[k], spelled, &names);
        sum = sum + v;
        k = k + 1;
    }
    sum
}

/// The sum, over the lines of a text, of the two-digit numbers made of each
/// line's first and last digit.
pub fn compute_calibration_value_part1(input: &str) -> (v: i32)
    requires
        99 * lines_spec(input@).len() <= i32::MAX,
    ensures
        v == calibration_value(input@, false),
{
    calibrate(input, false)
}

/// The same sum where digits may also be spelled out.
pub fn compute_calibration_value_part2(input: &str) -> (v: i32)
    requires
        99 * lines_spec(input@).len() <= i32::MAX,
    ensures
        v == calibration_value(input@, true),
{
    calibrate(input, true)
}

} // verus!
