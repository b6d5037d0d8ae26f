use crate::text::decimal_value;
use crate::text::digit_of;
use crate::text::digit_value;
use crate::text::lemma_decimal_grows;
use vstd::prelude::*;

verus! {

/// The classes of characters that a scanner tells apart.
#[derive(Clone, Copy, Debug, PartialEq, Eq, Structural)]
pub enum Class {
    /// A decimal digit.
    Digit,
    /// A letter of the basic alphabet.
    Letter,
    /// A letter of the basic alphabet or a decimal digit.
    LetterOrDigit,
    /// A space or a tab.
    Blank,
    /// A space, a tab, a line feed or a carriage return.
    Space,
}

/// Whether a character is a letter of the basic alphabet.
pub open spec fn is_letter(c: char) -> bool {
    ('a' <= c && c <= 'z') || ('A' <= c && c <= 'Z')
}

/// Whether a character belongs to a class.
pub open spec fn in_class(c: char, class: Class) -> bool {
    match class {
        Class::Digit => digit_value(c) is Some,
        Class::Letter => is_letter(c),
        Class::LetterOrDigit => is_letter(c) || digit_value(c) is Some,
        Class::Blank => c == ' ' || c == '\t',
        Class::Space => c == ' ' || c == '\t' || c == '\n' || c == '\r',
    }
}

/// Whether a character belongs to a class.
pub fn belongs(c: char, class: Class) -> (r: bool)
    ensures
        r == in_class(c, class),
{
    let letter = ('a' <= c && c <= 'z') || ('A' <= c && c <= 'Z');
    let digit = '0' <= c && c <= '9';
    match class {
        Class::Digit => digit,
        Class::Letter => letter,
        Class::LetterOrDigit => letter || digit,
        Class::Blank => c == ' ' || c == '\t',
        Class::Space => c == ' ' || c == '\t' || c == '\n' || c == '\r',
    }
}

/// Where the run of characters of a class that starts at `from` ends.
pub open spec fn run_end(s: Seq<char>, from: int, class: Class) -> int
    decreases s.len() - from,
{
    if from < 0 || from >= s.len() || !in_class(s[from], class) {
        from
    } else {
        run_end(s, from + 1, class)
    }
}

/// A run ends within the text, and holds characters of its class only.
pub proof fn lemma_run_end(s: Seq<char>, from: int, class: Class)
    requires
        0 <= from <= s.len(),
    ensures
        from <= run_end(s, from, class) <= s.len(),
        forall|i: int| from <= i < run_end(s, from, class) ==> in_class(#[trigger] s[i], class),
    decreases s.len() - from,
{
    if from < s.len() && in_class(s[from], class) {
        lemma_run_end(s, from + 1, class);
    }
}

/// Skips the characters of a class.
pub fn skip_run(text: &Vec<char>, from: usize, class: Class) -> (end: usize)
    requires
        from <= text.len(),
    ensures
        end == run_end(text@, from as int, class),
        from <= end <= text.len(),
{
    let mut i = from;
    while i < text.len() && belongs(text[i], class)
        invariant
            from <= i <= text.len(),
            run_end(text@, from as int, class) == run_end(text@, i as int, class),
        decreases text.len() - i,
    {
        i = i + 1;
    }
    i
}

/// Whether `lit` stands in `s` at `from`.
pub open spec fn has_at(s: Seq<char>, from: int, lit: Seq<char>) -> bool {
    0 <= from && from + lit.len() <= s.len() && s.subrange(from, from + lit.len()) == lit
}

/// Where the text goes on after `lit`, if `lit` stands at `from`.
pub fn skip_literal(text: &Vec<char>, from: usize, lit: &Vec<char>) -> (r: Option<usize>)
    requires
        from <= text.len(),
    ensures
        match r {
            Some(end) => has_at(text@, from as int, lit@) && end == from + lit.len(),
            None => !has_at(text@, from as int, lit@),
        },
{
    let m = lit.len();
    if text.len() - from < m {
        return None;
    }
    let mut i: usize = 0;
    while i < m
        invariant
            m == lit.len(),
            from + m <= text.len(),
            i <= m,
            forall|j: int| 0 <= j < i ==> text[from + j] == lit[j],
        decreases m - i,
    {
        if text[from + i] != lit[i] {
            assert(text@.subrange(from as int, from + m)[i as int] != lit@[i as int]);
            return None;
        }
        i = i + 1;
    }
    assert(text@.subrange(from as int, from + m) =~= lit@);
    Some(from + m)
}

/// Whether the character `c` stands in `s` at `from`.
pub open spec fn char_at(s: Seq<char>, from: int, c: char) -> bool {
    0 <= from < s.len() && s[from] == c
}

/// Whether the character `c` stands in the text at `from`.
pub fn is_char_at(text: &Vec<char>, from: usize, c: char) -> (r: bool)
    ensures
        r == char_at(text@, from as int, c),
{
    from < text.len() && text[from] == c
}

/// The number that the digits from `from` on write, and where they end:
/// there is one if there is a digit and the number fits in 64 bits.
pub open spec fn number_at(s: Seq<char>, from: int) -> Option<(u64, int)> {
    let end = run_end(s, from, Class::Digit);
    if end > from && decimal_value(s.subrange(from, end)) <= u64::MAX {
        Some((decimal_value(s.subrange(from, end)) as u64, end))
    } else {
        None
    }
}

/// Reads an unsigned decimal number.
pub fn take_number(text: &Vec<char>, from: usize) -> (r: Option<(u64, usize)>)
    requires
        from <= text.len(),
    ensures
        match r {
            Some((v, end)) => number_at(text@, from as int) == Some((v, end as int)) && from < end
                <= text.len(),
            None => number_at(text@, from as int) is None,
        },
{
    let end = skip_run(text, from, Class::Digit);
    if end == from {
        return None;
    }
    proof {
        lemma_run_end(text@, from as int, Class::Digit);
    }
    let ghost digits = text@.subrange(from as int, end as int);
    let mut v: u64 = 0;
    let mut i = from;
    assert(digits.take(0) =~= Seq::<char>::empty());
    while i < end
        invariant
            from <= i <= end <= text.len(),
            end == run_end(text@, from as int, Class::Digit),
            digits == text@.subrange(from as int, end as int),
            forall|j: int| from <= j < end ==> in_class(#[trigger] text[j], Class::Digit),
            v == decimal_value(digits.take(i - from)),
        decreases end - i,
    {
        assert(digits.take(i + 1 - from).drop_last() =~= digits.take(i - from));
        assert(digits.take(i + 1 - from).last() == text[i as int]);
        assert(in_class(text[i as int], Class::Digit));
        let d = digit_of(text[i]).unwrap();
        if v > (u64::MAX - d as u64) / 10 {
            proof {
                assert(decimal_value(digits.take(i + 1 - from)) == 10 * v + d);
                lemma_decimal_grows(digits, i + 1 - from);
            }
            return None;
        }
        v = v * 10 + d as u64;
        i = i + 1;
    }
    assert(digits.take(end - from) =~= digits);
    Some((v, end))
}

/// Where the text goes on after the line end at `from`, if there is one: a
/// line feed, or a carriage return and a line feed.
pub open spec fn line_end_at(s: Seq<char>, from: int) -> Option<int> {
    if char_at(s, from, '\n') {
        Some(from + 1)
    } else if char_at(s, from, '\r') && char_at(s, from + 1, '\n') {
        Some(from + 2)
    } else {
        None
    }
}

/// Where the text goes on after the line end at `from`, if there is one.
pub fn skip_line_end(text: &Vec<char>, from: usize) -> (r: Option<usize>)
    requires
        from <= text.len(),
    ensures
        match r {
            Some(end) => line_end_at(text@, from as int) == Some(end as int) && from < end
                <= text.len(),
            None => line_end_at(text@, from as int) is None,
        },
{
    if is_char_at(text, from, '\n') {
        Some(from + 1)
    } else if is_char_at(text, from, '\r') && is_char_at(text, from + 1, '\n') {
        Some(from + 2)
    } else {
        None
    }
}

/// The index of the first `c` at or after `from`, or the length where
/// there is none.
pub open spec fn index_of(s: Seq<char>, from: int, c: char) -> int
    decreases s.len() - from,
{
    if from < 0 || from >= s.len() || s[from] == c {
        from
    } else {
        index_of(s, from + 1, c)
    }
}

/// The index of the first `c` at or after `from`, or the length.
pub fn find_char(text: &Vec<char>, from: usize, c: char) -> (at: usize)
    requires
        from <= text.len(),
    ensures
        at == index_of(text@, from as int, c),
        from <= at <= text.len(),
        at < text.len() ==> text[at as int] == c,
{
    let mut i = from;
    while i < text.len() && text[i] != c
        invariant
            from <= i <= text.len(),
            index_of(text@, from as int, c) == index_of(text@, i as int, c),
        decreases text.len() - i,
    {
        i = i + 1;
    }
    i
}

/// The value of a hexadecimal digit, if the character is one.
pub open spec fn hex_value(c: char) -> Option<nat> {
    if '0' <= c && c <= '9' {
        Some((c as u32 - '0' as u32) as nat)
    } else if 'a' <= c && c <= 'f' {
        Some((c as u32 - 'a' as u32 + 10) as nat)
    } else if 'A' <= c && c <= 'F' {
        Some((c as u32 - 'A' as u32 + 10) as nat)
    } else {
        None
    }
}

/// The value of a hexadecimal digit, if the character is one.
pub fn hex_of(c: char) -> (r: Option<u8>)
    ensures
        match r {
            Some(d) => hex_value(c) == Some(d as nat) && d <= 15,
            None => hex_value(c) is None,
        },
{
    if '0' <= c && c <= '9' {
        Some((c as u32 - '0' as u32) as u8)
    } else if 'a' <= c && c <= 'f' {
        Some((c as u32 - 'a' as u32 + 10) as u8)
    } else if 'A' <= c && c <= 'F' {
        Some((c as u32 - 'A' as u32 + 10) as u8)
    } else {
        None
    }
}

} // verus!
