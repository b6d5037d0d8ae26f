use vstd::prelude::*;

verus! {

/// Collects the characters of a string slice, in order.
pub fn chars_of(s: &str) -> (v: Vec<char>)
    ensures
        v@ == s@,
{
    let mut v: Vec<char> = Vec::new();
    for c in it: s.chars()
        invariant
            it.seq() == s@,
            v@ == s@.take(it.index() as int),
    {
        v.push(c);
        assert(v@ =~= s@.take(it.index() + 1));
    }
    assert(v@ =~= s@);
    v
}

/// The code point of a character.
pub fn code_of(c: char) -> (code: u32)
    ensures
        code == c as u32,
        code <= 0x10ffff,
{
    c as u32
}

/// The contents of a list of character vectors.
pub open spec fn views(v: Seq<Vec<char>>) -> Seq<Seq<char>> {
    Seq::new(v.len(), |i: int| v[i]@)
}

/// The pieces of `s` between the occurrences of `sep`: one more than there
/// are occurrences, empty pieces included.
pub open spec fn split_spec(s: Seq<char>, sep: char) -> Seq<Seq<char>>
    decreases s.len(),
{
    if s.len() == 0 {
        seq![Seq::empty()]
    } else {
        let before = split_spec(s.drop_last(), sep);
        if s.last() == sep {
            before.push(Seq::empty())
        } else {
            before.update(before.len() - 1, before.last().push(s.last()))
        }
    }
}

/// A text has at least one piece.
pub proof fn lemma_split_nonempty(s: Seq<char>, sep: char)
    ensures
        split_spec(s, sep).len() >= 1,
    decreases s.len(),
{
    if s.len() > 0 {
        lemma_split_nonempty(s.drop_last(), sep);
    }
}

/// Splits a text at every occurrence of `sep`.
pub fn split(text: &Vec<char>, sep: char) -> (r: Vec<Vec<char>>)
    ensures
        views(r@) == split_spec(text@, sep),
{
    let mut done: Vec<Vec<char>> = Vec::new();
    let mut cur: Vec<char> = Vec::new();
    let n = text.len();
    let mut i: usize = 0;
    assert(text@.take(0) =~= Seq::<char>::empty());
    assert(views(done@).push(cur@) =~= split_spec(text@.take(0), sep));
    while i < n
        invariant
            n == text.len(),
            i <= n,
            views(done@).push(cur@) == split_spec(text@.take(i as int), sep),
        decreases n - i,
    {
        let c = text[i];
        proof {
            assert(text@.take(i + 1).drop_last() =~= text@.take(i as int));
            assert(text@.take(i + 1).last() == c);
        }
        let ghost before = views(done@).push(cur@);
        if c == sep {
            done.push(cur);
            cur = Vec::new();
            assert(views(done@).push(cur@) =~= before.push(Seq::empty()));
        } else {
            cur.push(c);
            assert(views(done@).push(cur@) =~= before.update(
                before.len() - 1,
                before.last().push(c),
            ));
        }
        i = i + 1;
    }
    assert(text@.take(n as int) =~= text@);
    let ghost before = views(done@).push(cur@);
    done.push(cur);
    assert(views(done@) =~= before);
    done
}

/// A line without the carriage return that may end it.
pub open spec fn strip_cr(line: Seq<char>) -> Seq<char> {
    if line.len() > 0 && line.last() == '\r' {
        line.drop_last()
    } else {
        line
    }
}

/// The lines of a text: the pieces between its line feeds, each piece that
/// a line feed ends without a carriage return before that line feed; an
/// empty piece after the last line feed is no line.
pub open spec fn lines_spec(s: Seq<char>) -> Seq<Seq<char>> {
    let pieces = split_spec(s, '\n');
    let kept = if pieces.last().len() == 0 {
        pieces.drop_last()
    } else {
        pieces
    };
    Seq::new(
        kept.len(),
        |i: int|
            if i + 1 < pieces.len() {
                strip_cr(kept[i])
            } else {
                kept[i]
            },
    )
}

/// Splits a text into its lines.
pub fn lines(text: &Vec<char>) -> (r: Vec<Vec<char>>)
    ensures
        views(r@) == lines_spec(text@),
{
    let mut pieces = split(text, '\n');
    proof {
        lemma_split_nonempty(text@, '\n');
    }
    let ghost all = views(pieces@);
    let ended = pieces.len() - 1;
    assert(all.last() == pieces[pieces.len() - 1]@);
    if pieces[pieces.len() - 1].len() == 0 {
        pieces.pop();
        assert(views(pieces@) =~= all.drop_last());
    }
    let ghost kept = views(pieces@);
    let mut out: Vec<Vec<char>> = Vec::new();
    let m = pieces.len();
    let mut i: usize = 0;
    while i < m
        invariant
            m == pieces.len(),
            i <= m,
            kept == views(pieces@),
            out.len() == i,
            forall|j: int|
                0 <= j < i ==> out[j]@ == if j < ended {
                    strip_cr(kept[j])
                } else {
                    kept[j]
                },
        decreases m - i,
    {
        let mut line = pieces[i].clone();
        assert(line@ == kept[i as int]);
        if i < ended && line.len() > 0 && line[line.len() - 1] == '\r' {
            line.pop();
        }
        out.push(line);
        i = i + 1;
    }
    assert(views(out@) =~= lines_spec(text@));
    out
}

/// The value of a decimal digit, if the character is one.
pub open spec fn digit_value(c: char) -> Option<nat> {
    if '0' <= c && c <= '9' {
        Some((c as u32 - '0' as u32) as nat)
    } else {
        None
    }
}

/// The value of a decimal digit, if the character is one.
pub fn digit_of(c: char) -> (r: Option<u8>)
    ensures
        match r {
            Some(d) => digit_value(c) == Some(d as nat) && d <= 9,
            None => digit_value(c) is None,
        },
{
    if '0' <= c && c <= '9' {
        Some((c as u32 - '0' as u32) as u8)
    } else {
        None
    }
}

/// Whether every character is a decimal digit.
pub open spec fn all_digits(s: Seq<char>) -> bool {
    forall|i: int| 0 <= i < s.len() ==> digit_value(#[trigger] s[i]) is Some
}

/// The number that a sequence of decimal digits writes; a character that is
/// no digit counts as zero.
pub open spec fn decimal_value(s: Seq<char>) -> nat
    decreases s.len(),
{
    if s.len() == 0 {
        0
    } else {
        10 * decimal_value(s.drop_last()) + match digit_value(s.last()) {
            Some(d) => d,
            None => 0,
        }
    }
}

/// The first digits of a number write no more than all of them.
pub proof fn lemma_decimal_grows(s: Seq<char>, k: int)
    requires
        0 <= k <= s.len(),
    ensures
        decimal_value(s.take(k)) <= decimal_value(s),
    decreases s.len() - k,
{
    if k < s.len() {
        lemma_decimal_grows(s, k + 1);
        assert(s.take(k + 1).drop_last() =~= s.take(k));
    } else {
        assert(s.take(k) =~= s);
    }
}

/// Reads an unsigned decimal number: there is one if and only if the text
/// is not empty, holds decimal digits only, and its value fits.
pub fn parse_number(s: &Vec<char>) -> (r: Option<u64>)
    ensures
        match r {
            Some(v) => s.len() > 0 && all_digits(s@) && v == decimal_value(s@),
            None => s.len() == 0 || !all_digits(s@) || decimal_value(s@) > u64::MAX,
        },
{
    let n = s.len();
    if n == 0 {
        return None;
    }
    let mut v: u64 = 0;
    let mut i: usize = 0;
    let mut fits = true;
    assert(s@.take(0) =~= Seq::<char>::empty());
    while i < n
        invariant
            n == s.len(),
            i <= n,
            all_digits(s@.take(i as int)),
            fits ==> v == decimal_value(s@.take(i as int)),
            !fits ==> decimal_value(s@.take(i as int)) > u64::MAX,
        decreases n - i,
    {
        let ghost before = s@.take(i as int);
        let ghost after = s@.take(i + 1);
        proof {
            assert(after.drop_last() =~= before);
            assert(after.last() == s[i as int]);
        }
        match digit_of(s[i]) {
            None => {
                assert(!all_digits(s@));
                return None;
            },
            Some(d) => {
                assert forall|j: int| 0 <= j < after.len() implies digit_value(
                    #[trigger] after[j],
                ) is Some by {
                    if j < i {
                        assert(after[j] == before[j]);
                    }
                }
                if fits {
                    if v > (u64::MAX - d as u64) / 10 {
                        fits = false;
                    } else {
                        v = v * 10 + d as u64;
                    }
                }
            },
        }
        i = i + 1;
    }
    assert(s@.take(n as int) =~= s@);
    if fits {
        Some(v)
    } else {
        None
    }
}

} // verus!
