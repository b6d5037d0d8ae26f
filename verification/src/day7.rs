use crate::scan::line_end_at;
use crate::scan::number_at;
use crate::scan::run_end;
use crate::scan::skip_line_end;
use crate::scan::skip_run;
use crate::scan::take_number;
use crate::scan::Class;
use crate::text::chars_of;
use itertools::Itertools;
use std::collections::HashMap;
use vstd::prelude::*;
use vstd::relations::sorted_by;
use vstd::seq_lib::lemma_sorted_unique;

verus! {

/// The character that a card of the given strength is written with: `*` for
/// a joker, the digit for two to nine, a letter for ten to ace, `X` for
/// anything else.
pub open spec fn symbol_of(value: u8) -> char {
    if value == 1 {
        '*'
    } else if 2 <= value <= 9 {
        (48 + value) as char
    } else if value == 10 {
        'T'
    } else if value == 11 {
        'J'
    } else if value == 12 {
        'Q'
    } else if value == 13 {
        'K'
    } else if value == 14 {
        'A'
    } else {
        'X'
    }
}

/// The strength of a card as text.
pub fn symbolic_value(value: u8) -> (s: String)
    ensures
        s@ == seq![symbol_of(value)],
{
    proof {
        reveal_strlit("*");
        reveal_strlit("2");
        reveal_strlit("3");
        reveal_strlit("4");
        reveal_strlit("5");
        reveal_strlit("6");
        reveal_strlit("7");
        reveal_strlit("8");
        reveal_strlit("9");
        reveal_strlit("T");
        reveal_strlit("J");
        reveal_strlit("Q");
        reveal_strlit("K");
        reveal_strlit("A");
        reveal_strlit("X");
    }
    let text = match value {
        1 => "*",
        2 => "2",
        3 => "3",
        4 => "4",
        5 => "5",
        6 => "6",
        7 => "7",
        8 => "8",
        9 => "9",
        10 => "T",
        11 => "J",
        12 => "Q",
        13 => "K",
        14 => "A",
        _ => "X",
    };
    assert(text@ =~= seq![symbol_of(value)]);
    text.to_owned()
}

/// A card, by its strength.
#[derive(Clone, Copy, Debug, PartialEq, Eq, Structural)]
pub struct Card {
    pub value: u8,
}

/// A hand: its cards, its bid, and the points of its kind.
#[derive(Debug)]
pub struct Hand {
    pub cards: Vec<Card>,
    pub bid: u32,
    pub points: u32,
}

/// A hand as a value.
pub struct HandView {
    pub cards: Seq<Card>,
    pub bid: u32,
    pub points: u32,
}

impl Hand {
    /// The hand as a value.
    pub open spec fn view(&self) -> HandView {
        HandView { cards: self.cards@, bid: self.bid, points: self.points }
    }
}

/// The hands as values.
pub open spec fn views(hands: Seq<Hand>) -> Seq<HandView> {
    Seq::new(hands.len(), |i: int| hands[i]@)
}

/// How often `value` occurs.
pub open spec fn occurrences(values: Seq<u8>, value: u8) -> nat {
    values.filter(|v: u8| v == value).len()
}

/// For every value that occurs, how often it does.
pub open spec fn counts_of(values: Seq<u8>) -> Map<u8, usize> {
    Map::new(|v: u8| values.contains(v), |v: u8| occurrences(values, v) as usize)
}

/// `Itertools::counts_by` with the value itself as the key: a map from
/// every value that occurs to the number of times that it does.
#[verifier::external_body]
fn count_values(values: &Vec<u8>) -> (counts: HashMap<u8, usize>)
    ensures
        counts@ == counts_of(values@),
{
    values.iter().counts_by(|v| *v)
}

/// The values of the keys below `k`, in the order of the keys.
pub open spec fn values_below(counts: Map<u8, usize>, k: nat) -> Seq<usize>
    decreases k,
{
    if k == 0 {
        Seq::empty()
    } else if k <= 256 && counts.dom().contains((k - 1) as u8) {
        values_below(counts, (k - 1) as nat).push(counts[(k - 1) as u8])
    } else {
        values_below(counts, (k - 1) as nat)
    }
}

/// The order of numbers by size.
pub open spec fn by_size() -> spec_fn(usize, usize) -> bool {
    |a: usize, b: usize| a <= b
}

/// The values of a map in ascending order, each as often as it is the value
/// of a key.
pub open spec fn sorted_values_of(counts: Map<u8, usize>) -> Seq<usize> {
    values_below(counts, 256).sort_by(by_size())
}

/// The sorted values of a map are in ascending order, and each number is
/// among them as often as it is the value of a key.
pub proof fn lemma_sorted_values(counts: Map<u8, usize>)
    ensures
        sorted_by(sorted_values_of(counts), by_size()),
        sorted_values_of(counts).to_multiset() == values_below(counts, 256).to_multiset(),
        sorted_values_of(counts).len() == values_below(counts, 256).len(),
{
    let values = values_below(counts, 256);
    values.lemma_sort_by_ensures(by_size());
    values.to_multiset_ensures();
    values.sort_by(by_size()).to_multiset_ensures();
}

/// `Itertools::sorted` on the values of a map: a new sequence of the same
/// elements, each as often as the map has it as a value, in ascending order.
#[verifier::external_body]
fn sorted_values(counts: &HashMap<u8, usize>) -> (sorted: Vec<usize>)
    ensures
        sorted@.to_multiset() == values_below(counts@, 256).to_multiset(),
        forall|i: int, j: int| 0 <= i <= j < sorted@.len() ==> sorted@[i] <= sorted@[j],
{
    counts.values().copied().sorted().collect()
}

/// The values of a map in ascending order.
fn sorted_counts(counts: &HashMap<u8, usize>) -> (sorted: Vec<usize>)
    ensures
        sorted@ == sorted_values_of(counts@),
{
    let sorted = sorted_values(counts);
    proof {
        lemma_sorted_values(counts@);
        lemma_sorted_unique(sorted@, sorted_values_of(counts@), by_size());
    }
    sorted
}

/// The decimal digits of a number, the last of them first.
pub open spec fn digits_reversed(n: nat) -> Seq<char>
    decreases n,
{
    if n < 10 {
        seq![(48 + n) as char]
    } else {
        seq![(48 + n % 10) as char] + digits_reversed(n / 10)
    }
}

/// A number as text.
pub open spec fn decimal(n: nat) -> Seq<char> {
    digits_reversed(n).reverse()
}

/// The first `k` numbers written one after the other without a gap.
pub open spec fn written(counts: Seq<usize>, k: nat) -> Seq<char>
    decreases k,
{
    if k == 0 || k > counts.len() {
        Seq::empty()
    } else {
        written(counts, (k - 1) as nat) + decimal(counts[k - 1] as nat)
    }
}

/// The points of the kind of a hand whose cards, jokers apart, occur as
/// often as the text says: from one for five different cards to seven for
/// five of a kind. Jokers count with the cards that occur most.
pub open spec fn points_of_kind(text: Seq<char>, with_jokers: bool) -> Option<u32> {
    if text == seq!['1', '1', '1', '1', '1'] {
        Some(1)
    } else if text == seq!['1', '1', '1', '2'] {
        Some(2)
    } else if text == seq!['1', '2', '2'] {
        Some(3)
    } else if text == seq!['1', '1', '3'] {
        Some(4)
    } else if text == seq!['2', '3'] {
        Some(5)
    } else if text == seq!['1', '4'] {
        Some(6)
    } else if text == seq!['5'] {
        Some(7)
    } else if !with_jokers {
        None
    } else if text == seq!['1', '1', '1', '1'] {
        Some(2)
    } else if text == seq!['1', '1', '2'] || text == seq!['1', '1', '1'] {
        Some(4)
    } else if text == seq!['2', '2'] {
        Some(5)
    } else if text == seq!['1', '3'] || text == seq!['1', '2'] || text == seq!['1', '1'] {
        Some(6)
    } else if text == seq!['4'] || text == seq!['3'] || text == seq!['2'] || text == seq!['1']
        || text.len() == 0 {
        Some(7)
    } else {
        None
    }
}

fn is_text(text: &Vec<char>, word: &Vec<char>) -> (r: bool)
    ensures
        r == (text@ == word@),
{
    if text.len() != word.len() {
        return false;
    }
    let mut i: usize = 0;
    while i < text.len()
        invariant
            text.len() == word.len(),
            i <= text.len(),
            forall|j: int| 0 <= j < i ==> text[j] == word[j],
        decreases text.len() - i,
    {
        if text[i] != word[i] {
            return false;
        }
        i = i + 1;
    }
    assert(text@ =~= word@);
    true
}

fn pattern(digits: &str) -> (word: Vec<char>)
    ensures
        word@ == digits@,
{
    crate::text::chars_of(digits)
}

/// The points of the kind of a hand, from the text of its counts.
pub fn kind_points(text: &Vec<char>, with_jokers: bool) -> (r: Option<u32>)
    ensures
        r == points_of_kind(text@, with_jokers),
{
    proof {
        reveal_strlit("11111");
        reveal_strlit("1112");
        reveal_strlit("122");
        reveal_strlit("113");
        reveal_strlit("23");
        reveal_strlit("14");
        reveal_strlit("5");
        reveal_strlit("1111");
        reveal_strlit("112");
        reveal_strlit("111");
        reveal_strlit("22");
        reveal_strlit("13");
        reveal_strlit("12");
        reveal_strlit("11");
        reveal_strlit("4");
        reveal_strlit("3");
        reveal_strlit("2");
        reveal_strlit("1");
        assert("11111"@ =~= seq!['1', '1', '1', '1', '1']);
        assert("1112"@ =~= seq!['1', '1', '1', '2']);
        assert("122"@ =~= seq!['1', '2', '2']);
        assert("113"@ =~= seq!['1', '1', '3']);
        assert("23"@ =~= seq!['2', '3']);
        assert("14"@ =~= seq!['1', '4']);
        assert("5"@ =~= seq!['5']);
        assert("1111"@ =~= seq!['1', '1', '1', '1']);
        assert("112"@ =~= seq!['1', '1', '2']);
        assert("111"@ =~= seq!['1', '1', '1']);
        assert("22"@ =~= seq!['2', '2']);
        assert("13"@ =~= seq!['1', '3']);
        assert("12"@ =~= seq!['1', '2']);
        assert("11"@ =~= seq!['1', '1']);
        assert("4"@ =~= seq!['4']);
        assert("3"@ =~= seq!['3']);
        assert("2"@ =~= seq!['2']);
        assert("1"@ =~= seq!['1']);
    }
    if is_text(text, &pattern("11111")) {
        Some(1)
    } else if is_text(text, &pattern("1112")) {
        Some(2)
    } else if is_text(text, &pattern("122")) {
        Some(3)
    } else if is_text(text, &pattern("113")) {
        Some(4)
    } else if is_text(text, &pattern("23")) {
        Some(5)
    } else if is_text(text, &pattern("14")) {
        Some(6)
    } else if is_text(text, &pattern("5")) {
        Some(7)
    } else if !with_jokers {
        None
    } else if is_text(text, &pattern("1111")) {
        Some(2)
    } else if is_text(text, &pattern("112")) || is_text(text, &pattern("111")) {
        Some(4)
    } else if is_text(text, &pattern("22")) {
        Some(5)
    } else if is_text(text, &pattern("13")) || is_text(text, &pattern("12")) || is_text(
        text,
        &pattern("11"),
    ) {
        Some(6)
    } else if is_text(text, &pattern("4")) || is_text(text, &pattern("3")) || is_text(
        text,
        &pattern("2"),
    ) || is_text(text, &pattern("1")) || text.len() == 0 {
        Some(7)
    } else {
        None
    }
}

/// Writes a number in decimal digits.
pub fn write_decimal(n: usize) -> (text: Vec<char>)
    ensures
        text@ == decimal(n as nat),
{
    let mut reversed: Vec<char> = Vec::new();
    let mut left = n;
    while left >= 10
        invariant
            digits_reversed(n as nat) == reversed@ + digits_reversed(left as nat),
        decreases left,
    {
        let digit = (48u8 + (left % 10) as u8) as char;
        reversed.push(digit);
        assert(reversed@ + digits_reversed((left / 10) as nat) =~= reversed@.drop_last() + (
        seq![digit] + digits_reversed((left / 10) as nat)));
        left = left / 10;
    }
    let digit = (48u8 + left as u8) as char;
    reversed.push(digit);
    assert(reversed@ =~= digits_reversed(n as nat));
    let mut text: Vec<char> = Vec::new();
    let mut i = reversed.len();
    while i > 0
        invariant
            i <= reversed.len(),
            text.len() == reversed.len() - i,
            forall|j: int| 0 <= j < text.len() ==> text[j] == reversed[reversed.len() - 1 - j],
        decreases i,
    {
        i = i - 1;
        text.push(reversed[i]);
    }
    assert(text@ =~= reversed@.reverse());
    text
}

/// The strengths of the cards, without the jokers if asked.
pub open spec fn strengths(cards: Seq<Card>, without_jokers: bool) -> Seq<u8> {
    cards.map_values(|c: Card| c.value).filter(|v: u8| !without_jokers || v != 1)
}

/// The points of the kind of a hand of these cards: the counts of its
/// strengths, in ascending order, written one after the other, say which
/// kind it is.
pub open spec fn hand_points(cards: Seq<Card>, with_jokers: bool) -> Option<u32> {
    let counts = sorted_values_of(counts_of(strengths(cards, with_jokers)));
    points_of_kind(written(counts, counts.len()), with_jokers)
}

fn strengths_of(cards: &Vec<Card>, without_jokers: bool) -> (values: Vec<u8>)
    ensures
        values@ == strengths(cards@, without_jokers),
{
    let mut values: Vec<u8> = Vec::new();
    let mut i: usize = 0;
    let ghost all = cards@.map_values(|c: Card| c.value);
    assert(all.take(0) =~= Seq::<u8>::empty());
    while i < cards.len()
        invariant
            i <= cards.len(),
            all == cards@.map_values(|c: Card| c.value),
            values@ == all.take(i as int).filter(|v: u8| !without_jokers || v != 1),
        decreases cards.len() - i,
    {
        let v = cards[i].value;
        proof {
            assert(all.take(i + 1).drop_last() =~= all.take(i as int));
            assert(all.take(i + 1).last() == v);
            reveal(Seq::filter);
        }
        if !without_jokers || v != 1 {
            values.push(v);
        }
        i = i + 1;
    }
    assert(all.take(cards.len() as int) =~= all);
    values
}

fn points_for(cards: &Vec<Card>, with_jokers: bool) -> (r: Option<u32>)
    ensures
        r == hand_points(cards@, with_jokers),
{
    let values = strengths_of(cards, with_jokers);
    let counts = sorted_counts(&count_values(&values));
    let mut text: Vec<char> = Vec::new();
    let mut k: usize = 0;
    while k < counts.len()
        invariant
            k <= counts.len(),
            text@ == written(counts@, k as nat),
        decreases counts.len() - k,
    {
        let mut digits = write_decimal(counts[k]);
        text.append(&mut digits);
        k = k + 1;
    }
    kind_points(&text, with_jokers)
}

/// Whether a hand with the cards `a` comes before one with the cards `b`
/// where their kinds are the same: at the first place where they differ,
/// starting from place `from`, the card of `a` is the stronger.
pub open spec fn stronger_cards(a: Seq<Card>, b: Seq<Card>, from: int) -> bool
    decreases a.len() - from,
{
    if from < 0 || from >= a.len() || from >= b.len() {
        false
    } else if a[from].value != b[from].value {
        a[from].value > b[from].value
    } else {
        stronger_cards(a, b, from + 1)
    }
}

/// Whether hand `a` is stronger than hand `b`: of a kind with more points,
/// or of the same kind with stronger cards.
pub open spec fn stronger(a: HandView, b: HandView) -> bool {
    a.points > b.points || (a.points == b.points && stronger_cards(a.cards, b.cards, 0))
}

/// The place of a new hand among hands in order: before the first that it
/// is stronger than, from place `from` on.
pub open spec fn place_of(sorted: Seq<HandView>, hand: HandView, from: int) -> int
    decreases sorted.len() - from,
{
    if from < 0 || from >= sorted.len() || stronger(hand, sorted[from]) {
        from
    } else {
        place_of(sorted, hand, from + 1)
    }
}

/// The first `k` hands from the strongest to the weakest, hands of equal
/// strength in the order in which they came.
pub open spec fn ordered(hands: Seq<HandView>, k: nat) -> Seq<HandView>
    decreases k,
{
    if k == 0 || k > hands.len() {
        Seq::empty()
    } else {
        let before = ordered(hands, (k - 1) as nat);
        before.insert(place_of(before, hands[k - 1], 0), hands[k - 1])
    }
}

/// The winnings of the last `k` of hands in order: each bid times the rank
/// of its hand, the weakest hand having rank one.
pub open spec fn winnings(sorted: Seq<HandView>, k: nat) -> nat
    decreases k,
{
    if k == 0 || k > sorted.len() {
        0
    } else {
        winnings(sorted, (k - 1) as nat) + k * (sorted[sorted.len() - k].bid as nat)
    }
}

/// A hand with the points of its kind.
pub open spec fn with_points(hand: HandView, with_jokers: bool) -> HandView {
    HandView {
        cards: hand.cards,
        bid: hand.bid,
        points: match hand_points(hand.cards, with_jokers) {
            Some(p) => p,
            None => 0,
        },
    }
}

/// Whether every hand is of a kind.
pub open spec fn all_of_a_kind(hands: Seq<HandView>, with_jokers: bool) -> bool {
    forall|i: int| 0 <= i < hands.len() ==> hand_points((#[trigger] hands[i]).cards, with_jokers) is Some
}

/// The hands, each with the points of its kind, from the strongest to the
/// weakest.
pub open spec fn ranked(hands: Seq<HandView>, with_jokers: bool) -> Seq<HandView> {
    let scored = Seq::new(hands.len(), |i: int| with_points(hands[i], with_jokers));
    ordered(scored, scored.len())
}

proof fn lemma_winnings_grow(sorted: Seq<HandView>, k: nat)
    requires
        k <= sorted.len(),
    ensures
        winnings(sorted, k) <= winnings(sorted, sorted.len()),
    decreases sorted.len() - k,
{
    if k < sorted.len() {
        lemma_winnings_grow(sorted, k + 1);
    }
}

fn is_stronger(a: &Hand, b: &Hand) -> (r: bool)
    ensures
        r == stronger(a@, b@),
{
    if a.points != b.points {
        return a.points > b.points;
    }
    let mut i: usize = 0;
    while i < a.cards.len() && i < b.cards.len()
        invariant
            i <= a.cards.len(),
            i <= b.cards.len(),
            a.points == b.points,
            stronger_cards(a.cards@, b.cards@, 0) == stronger_cards(a.cards@, b.cards@, i as int),
        decreases a.cards.len() - i,
    {
        if a.cards[i].value != b.cards[i].value {
            return a.cards[i].value > b.cards[i].value;
        }
        i = i + 1;
    }
    false
}

fn total_winnings(hands: &mut Vec<Hand>, with_jokers: bool) -> (total: Option<usize>)
    ensures
        final(hands).len() == old(hands).len(),
        all_of_a_kind(views(old(hands)@), with_jokers) ==> views(final(hands)@) == ranked(
            views(old(hands)@),
            with_jokers,
        ),
        match total {
            Some(sum) => all_of_a_kind(views(old(hands)@), with_jokers) && sum == winnings(
                ranked(views(old(hands)@), with_jokers),
                old(hands).len() as nat,
            ),
            None => !all_of_a_kind(views(old(hands)@), with_jokers) || winnings(
                ranked(views(old(hands)@), with_jokers),
                old(hands).len() as nat,
            ) > usize::MAX,
        },
{
    let ghost start = views(hands@);
    let ghost scored = Seq::new(start.len(), |i: int| with_points(start[i], with_jokers));
    let n = hands.len();
    let mut i: usize = 0;
    let mut classified = true;
    while i < n
        invariant
            n == hands.len(),
            i <= n,
            start.len() == n,
            scored == Seq::new(start.len(), |i: int| with_points(start[i], with_jokers)),
            classified ==> forall|k: int|
                0 <= k < i ==> hand_points((#[trigger] start[k]).cards, with_jokers) is Some,
            !classified ==> !all_of_a_kind(start, with_jokers),
            forall|k: int| 0 <= k < i && classified ==> (#[trigger] hands[k])@ == scored[k],
            forall|k: int| 0 <= k < i && !classified ==> (#[trigger] hands[k])@.cards == start[k].cards && hands[k]@.bid == start[k].bid,
            forall|k: int| i <= k < n ==> (#[trigger] hands[k])@ == start[k],
        decreases n - i,
    {
        assert(hands[i as int]@ == start[i as int]);
        match points_for(&hands[i].cards, with_jokers) {
            Some(p) => {
                hands[i].points = p;
            },
            None => {
                classified = false;
            },
        }
        i = i + 1;
    }
    if !classified {
        return None;
    }
    assert(views(hands@) =~= scored);
    let mut sorted: Vec<Hand> = Vec::new();
    let mut k: usize = 0;
    assert(views(sorted@) =~= ordered(scored, 0));
    while k < n
        invariant
            n == scored.len(),
            k <= n,
            hands.len() == n - k,
            forall|j: int| 0 <= j < hands.len() ==> (#[trigger] hands[j])@ == scored[k + j],
            views(sorted@) == ordered(scored, k as nat),
            sorted.len() == k,
        decreases n - k,
    {
        let hand = hands.remove(0);
        assert(hand@ == scored[k as int]);
        let ghost before = views(sorted@);
        let mut at: usize = 0;
        while at < sorted.len() && !is_stronger(&hand, &sorted[at])
            invariant
                at <= sorted.len(),
                before == views(sorted@),
                place_of(before, hand@, 0) == place_of(before, hand@, at as int),
            decreases sorted.len() - at,
        {
            assert(before[at as int] == sorted[at as int]@);
            at = at + 1;
        }
        proof {
            if at < sorted.len() {
                assert(before[at as int] == sorted[at as int]@);
            }
        }
        sorted.insert(at, hand);
        assert(views(sorted@) =~= before.insert(at as int, scored[k as int]));
        k = k + 1;
    }
    let ghost order = views(sorted@);
    assert(order == ranked(start, with_jokers));
    let mut total: usize = 0;
    let mut fits = true;
    let mut r: usize = 0;
    while r < n
        invariant
            n == sorted.len(),
            order == views(sorted@),
            r <= n,
            fits ==> total == winnings(order, r as nat),
            !fits ==> winnings(order, n as nat) > usize::MAX,
        decreases n - r,
    {
        let rank = r + 1;
        let bid = sorted[n - rank].bid as usize;
        assert(order[n - rank] == sorted[n - rank]@);
        proof {
            lemma_winnings_grow(order, rank as nat);
        }
        if fits {
            let ghost term = rank * bid;
            if bid > 0 && rank > usize::MAX / bid {
                assert(term > usize::MAX) by (nonlinear_arith)
                    requires
                        term == rank * bid,
                        bid > 0,
                        rank > usize::MAX / bid,
                ;
                fits = false;
            } else {
                assert(term <= usize::MAX) by (nonlinear_arith)
                    requires
                        term == rank * bid,
                        bid == 0 || rank <= usize::MAX / bid,
                        rank >= 0,
                        bid >= 0,
                ;
                let term = rank * bid;
                if total > usize::MAX - term {
                    fits = false;
                } else {
                    total = total + term;
                }
            }
        }
        r = r + 1;
    }
    *hands = sorted;
    if fits {
        Some(total)
    } else {
        None
    }
}

/// Ranks the hands by their kinds and their cards and adds up the winnings:
/// every bid times the rank of its hand. There is no result where a hand is
/// of no kind, or where the winnings do not fit.
pub fn compute_hands(hands: &mut Vec<Hand>) -> (total: Option<usize>)
    ensures
        final(hands).len() == old(hands).len(),
        all_of_a_kind(views(old(hands)@), false) ==> views(final(hands)@) == ranked(
            views(old(hands)@),
            false,
        ),
        match total {
            Some(sum) => all_of_a_kind(views(old(hands)@), false) && sum == winnings(
                ranked(views(old(hands)@), false),
                old(hands).len() as nat,
            ),
            None => !all_of_a_kind(views(old(hands)@), false) || winnings(
                ranked(views(old(hands)@), false),
                old(hands).len() as nat,
            ) > usize::MAX,
        },
{
    total_winnings(hands, false)
}

/// The same with jokers: cards of strength one, which count with the cards
/// that occur most when the kind of a hand is told.
pub fn compute_hands2(hands: &mut Vec<Hand>) -> (total: Option<usize>)
    ensures
        final(hands).len() == old(hands).len(),
        all_of_a_kind(views(old(hands)@), true) ==> views(final(hands)@) == ranked(
            views(old(hands)@),
            true,
        ),
        match total {
            Some(sum) => all_of_a_kind(views(old(hands)@), true) && sum == winnings(
                ranked(views(old(hands)@), true),
                old(hands).len() as nat,
            ),
            None => !all_of_a_kind(views(old(hands)@), true) || winnings(
                ranked(views(old(hands)@), true),
                old(hands).len() as nat,
            ) > usize::MAX,
        },
{
    total_winnings(hands, true)
}

/// The strength of the card that a character stands for; `J` is a jack, or
/// a joker where the game is played with jokers.
pub open spec fn strength_of(c: char, with_jokers: bool) -> Option<u8> {
    if '2' <= c && c <= '9' {
        Some((c as u32 - 48) as u8)
    } else if c == 'T' {
        Some(10)
    } else if c == 'J' {
        Some(
            if with_jokers {
                1u8
            } else {
                11u8
            },
        )
    } else if c == 'Q' {
        Some(12)
    } else if c == 'K' {
        Some(13)
    } else if c == 'A' {
        Some(14)
    } else {
        None
    }
}

fn read_strength(c: char, with_jokers: bool) -> (r: Option<u8>)
    ensures
        r == strength_of(c, with_jokers),
{
    if '2' <= c && c <= '9' {
        Some((c as u32 - 48) as u8)
    } else if c == 'T' {
        Some(10)
    } else if c == 'J' {
        Some(
            if with_jokers {
                1
            } else {
                11
            },
        )
    } else if c == 'Q' {
        Some(12)
    } else if c == 'K' {
        Some(13)
    } else if c == 'A' {
        Some(14)
    } else {
        None
    }
}

/// Where the cards that start at `from` end.
pub open spec fn cards_end(s: Seq<char>, from: int, with_jokers: bool) -> int
    decreases s.len() - from,
{
    if from < 0 || from >= s.len() || strength_of(s[from], with_jokers) is None {
        from
    } else {
        cards_end(s, from + 1, with_jokers)
    }
}

/// The cards that the characters from `from` up to `to` stand for.
pub open spec fn cards_between(s: Seq<char>, from: int, to: int, with_jokers: bool) -> Seq<Card> {
    Seq::new(
        (to - from) as nat,
        |i: int| Card { value: strength_of(s[from + i], with_jokers)->0 },
    )
}

/// A hand at `from`: at least one card, blanks, and a bid that fits in 32
/// bits. Its points are yet to be told.
pub open spec fn hand_at(s: Seq<char>, from: int, with_jokers: bool) -> Option<(HandView, int)> {
    let end = cards_end(s, from, with_jokers);
    let gap = run_end(s, end, Class::Blank);
    if end > from && gap > end {
        match number_at(s, gap) {
            Some((bid, stop)) => if bid <= u32::MAX && from < stop <= s.len() {
                Some(
                    (
                        HandView {
                            cards: cards_between(s, from, end, with_jokers),
                            bid: bid as u32,
                            points: 0,
                        },
                        stop,
                    ),
                )
            } else {
                None
            },
            None => None,
        }
    } else {
        None
    }
}

/// The hands of a text, after some have been read up to `from`.
pub open spec fn hands_from(s: Seq<char>, from: int, with_jokers: bool, done: Seq<HandView>) -> Seq<
    HandView,
>
    decreases s.len() - from,
{
    match line_end_at(s, from) {
        Some(next) => match hand_at(s, next, with_jokers) {
            Some((hand, end)) => if from < end <= s.len() {
                hands_from(s, end, with_jokers, done.push(hand))
            } else {
                done
            },
            None => done,
        },
        None => done,
    }
}

/// The hands that a text lists, one to a line, up to the first line that is
/// no hand; nothing where the first line is none.
pub open spec fn hands_of(s: Seq<char>, with_jokers: bool) -> Option<Seq<HandView>> {
    match hand_at(s, 0, with_jokers) {
        Some((hand, end)) => Some(hands_from(s, end, with_jokers, seq![hand])),
        None => None,
    }
}

fn parse_hand(text: &Vec<char>, from: usize, with_jokers: bool) -> (r: Option<(Hand, usize)>)
    requires
        from <= text.len(),
    ensures
        match r {
            Some((hand, end)) => hand_at(text@, from as int, with_jokers) == Some(
                (hand@, end as int),
            ) && from < end <= text.len(),
            None => hand_at(text@, from as int, with_jokers) is None,
        },
{
    let mut cards: Vec<Card> = Vec::new();
    let mut end = from;
    loop
        invariant
            from <= end <= text.len(),
            cards_end(text@, from as int, with_jokers) == cards_end(
                text@,
                end as int,
                with_jokers,
            ),
            cards.len() == end - from,
            forall|i: int|
                0 <= i < cards.len() ==> strength_of(text[from + i], with_jokers) == Some(
                    (#[trigger] cards[i]).value,
                ),
        ensures
            from <= end <= text.len(),
            end == cards_end(text@, from as int, with_jokers),
            cards.len() == end - from,
            forall|i: int|
                0 <= i < cards.len() ==> strength_of(text[from + i], with_jokers) == Some(
                    (#[trigger] cards[i]).value,
                ),
        decreases text.len() - end,
    {
        if end >= text.len() {
            break ;
        }
        match read_strength(text[end], with_jokers) {
            Some(value) => {
                cards.push(Card { value });
                end = end + 1;
            },
            None => {
                break ;
            },
        }
    }
    if end == from {
        return None;
    }
    let gap = skip_run(text, end, Class::Blank);
    if gap == end {
        return None;
    }
    let (bid, stop) = match take_number(text, gap) {
        Some(found) => found,
        None => {
            return None;
        },
    };
    if bid > u32::MAX as u64 {
        return None;
    }
    assert(cards@ =~= cards_between(text@, from as int, end as int, with_jokers));
    Some((Hand { cards, bid: bid as u32, points: 0 }, stop))
}

fn parse_hands(input: &str, with_jokers: bool) -> (r: Option<Vec<Hand>>)
    ensures
        match r {
            Some(hands) => hands_of(input@, with_jokers) == Some(views(hands@)),
            None => hands_of(input@, with_jokers) is None,
        },
{
    let text = chars_of(input);
    let (first, mut at) = match parse_hand(&text, 0, with_jokers) {
        Some(found) => found,
        None => {
            return None;
        },
    };
    let mut hands: Vec<Hand> = Vec::new();
    let ghost mut done = seq![first@];
    hands.push(first);
    loop
        invariant
            at <= text.len(),
            text@ == input@,
            done.len() == hands.len(),
            forall|i: int| 0 <= i < hands.len() ==> (#[trigger] hands[i])@ == done[i],
            hands_of(text@, with_jokers) == Some(hands_from(text@, at as int, with_jokers, done)),
        ensures
            done.len() == hands.len(),
            forall|i: int| 0 <= i < hands.len() ==> (#[trigger] hands[i])@ == done[i],
            hands_of(input@, with_jokers) == Some(done),
        decreases text.len() - at,
    {
        let next = match skip_line_end(&text, at) {
            Some(next) => next,
            None => {
                break ;
            },
        };
        match parse_hand(&text, next, with_jokers) {
            Some((hand, end)) => {
                proof {
                    done = done.push(hand@);
                }
                hands.push(hand);
                at = end;
            },
            None => {
                break ;
            },
        }
    }
    assert(views(hands@) =~= done);
    Some(hands)
}

/// Reads the hands of a text; `J` is a jack.
pub fn parse_lines(input: &str) -> (r: Option<Vec<Hand>>)
    ensures
        match r {
            Some(hands) => hands_of(input@, false) == Some(views(hands@)),
            None => hands_of(input@, false) is None,
        },
{
    parse_hands(input, false)
}

/// Reads the hands of a text; `J` is a joker.
pub fn parse_lines2(input: &str) -> (r: Option<Vec<Hand>>)
    ensures
        match r {
            Some(hands) => hands_of(input@, true) == Some(views(hands@)),
            None => hands_of(input@, true) is None,
        },
{
    parse_hands(input, true)
}

} // verus!
