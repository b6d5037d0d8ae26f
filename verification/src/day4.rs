use crate::scan::char_at;
use crate::scan::has_at;
use crate::scan::is_char_at;
use crate::scan::number_at;
use crate::scan::run_end;
use crate::scan::skip_literal;
use crate::scan::skip_run;
use crate::scan::take_number;
use crate::scan::Class;
use crate::text::chars_of;
use std::collections::VecDeque;
use vstd::prelude::*;

verus! {

/// A scratchcard: its number, how many of its numbers win, the winning
/// numbers and the numbers that it has.
#[derive(Debug)]
pub struct Card {
    pub cid: u32,
    pub value: u32,
    pub winning_numbers: Vec<u32>,
    pub available_numbers: Vec<u32>,
}

/// A scratchcard as a value.
pub struct CardView {
    pub cid: u32,
    pub value: u32,
    pub winning_numbers: Seq<u32>,
    pub available_numbers: Seq<u32>,
}

impl Card {
    /// The card as a value.
    pub open spec fn view(&self) -> CardView {
        CardView {
            cid: self.cid,
            value: self.value,
            winning_numbers: self.winning_numbers@,
            available_numbers: self.available_numbers@,
        }
    }
}

/// The cards as values.
pub open spec fn views(cards: Seq<Card>) -> Seq<CardView> {
    Seq::new(cards.len(), |i: int| cards[i]@)
}

/// A number at `from` that fits in 32 bits.
pub open spec fn small_number_at(s: Seq<char>, from: int) -> Option<(u32, int)> {
    match number_at(s, from) {
        Some((v, end)) => if v <= u32::MAX && from < end <= s.len() {
            Some((v as u32, end))
        } else {
            None
        },
        None => None,
    }
}

/// The numbers of a list, after some have been read up to `from`: further
/// ones follow while white space and a number do.
pub open spec fn numbers_from(s: Seq<char>, from: int, done: Seq<u32>) -> (Seq<u32>, int)
    decreases s.len() - from,
{
    let gap = run_end(s, from, Class::Space);
    if gap > from {
        match small_number_at(s, gap) {
            Some((v, end)) => numbers_from(s, end, done.push(v)),
            None => (done, from),
        }
    } else {
        (done, from)
    }
}

/// A list of numbers separated by white space, none at all included.
pub open spec fn numbers_at(s: Seq<char>, from: int) -> (Seq<u32>, int) {
    match small_number_at(s, from) {
        Some((v, end)) => numbers_from(s, end, seq![v]),
        None => (Seq::empty(), from),
    }
}

/// How many of the first `k` numbers are among the winning ones.
pub open spec fn wins_upto(winning: Seq<u32>, available: Seq<u32>, k: nat) -> nat
    decreases k,
{
    if k == 0 || k > available.len() {
        0
    } else {
        wins_upto(winning, available, (k - 1) as nat) + if winning.contains(available[k - 1]) {
            1nat
        } else {
            0nat
        }
    }
}

/// A card at `from`: `Card`, blanks, its number, a colon, blanks, the
/// winning numbers, a bar between optional blanks, and the numbers it has.
pub open spec fn card_at(s: Seq<char>, from: int) -> Option<(CardView, int)> {
    let a = run_end(s, from + 4, Class::Blank);
    if has_at(s, from, seq!['C', 'a', 'r', 'd']) && a > from + 4 {
        match small_number_at(s, a) {
            Some((cid, b)) => {
                let c = run_end(s, b + 1, Class::Blank);
                if char_at(s, b, ':') && c > b + 1 {
                    let (winning, d) = numbers_at(s, c);
                    let e = run_end(s, d, Class::Blank);
                    if char_at(s, e, '|') {
                        let f = run_end(s, e + 1, Class::Blank);
                        let (available, g) = numbers_at(s, f);
                        let value = wins_upto(winning, available, available.len());
                        if value <= u32::MAX {
                            Some(
                                (
                                    CardView {
                                        cid,
                                        value: value as u32,
                                        winning_numbers: winning,
                                        available_numbers: available,
                                    },
                                    g,
                                ),
                            )
                        } else {
                            None
                        }
                    } else {
                        None
                    }
                } else {
                    None
                }
            },
            None => None,
        }
    } else {
        None
    }
}

/// The cards of a text, after some have been read up to `from`.
pub open spec fn cards_from(s: Seq<char>, from: int, done: Seq<CardView>) -> Seq<CardView>
    decreases s.len() - from,
{
    if char_at(s, from, '\n') {
        match card_at(s, from + 1) {
            Some((card, end)) => if from < end <= s.len() {
                cards_from(s, end, done.push(card))
            } else {
                done
            },
            None => done,
        }
    } else {
        done
    }
}

/// The cards that a text lists, one to a line, up to the first line that is
/// no card.
pub open spec fn cards_of(s: Seq<char>) -> Seq<CardView> {
    match card_at(s, 0) {
        Some((card, end)) => cards_from(s, end, seq![card]),
        None => Seq::empty(),
    }
}

fn take_small_number(text: &Vec<char>, from: usize) -> (r: Option<(u32, usize)>)
    requires
        from <= text.len(),
    ensures
        match r {
            Some((v, end)) => small_number_at(text@, from as int) == Some((v, end as int)) && from
                < end <= text.len(),
            None => small_number_at(text@, from as int) is None,
        },
{
    match take_number(text, from) {
        Some((v, end)) => if v <= u32::MAX as u64 {
            Some((v as u32, end))
        } else {
            None
        },
        None => None,
    }
}

fn parse_numbers(text: &Vec<char>, from: usize) -> (r: (Vec<u32>, usize))
    requires
        from <= text.len(),
    ensures
        numbers_at(text@, from as int) == (r.0@, r.1 as int),
        from <= r.1 <= text.len(),
{
    let mut numbers: Vec<u32> = Vec::new();
    let (first, mut at) = match take_small_number(text, from) {
        Some(found) => found,
        None => {
            return (numbers, from);
        },
    };
    numbers.push(first);
    assert(numbers@ =~= seq![first]);
    loop
        invariant
            from <= at <= text.len(),
            numbers_at(text@, from as int) == numbers_from(text@, at as int, numbers@),
        ensures
            numbers_at(text@, from as int) == (numbers@, at as int),
            from <= at <= text.len(),
        decreases text.len() - at,
    {
        let gap = skip_run(text, at, Class::Space);
        if gap == at {
            break ;
        }
        match take_small_number(text, gap) {
            Some((v, end)) => {
                numbers.push(v);
                at = end;
            },
            None => {
                break ;
            },
        }
    }
    (numbers, at)
}

fn is_among(numbers: &Vec<u32>, n: u32) -> (r: bool)
    ensures
        r == numbers@.contains(n),
{
    let mut i: usize = 0;
    while i < numbers.len()
        invariant
            i <= numbers.len(),
            forall|j: int| 0 <= j < i ==> numbers[j] != n,
        decreases numbers.len() - i,
    {
        if numbers[i] == n {
            return true;
        }
        i = i + 1;
    }
    false
}

proof fn lemma_wins_bound(winning: Seq<u32>, available: Seq<u32>, k: nat)
    requires
        k <= available.len(),
    ensures
        wins_upto(winning, available, k) <= k,
    decreases k,
{
    if k > 0 {
        lemma_wins_bound(winning, available, (k - 1) as nat);
    }
}

fn count_wins(winning: &Vec<u32>, available: &Vec<u32>) -> (n: usize)
    ensures
        n == wins_upto(winning@, available@, available.len() as nat),
{
    let mut n: usize = 0;
    let mut k: usize = 0;
    while k < available.len()
        invariant
            k <= available.len(),
            n == wins_upto(winning@, available@, k as nat),
            n <= k,
        decreases available.len() - k,
    {
        if is_among(winning, available[k]) {
            n = n + 1;
        }
        k = k + 1;
    }
    n
}

fn parse_card(text: &Vec<char>, from: usize) -> (r: Option<(Card, usize)>)
    requires
        from <= text.len(),
    ensures
        match r {
            Some((card, end)) => card_at(text@, from as int) == Some((card@, end as int)) && from
                < end <= text.len(),
            None => card_at(text@, from as int) is None,
        },
{
    let start = match skip_literal(text, from, &vec!['C', 'a', 'r', 'd']) {
        Some(next) => next,
        None => {
            return None;
        },
    };
    let a = skip_run(text, start, Class::Blank);
    if a == start {
        return None;
    }
    let (cid, b) = match take_small_number(text, a) {
        Some(found) => found,
        None => {
            return None;
        },
    };
    if !is_char_at(text, b, ':') {
        return None;
    }
    let c = skip_run(text, b + 1, Class::Blank);
    if c == b + 1 {
        return None;
    }
    let (winning_numbers, d) = parse_numbers(text, c);
    let e = skip_run(text, d, Class::Blank);
    if !is_char_at(text, e, '|') {
        return None;
    }
    let f = skip_run(text, e + 1, Class::Blank);
    let (available_numbers, g) = parse_numbers(text, f);
    let value = count_wins(&winning_numbers, &available_numbers);
    if value > u32::MAX as usize {
        return None;
    }
    Some((Card { cid, value: value as u32, winning_numbers, available_numbers }, g))
}

/// Reads the cards of a text.
pub fn parse_cards(input: &str) -> (cards: Vec<Card>)
    ensures
        views(cards@) == cards_of(input@),
{
    let text = chars_of(input);
    let mut cards: Vec<Card> = Vec::new();
    let (first, mut at) = match parse_card(&text, 0) {
        Some(found) => found,
        None => {
            assert(views(cards@) =~= cards_of(input@));
            return cards;
        },
    };
    let ghost mut done = seq![first@];
    cards.push(first);
    loop
        invariant
            at <= text.len(),
            text@ == input@,
            done.len() == cards.len(),
            forall|i: int| 0 <= i < cards.len() ==> (#[trigger] cards[i])@ == done[i],
            cards_of(text@) == cards_from(text@, at as int, done),
        ensures
            done.len() == cards.len(),
            forall|i: int| 0 <= i < cards.len() ==> (#[trigger] cards[i])@ == done[i],
            cards_of(input@) == done,
        decreases text.len() - at,
    {
        if !is_char_at(&text, at, '\n') {
            break ;
        }
        match parse_card(&text, at + 1) {
            Some((card, end)) => {
                proof {
                    done = done.push(card@);
                }
                cards.push(card);
                at = end;
            },
            None => {
                break ;
            },
        }
    }
    assert(views(cards@) =~= done);
    cards
}

/// Two to the power `n`.
pub open spec fn pow2(n: nat) -> nat
    decreases n,
{
    if n == 0 {
        1
    } else {
        2 * pow2((n - 1) as nat)
    }
}

/// The points of a card: one for its first winning number, doubled for
/// every further one.
pub open spec fn points(card: CardView) -> nat {
    let wins = wins_upto(card.winning_numbers, card.available_numbers, card.available_numbers.len());
    if wins == 0 {
        0
    } else {
        pow2((wins - 1) as nat)
    }
}

/// The sum of the points of the first `k` cards.
pub open spec fn points_sum(cards: Seq<CardView>, k: nat) -> nat
    decreases k,
{
    if k == 0 || k > cards.len() {
        0
    } else {
        points_sum(cards, (k - 1) as nat) + points(cards[k - 1])
    }
}

proof fn lemma_points_sum_grows(cards: Seq<CardView>, k: nat)
    requires
        k <= cards.len(),
    ensures
        points_sum(cards, k) <= points_sum(cards, cards.len()),
    decreases cards.len() - k,
{
    if k < cards.len() {
        lemma_points_sum_grows(cards, k + 1);
    }
}

proof fn lemma_pow2_grows(a: nat, b: nat)
    requires
        a <= b,
    ensures
        pow2(a) <= pow2(b),
        pow2(a) >= 1,
    decreases b,
{
    if a < b {
        lemma_pow2_grows(a, (b - 1) as nat);
    } else if a > 0 {
        lemma_pow2_grows((a - 1) as nat, (a - 1) as nat);
    }
}

fn points_of(card: &Card) -> (n: u32)
    requires
        points(card@) <= u32::MAX,
    ensures
        n == points(card@),
{
    let ghost winning = card.winning_numbers@;
    let ghost available = card.available_numbers@;
    let mut n: u32 = 0;
    let mut k: usize = 0;
    while k < card.available_numbers.len()
        invariant
            k <= card.available_numbers.len(),
            winning == card.winning_numbers@,
            available == card.available_numbers@,
            points(card@) <= u32::MAX,
            wins_upto(winning, available, k as nat) == 0 ==> n == 0,
            wins_upto(winning, available, k as nat) > 0 ==> n == pow2(
                (wins_upto(winning, available, k as nat) - 1) as nat,
            ),
        decreases card.available_numbers.len() - k,
    {
        proof {
            let before = wins_upto(winning, available, k as nat);
            if before > 0 {
                lemma_pow2_grows((before - 1) as nat, (before - 1) as nat);
            }
            assert(pow2(0) == 1);
        }
        if is_among(&card.winning_numbers, card.available_numbers[k]) {
            if n == 0 {
                n = 1;
            } else {
                proof {
                    lemma_wins_grow(winning, available, (k + 1) as nat);
                    let now = wins_upto(winning, available, (k + 1) as nat);
                    let all = wins_upto(winning, available, available.len());
                    lemma_pow2_grows((now - 1) as nat, (all - 1) as nat);
                    assert(pow2((now - 1) as nat) == 2 * pow2((now - 2) as nat));
                }
                n = n * 2;
            }
        }
        k = k + 1;
    }
    n
}

proof fn lemma_wins_grow(winning: Seq<u32>, available: Seq<u32>, k: nat)
    requires
        k <= available.len(),
    ensures
        wins_upto(winning, available, k) <= wins_upto(winning, available, available.len()),
    decreases available.len() - k,
{
    if k < available.len() {
        lemma_wins_grow(winning, available, k + 1);
    }
}

/// The sum of the points of the cards.
pub fn compute_score(input: &str) -> (score: u32)
    requires
        points_sum(cards_of(input@), cards_of(input@).len()) <= u32::MAX,
    ensures
        score == points_sum(cards_of(input@), cards_of(input@).len()),
{
    let cards = parse_cards(input);
    let ghost all = views(cards@);
    let mut res: u32 = 0;
    let mut k: usize = 0;
    while k < cards.len()
        invariant
            k <= cards.len(),
            all == views(cards@),
            points_sum(all, all.len()) <= u32::MAX,
            res == points_sum(all, k as nat),
        decreases cards.len() - k,
    {
        proof {
            lemma_points_sum_grows(all, (k + 1) as nat);
        }
        assert(all[k as int] == cards[k as int]@);
        let n = points_of(&cards[k]);
        res = res + n;
        k = k + 1;
    }
    res
}

/// Whether every card wins copies of cards that come after it in the list,
/// and of no card beyond the list: the copies of the card at index `j` are
/// those at the indices from its number on, one for each of its wins.
pub open spec fn copies_in_range(cards: Seq<CardView>) -> bool {
    forall|j: int|
        0 <= j < cards.len() ==> (#[trigger] cards[j]).cid > j && (cards[j].value > 0
            ==> cards[j].cid + cards[j].value <= cards.len())
}

/// The number of cards that the card at index `j` stands for: itself and
/// what the first `k` of the copies that it wins stand for.
pub open spec fn worth_upto(cards: Seq<CardView>, j: int, k: nat) -> nat
    decreases cards.len() - j, k,
{
    if j < 0 || j >= cards.len() || !copies_in_range(cards) {
        0
    } else if k == 0 || k > cards[j].value {
        1
    } else {
        worth_upto(cards, j, (k - 1) as nat) + worth_upto(
            cards,
            cards[j].cid + k - 1,
            cards[cards[j].cid + k - 1].value as nat,
        )
    }
}

/// The number of cards that the card at index `j` stands for.
pub open spec fn worth(cards: Seq<CardView>, j: int) -> nat {
    worth_upto(cards, j, cards[j].value as nat)
}

proof fn lemma_worth_positive(cards: Seq<CardView>, j: int, k: nat)
    requires
        0 <= j < cards.len(),
        copies_in_range(cards),
    ensures
        worth_upto(cards, j, k) >= 1,
    decreases k,
{
    if 0 < k <= cards[j].value {
        lemma_worth_positive(cards, j, (k - 1) as nat);
    }
}

/// What the cards at the given indices stand for in all.
pub open spec fn pile_worth(cards: Seq<CardView>, pile: Seq<usize>) -> nat
    decreases pile.len(),
{
    if pile.len() == 0 {
        0
    } else {
        worth(cards, pile[0] as int) + pile_worth(cards, pile.skip(1))
    }
}

proof fn lemma_pile_push(cards: Seq<CardView>, pile: Seq<usize>, j: usize)
    ensures
        pile_worth(cards, pile.push(j)) == pile_worth(cards, pile) + worth(cards, j as int),
    decreases pile.len(),
{
    if pile.len() == 0 {
        assert(pile.push(j).skip(1) =~= Seq::<usize>::empty());
        assert(pile_worth(cards, pile.push(j).skip(1)) == 0);
    } else {
        lemma_pile_push(cards, pile.skip(1), j);
        assert(pile.push(j).skip(1) =~= pile.skip(1).push(j));
    }
}

/// The indices from zero up to, not including, `n`.
pub open spec fn first_indices(n: nat) -> Seq<usize> {
    Seq::new(n, |i: int| i as usize)
}

/// The number of cards in the end, when every card has won its copies and
/// the copies theirs.
pub open spec fn total_cards(cards: Seq<CardView>) -> nat {
    pile_worth(cards, first_indices(cards.len()))
}

fn check_copies(cards: &Vec<Card>) -> (r: bool)
    ensures
        r == copies_in_range(views(cards@)),
{
    let ghost all = views(cards@);
    let n = cards.len();
    let mut j: usize = 0;
    while j < n
        invariant
            n == cards.len(),
            all == views(cards@),
            j <= n,
            forall|k: int|
                0 <= k < j ==> (#[trigger] all[k]).cid > k && (all[k].value > 0 ==> all[k].cid
                    + all[k].value <= all.len()),
        decreases n - j,
    {
        let card = &cards[j];
        assert(all[j as int] == card@);
        let first = card.cid as u64;
        if first <= j as u64 || (card.value > 0 && first + card.value as u64 > n as u64) {
            return false;
        }
        j = j + 1;
    }
    true
}

/// The number of scratchcards in the end, when every card has won its
/// copies and the copies theirs, if every card wins copies of later cards
/// of the list only and the number fits in 32 bits.
pub fn count_with_copies(cards: &Vec<Card>) -> (r: Option<u32>)
    ensures
        match r {
            Some(count) => cards.len() > 0 && copies_in_range(views(cards@)) && count
                == total_cards(views(cards@)),
            None => cards.len() == 0 || !copies_in_range(views(cards@)) || total_cards(
                views(cards@),
            ) > u32::MAX,
        },
{
    let ghost all = views(cards@);
    let n = cards.len();
    if n == 0 || !check_copies(cards) {
        return None;
    }
    let mut deck: VecDeque<usize> = VecDeque::new();
    let mut i: usize = 0;
    while i < n
        invariant
            n == cards.len(),
            i <= n,
            deck@ == first_indices(i as nat),
        decreases n - i,
    {
        deck.push_back(i);
        assert(deck@ =~= first_indices((i + 1) as nat));
        i = i + 1;
    }
    let ghost total = total_cards(all);
    let mut done: u32 = 0;
    loop
        invariant_except_break
            deck@.len() > 0,
        invariant
            n == cards.len(),
            all == views(cards@),
            copies_in_range(all),
            total == total_cards(all),
            forall|k: int| 0 <= k < deck@.len() ==> #[trigger] deck@[k] < n,
            done + pile_worth(all, deck@) == total,
        ensures
            done == total,
        decreases pile_worth(all, deck@),
    {
        let ghost before = deck@;
        let j = deck.pop_front().unwrap();
        let ghost rest = deck@;
        assert(rest =~= before.skip(1));
        assert(j == before[0]);
        assert(all[j as int] == cards[j as int]@);
        let card = &cards[j];
        let value = card.value;
        let cid = card.cid;
        assert(all[j as int].cid > j);
        proof {
            lemma_worth_positive(all, j as int, value as nat);
            lemma_worth_positive(all, j as int, 0);
        }
        if done == u32::MAX {
            return None;
        }
        done = done + 1;
        let mut i: u32 = 0;
        while i < value
            invariant
                n == cards.len(),
                all == views(cards@),
                copies_in_range(all),
                j < n,
                cid == all[j as int].cid,
                value == all[j as int].value,
                i <= value,
                rest.len() <= deck@.len(),
                forall|k: int| 0 <= k < deck@.len() ==> #[trigger] deck@[k] < n,
                pile_worth(all, deck@) == pile_worth(all, rest) + worth_upto(
                    all,
                    j as int,
                    i as nat,
                ) - 1,
            decreases value - i,
        {
            let id_to_copy = cid as usize + i as usize;
            proof {
                lemma_pile_push(all, deck@, id_to_copy);
            }
            deck.push_back(id_to_copy);
            i = i + 1;
        }
        if deck.len() == 0 {
            break ;
        }
    }
    Some(done)
}

/// The number of scratchcards in the end: the cards of the list and the
/// copies that they win, which win copies in turn.
pub fn duplicate_cards_then_count(input: &str) -> (count: u32)
    requires
        cards_of(input@).len() > 0,
        copies_in_range(cards_of(input@)),
        total_cards(cards_of(input@)) <= u32::MAX,
    ensures
        count == total_cards(cards_of(input@)),
{
    let cards = parse_cards(input);
    count_with_copies(&cards).unwrap()
}

/// The sum of the points of the cards, if it fits in 32 bits.
pub fn score_of(cards: &Vec<Card>) -> (r: Option<u32>)
    ensures
        match r {
            Some(score) => score == points_sum(views(cards@), cards.len() as nat),
            None => points_sum(views(cards@), cards.len() as nat) > u32::MAX,
        },
{
    let ghost all = views(cards@);
    let mut res: u32 = 0;
    let mut k: usize = 0;
    while k < cards.len()
        invariant
            k <= cards.len(),
            all == views(cards@),
            res == points_sum(all, k as nat),
        decreases cards.len() - k,
    {
        proof {
            lemma_points_sum_grows(all, (k + 1) as nat);
        }
        assert(all[k as int] == cards[k as int]@);
        let wins = count_wins(&cards[k].winning_numbers, &cards[k].available_numbers);
        if wins > 32 {
            proof {
                lemma_pow2_grows(32, (wins - 1) as nat);
                lemma_pow2_32();
            }
            return None;
        }
        proof {
            if wins > 0 {
                lemma_pow2_grows((wins - 1) as nat, 31);
                lemma_pow2_32();
            }
        }
        let n = points_of(&cards[k]);
        if res > u32::MAX - n {
            return None;
        }
        res = res + n;
        k = k + 1;
    }
    Some(res)
}

proof fn lemma_pow2_32()
    ensures
        pow2(31) == 0x8000_0000,
        pow2(32) == 0x1_0000_0000,
{
    assert(pow2(0) == 1);
    assert(pow2(1) == 2);
    assert(pow2(2) == 4);
    assert(pow2(3) == 8);
    assert(pow2(4) == 16);
    assert(pow2(5) == 32);
    assert(pow2(6) == 64);
    assert(pow2(7) == 128);
    assert(pow2(8) == 256);
    assert(pow2(9) == 512);
    assert(pow2(10) == 1024);
    assert(pow2(11) == 2048);
    assert(pow2(12) == 4096);
    assert(pow2(13) == 8192);
    assert(pow2(14) == 16384);
    assert(pow2(15) == 32768);
    assert(pow2(16) == 65536);
    assert(pow2(17) == 131072);
    assert(pow2(18) == 262144);
    assert(pow2(19) == 524288);
    assert(pow2(20) == 1048576);
    assert(pow2(21) == 2097152);
    assert(pow2(22) == 4194304);
    assert(pow2(23) == 8388608);
    assert(pow2(24) == 16777216);
    assert(pow2(25) == 33554432);
    assert(pow2(26) == 67108864);
    assert(pow2(27) == 134217728);
    assert(pow2(28) == 268435456);
    assert(pow2(29) == 536870912);
    assert(pow2(30) == 1073741824);
    assert(pow2(31) == 2147483648);
    assert(pow2(32) == 4294967296);
}

} // verus!
