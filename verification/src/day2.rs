use crate::scan::char_at;
use crate::scan::has_at;
use crate::scan::is_char_at;
use crate::scan::number_at;
use crate::scan::run_end;
use crate::scan::skip_literal;
use crate::scan::skip_run;
use crate::scan::take_number;
use crate::scan::Class;
use crate::text::chars_of;
use vstd::prelude::*;

verus! {

/// The cubes of each colour that are shown at once, or that a bag holds.
#[derive(Clone, Copy, Debug, PartialEq, Eq, Structural)]
pub struct Match {
    pub red: u32,
    pub green: u32,
    pub blue: u32,
}

/// A game: its number and what was shown each time.
#[derive(Debug)]
pub struct Game {
    pub gid: u32,
    pub matches: Vec<Match>,
}

/// The games of a text, in order.
#[derive(Debug)]
pub struct Games {
    pub games: Vec<Game>,
}

/// A game as a value.
pub struct GameView {
    pub gid: u32,
    pub matches: Seq<Match>,
}

impl Game {
    /// The game as a value.
    pub open spec fn view(&self) -> GameView {
        GameView { gid: self.gid, matches: self.matches@ }
    }
}

impl Games {
    /// The games as values.
    pub open spec fn view(&self) -> Seq<GameView> {
        Seq::new(self.games.len() as nat, |i: int| self.games[i]@)
    }
}

/// No cubes of any colour.
pub open spec fn no_cubes() -> Match {
    Match { red: 0, green: 0, blue: 0 }
}

/// A count of cubes of one colour, put in place of the count of that colour.
pub open spec fn with_color(m: Match, count: u32, color: Seq<char>) -> Option<Match> {
    if color == seq!['r', 'e', 'd'] {
        Some(Match { red: count, green: m.green, blue: m.blue })
    } else if color == seq!['g', 'r', 'e', 'e', 'n'] {
        Some(Match { red: m.red, green: count, blue: m.blue })
    } else if color == seq!['b', 'l', 'u', 'e'] {
        Some(Match { red: m.red, green: m.green, blue: count })
    } else {
        None
    }
}

/// A count of cubes at `from`: a number that fits in 32 bits, a space and
/// the name of a colour, put into `m`; and where the text goes on.
pub open spec fn color_at(s: Seq<char>, from: int, m: Match) -> Option<(Match, int)> {
    match number_at(s, from) {
        Some((count, end)) => {
            let stop = run_end(s, end + 1, Class::Letter);
            if count <= u32::MAX && char_at(s, end, ' ') {
                match with_color(m, count as u32, s.subrange(end + 1, stop)) {
                    Some(filled) => Some((filled, stop)),
                    None => None,
                }
            } else {
                None
            }
        },
        None => None,
    }
}

/// What is shown at once, after some counts have been read up to `from`:
/// further counts follow while a comma, a space and a count do.
pub open spec fn colors_from(s: Seq<char>, from: int, m: Match) -> (Match, int)
    decreases s.len() - from,
{
    if has_at(s, from, seq![',', ' ']) {
        match color_at(s, from + 2, m) {
            Some((filled, end)) => if from < end <= s.len() {
                colors_from(s, end, filled)
            } else {
                (m, from)
            },
            None => (m, from),
        }
    } else {
        (m, from)
    }
}

/// What is shown at once: counts separated by a comma and a space, none at
/// all included.
pub open spec fn colors_at(s: Seq<char>, from: int) -> (Match, int) {
    match color_at(s, from, no_cubes()) {
        Some((filled, end)) => colors_from(s, end, filled),
        None => (no_cubes(), from),
    }
}

/// What is shown in a game, after some showings have been read up to
/// `from`: further ones follow each semicolon and space.
pub open spec fn matches_from(s: Seq<char>, from: int, done: Seq<Match>) -> (Seq<Match>, int)
    decreases s.len() - from,
{
    if has_at(s, from, seq![';', ' ']) {
        let (m, end) = colors_at(s, from + 2);
        if from < end <= s.len() {
            matches_from(s, end, done.push(m))
        } else {
            (done, from)
        }
    } else {
        (done, from)
    }
}

/// A game at `from`: `Game`, a space, its number, a colon, a space, and what
/// is shown, the showings separated by a semicolon and a space.
pub open spec fn game_at(s: Seq<char>, from: int) -> Option<(GameView, int)> {
    if has_at(s, from, seq!['G', 'a', 'm', 'e', ' ']) {
        match number_at(s, from + 5) {
            Some((gid, end)) => if gid <= u32::MAX && has_at(s, end, seq![':', ' ']) {
                let (first, next) = colors_at(s, end + 2);
                let (all, stop) = matches_from(s, next, seq![first]);
                Some((GameView { gid: gid as u32, matches: all }, stop))
            } else {
                None
            },
            None => None,
        }
    } else {
        None
    }
}

/// The games of a text, after some have been read up to `from`: further
/// ones follow while a line feed and a game do.
pub open spec fn games_from(s: Seq<char>, from: int, done: Seq<GameView>) -> Seq<GameView>
    decreases s.len() - from,
{
    if char_at(s, from, '\n') {
        match game_at(s, from + 1) {
            Some((game, end)) => if from < end <= s.len() {
                games_from(s, end, done.push(game))
            } else {
                done
            },
            None => done,
        }
    } else {
        done
    }
}

/// The games that a text lists, one to a line, up to the first line that is
/// no game.
pub open spec fn games_of(s: Seq<char>) -> Seq<GameView> {
    match game_at(s, 0) {
        Some((game, end)) => games_from(s, end, seq![game]),
        None => Seq::empty(),
    }
}

fn same_text(text: &Vec<char>, from: usize, to: usize, word: &Vec<char>) -> (r: bool)
    requires
        from <= to <= text.len(),
    ensures
        r == (text@.subrange(from as int, to as int) == word@),
{
    if to - from != word.len() {
        return false;
    }
    match skip_literal(text, from, word) {
        Some(_) => true,
        None => false,
    }
}

fn parse_color(text: &Vec<char>, from: usize, m: Match) -> (r: Option<(Match, usize)>)
    requires
        from <= text.len(),
    ensures
        match r {
            Some((filled, end)) => color_at(text@, from as int, m) == Some((filled, end as int))
                && from < end <= text.len(),
            None => color_at(text@, from as int, m) is None,
        },
{
    let (count, end) = match take_number(text, from) {
        Some(found) => found,
        None => {
            return None;
        },
    };
    if count > u32::MAX as u64 || !is_char_at(text, end, ' ') {
        return None;
    }
    let stop = skip_run(text, end + 1, Class::Letter);
    let count = count as u32;
    if same_text(text, end + 1, stop, &vec!['r', 'e', 'd']) {
        Some((Match { red: count, green: m.green, blue: m.blue }, stop))
    } else if same_text(text, end + 1, stop, &vec!['g', 'r', 'e', 'e', 'n']) {
        Some((Match { red: m.red, green: count, blue: m.blue }, stop))
    } else if same_text(text, end + 1, stop, &vec!['b', 'l', 'u', 'e']) {
        Some((Match { red: m.red, green: m.green, blue: count }, stop))
    } else {
        None
    }
}

fn parse_colors(text: &Vec<char>, from: usize) -> (r: (Match, usize))
    requires
        from <= text.len(),
    ensures
        colors_at(text@, from as int) == (r.0, r.1 as int),
        from <= r.1 <= text.len(),
{
    let (mut m, mut at) = match parse_color(text, from, Match { red: 0, green: 0, blue: 0 }) {
        Some(found) => found,
        None => {
            return (Match { red: 0, green: 0, blue: 0 }, from);
        },
    };
    loop
        invariant
            from <= at <= text.len(),
            colors_at(text@, from as int) == colors_from(text@, at as int, m),
        ensures
            colors_at(text@, from as int) == (m, at as int),
            from <= at <= text.len(),
        decreases text.len() - at,
    {
        let next = match skip_literal(text, at, &vec![',', ' ']) {
            Some(next) => next,
            None => {
                break ;
            },
        };
        match parse_color(text, next, m) {
            Some((filled, end)) => {
                m = filled;
                at = end;
            },
            None => {
                break ;
            },
        }
    }
    (m, at)
}

fn parse_game(text: &Vec<char>, from: usize) -> (r: Option<(Game, usize)>)
    requires
        from <= text.len(),
    ensures
        match r {
            Some((game, end)) => game_at(text@, from as int) == Some((game@, end as int)) && from
                < end <= text.len(),
            None => game_at(text@, from as int) is None,
        },
{
    let start = match skip_literal(text, from, &vec!['G', 'a', 'm', 'e', ' ']) {
        Some(next) => next,
        None => {
            return None;
        },
    };
    let (gid, end) = match take_number(text, start) {
        Some(found) => found,
        None => {
            return None;
        },
    };
    if gid > u32::MAX as u64 {
        return None;
    }
    let body = match skip_literal(text, end, &vec![':', ' ']) {
        Some(next) => next,
        None => {
            return None;
        },
    };
    let (first, next) = parse_colors(text, body);
    let mut matches: Vec<Match> = Vec::new();
    matches.push(first);
    let mut at = next;
    let ghost whole = matches_from(text@, next as int, seq![first]);
    assert(matches@ =~= seq![first]);
    loop
        invariant
            body <= at <= text.len(),
            whole == matches_from(text@, at as int, matches@),
        ensures
            whole == (matches@, at as int),
            body <= at <= text.len(),
        decreases text.len() - at,
    {
        let next = match skip_literal(text, at, &vec![';', ' ']) {
            Some(next) => next,
            None => {
                break ;
            },
        };
        let (m, end) = parse_colors(text, next);
        matches.push(m);
        at = end;
    }
    Some((Game { gid: gid as u32, matches }, at))
}

/// Reads the games of a text.
pub fn parse_games(input: &str) -> (games: Games)
    ensures
        games@ == games_of(input@),
{
    let text = chars_of(input);
    let mut games: Vec<Game> = Vec::new();
    let (first, mut at) = match parse_game(&text, 0) {
        Some(found) => found,
        None => {
            let games = Games { games };
            assert(games@ =~= games_of(input@));
            return games;
        },
    };
    let ghost mut done = seq![first@];
    games.push(first);
    loop
        invariant
            at <= text.len(),
            text@ == input@,
            done.len() == games.len(),
            forall|i: int| 0 <= i < games.len() ==> (#[trigger] games[i])@ == done[i],
            games_of(text@) == games_from(text@, at as int, done),
        ensures
            done.len() == games.len(),
            forall|i: int| 0 <= i < games.len() ==> (#[trigger] games[i])@ == done[i],
            games_of(input@) == done,
        decreases text.len() - at,
    {
        if !is_char_at(&text, at, '\n') {
            break ;
        }
        match parse_game(&text, at + 1) {
            Some((game, end)) => {
                proof {
                    done = done.push(game@);
                }
                games.push(game);
                at = end;
            },
            None => {
                break ;
            },
        }
    }
    let games = Games { games };
    assert(games@ =~= done);
    games
}

/// Whether a game can be played with the given cubes: nothing shown is more
/// than the bag holds.
pub open spec fn possible(game: GameView, bag: Match) -> bool {
    forall|i: int|
        0 <= i < game.matches.len() ==> (#[trigger] game.matches[i]).red <= bag.red
            && game.matches[i].green <= bag.green && game.matches[i].blue <= bag.blue
}

/// The sum of the numbers of the possible games among the first `k`.
pub open spec fn possible_sum(games: Seq<GameView>, bag: Match, k: nat) -> nat
    decreases k,
{
    if k == 0 || k > games.len() {
        0
    } else {
        possible_sum(games, bag, (k - 1) as nat) + if possible(games[k - 1], bag) {
            games[k - 1].gid as nat
        } else {
            0
        }
    }
}

proof fn lemma_possible_sum_grows(games: Seq<GameView>, bag: Match, k: nat)
    requires
        k <= games.len(),
    ensures
        possible_sum(games, bag, k) <= possible_sum(games, bag, games.len()),
    decreases games.len() - k,
{
    if k < games.len() {
        lemma_possible_sum_grows(games, bag, k + 1);
    }
}

fn is_possible(game: &Game, bag: &Match) -> (r: bool)
    ensures
        r == possible(game@, *bag),
{
    let mut possible = true;
    let mut i: usize = 0;
    let ghost mut bad: int = 0;
    while i < game.matches.len()
        invariant
            i <= game.matches.len(),
            possible ==> forall|j: int|
                0 <= j < i ==> (#[trigger] game.matches[j]).red <= bag.red && game.matches[j].green
                    <= bag.green && game.matches[j].blue <= bag.blue,
            !possible ==> 0 <= bad < game.matches.len() && !(game.matches[bad].red <= bag.red
                && game.matches[bad].green <= bag.green && game.matches[bad].blue <= bag.blue),
        decreases game.matches.len() - i,
    {
        let m = game.matches[i];
        if m.red > bag.red || m.green > bag.green || m.blue > bag.blue {
            possible = false;
            proof {
                bad = i as int;
            }
        }
        i = i + 1;
    }
    proof {
        let shown = game@.matches;
        assert(shown == game.matches@);
        if possible {
            assert forall|j: int| 0 <= j < shown.len() implies (#[trigger] shown[j]).red
                <= bag.red && shown[j].green <= bag.green && shown[j].blue <= bag.blue by {
                assert(shown[j] == game.matches[j]);
            }
        } else {
            assert(shown[bad] == game.matches[bad]);
        }
    }
    possible
}

/// The sum of the numbers of the games that can be played with the cubes
/// that are available.
pub fn sum_possibile_games(input: &str, available_cubes: Match) -> (sum: u32)
    requires
        possible_sum(games_of(input@), available_cubes, games_of(input@).len()) <= u32::MAX,
    ensures
        sum == possible_sum(games_of(input@), available_cubes, games_of(input@).len()),
{
    let games = parse_games(input);
    let ghost all = games@;
    let mut res: u32 = 0;
    let mut k: usize = 0;
    while k < games.games.len()
        invariant
            k <= games.games.len(),
            all == games@,
            all.len() == games.games.len(),
            possible_sum(all, available_cubes, all.len()) <= u32::MAX,
            res == possible_sum(all, available_cubes, k as nat),
        decreases games.games.len() - k,
    {
        proof {
            lemma_possible_sum_grows(all, available_cubes, (k + 1) as nat);
        }
        let game = &games.games[k];
        assert(all[k as int] == game@);
        if is_possible(game, &available_cubes) {
            res = res + game.gid;
        }
        k = k + 1;
    }
    res
}

/// The largest count of red cubes among the first `k` showings, and of
/// green and of blue cubes.
pub open spec fn fewest(matches: Seq<Match>, k: nat) -> Match
    decreases k,
{
    if k == 0 || k > matches.len() {
        no_cubes()
    } else {
        let before = fewest(matches, (k - 1) as nat);
        let m = matches[k - 1];
        Match {
            red: if m.red > before.red {
                m.red
            } else {
                before.red
            },
            green: if m.green > before.green {
                m.green
            } else {
                before.green
            },
            blue: if m.blue > before.blue {
                m.blue
            } else {
                before.blue
            },
        }
    }
}

/// The power of a game: the product of the fewest cubes of each colour that
/// make it possible.
pub open spec fn power(game: GameView) -> nat {
    let least = fewest(game.matches, game.matches.len());
    (least.red * least.green * least.blue) as nat
}

/// The sum of the powers of the first `k` games.
pub open spec fn power_sum(games: Seq<GameView>, k: nat) -> nat
    decreases k,
{
    if k == 0 || k > games.len() {
        0
    } else {
        power_sum(games, (k - 1) as nat) + power(games[k - 1])
    }
}

/// Whether the power of every game and the sum of the powers can be
/// computed in 32 bits.
pub open spec fn powers_fit(games: Seq<GameView>) -> bool {
    power_sum(games, games.len()) <= u32::MAX && forall|i: int|
        0 <= i < games.len() ==> fewest(
            (#[trigger] games[i]).matches,
            games[i].matches.len(),
        ).red * fewest(games[i].matches, games[i].matches.len()).green <= u32::MAX
}

proof fn lemma_power_sum_grows(games: Seq<GameView>, k: nat)
    requires
        k <= games.len(),
    ensures
        power_sum(games, k) <= power_sum(games, games.len()),
    decreases games.len() - k,
{
    if k < games.len() {
        lemma_power_sum_grows(games, k + 1);
    }
}

/// The sum of the powers of the games.
pub fn fewers_number_of_cubes_to_make_it_possible(input: &str) -> (sum: u32)
    requires
        powers_fit(games_of(input@)),
    ensures
        sum == power_sum(games_of(input@), games_of(input@).len()),
{
    let games = parse_games(input);
    let ghost all = games@;
    let mut res: u32 = 0;
    let mut k: usize = 0;
    while k < games.games.len()
        invariant
            k <= games.games.len(),
            all == games@,
            all.len() == games.games.len(),
            powers_fit(all),
            res == power_sum(all, k as nat),
        decreases games.games.len() - k,
    {
        let game = &games.games[k];
        assert(all[k as int] == game@);
        let mut min_red: u32 = 0;
        let mut min_green: u32 = 0;
        let mut min_blue: u32 = 0;
        let mut i: usize = 0;
        while i < game.matches.len()
            invariant
                i <= game.matches.len(),
                fewest(game.matches@, i as nat) == (Match {
                    red: min_red,
                    green: min_green,
                    blue: min_blue,
                }),
            decreases game.matches.len() - i,
        {
            let m = game.matches[i];
            if m.red > min_red {
                min_red = m.red;
            }
            if m.green > min_green {
                min_green = m.green;
            }
            if m.blue > min_blue {
                min_blue = m.blue;
            }
            i = i + 1;
        }
        proof {
            lemma_power_sum_grows(all, (k + 1) as nat);
            assert(min_red * min_green <= u32::MAX);
            assert(power(all[k as int]) == min_red * min_green * min_blue);
        }
        let power = min_red * min_green * min_blue;
        res = res + power;
        k = k + 1;
    }
    res
}

/// The sum of the numbers of the games that can be played with the cubes
/// that are available, if it fits in 32 bits.
pub fn sum_of_possible(games: &Games, available_cubes: Match) -> (r: Option<u32>)
    ensures
        match r {
            Some(sum) => sum == possible_sum(games@, available_cubes, games@.len()),
            None => possible_sum(games@, available_cubes, games@.len()) > u32::MAX,
        },
{
    let ghost all = games@;
    let mut res: u32 = 0;
    let mut k: usize = 0;
    while k < games.games.len()
        invariant
            k <= games.games.len(),
            all == games@,
            all.len() == games.games.len(),
            res == possible_sum(all, available_cubes, k as nat),
        decreases games.games.len() - k,
    {
        proof {
            lemma_possible_sum_grows(all, available_cubes, (k + 1) as nat);
        }
        let game = &games.games[k];
        assert(all[k as int] == game@);
        if is_possible(game, &available_cubes) {
            if res > u32::MAX - game.gid {
                return None;
            }
            res = res + game.gid;
        }
        k = k + 1;
    }
    Some(res)
}

fn fewest_of(game: &Game) -> (least: Match)
    ensures
        least == fewest(game.matches@, game.matches.len() as nat),
{
    let mut least = Match { red: 0, green: 0, blue: 0 };
    let mut i: usize = 0;
    while i < game.matches.len()
        invariant
            i <= game.matches.len(),
            least == fewest(game.matches@, i as nat),
        decreases game.matches.len() - i,
    {
        let m = game.matches[i];
        if m.red > least.red {
            least.red = m.red;
        }
        if m.green > least.green {
            least.green = m.green;
        }
        if m.blue > least.blue {
            least.blue = m.blue;
        }
        i = i + 1;
    }
    least
}

/// The sum of the powers of the games, if every product on the way and the
/// sum fit in 32 bits.
pub fn sum_of_powers(games: &Games) -> (r: Option<u32>)
    ensures
        match r {
            Some(sum) => powers_fit(games@) && sum == power_sum(games@, games@.len()),
            None => !powers_fit(games@),
        },
{
    let ghost all = games@;
    let mut res: u32 = 0;
    let mut k: usize = 0;
    while k < games.games.len()
        invariant
            k <= games.games.len(),
            all == games@,
            all.len() == games.games.len(),
            res == power_sum(all, k as nat),
            forall|i: int|
                0 <= i < k ==> fewest((#[trigger] all[i]).matches, all[i].matches.len()).red
                    * fewest(all[i].matches, all[i].matches.len()).green <= u32::MAX,
        decreases games.games.len() - k,
    {
        proof {
            lemma_power_sum_grows(all, (k + 1) as nat);
        }
        let game = &games.games[k];
        assert(all[k as int] == game@);
        let least = fewest_of(game);
        assert(least.red * least.green <= 0xffff_ffff * 0xffff_ffff) by (nonlinear_arith)
            requires
                least.red <= 0xffff_ffff,
                least.green <= 0xffff_ffff,
        ;
        let area = least.red as u64 * least.green as u64;
        if area > u32::MAX as u64 {
            return None;
        }
        assert(power(all[k as int]) == least.red * least.green * least.blue);
        assert(area * least.blue <= 0xffff_ffff * 0xffff_ffff) by (nonlinear_arith)
            requires
                area <= 0xffff_ffff,
                least.blue <= 0xffff_ffff,
        ;
        let power = area * least.blue as u64;
        if power > (u32::MAX - res) as u64 {
            return None;
        }
        res = res + power as u32;
        k = k + 1;
    }
    Some(res)
}

} // verus!
