use crate::char_grid::grid_cells;
use crate::char_grid::grid_clone;
use crate::char_grid::grid_cols;
use crate::char_grid::grid_from_vec;
use crate::char_grid::grid_get;
use crate::char_grid::grid_rows;
use crate::char_grid::grid_same;
use crate::char_grid::grid_set;
use crate::char_grid::is_grid;
use crate::char_grid::put;
use crate::char_grid::rows_of;
use crate::char_grid::width;
use crate::text::chars_of;
use grid::Grid;
use vstd::prelude::*;

verus! {

/// The side towards which a platform is tilted.
#[derive(Clone, Copy, Debug, PartialEq, Eq, Structural)]
pub enum Tilt {
    North,
    South,
    West,
    East,
}

/// The index of the first line feed at or after `from`, or the length.
pub open spec fn first_newline(s: Seq<char>, from: int) -> int
    decreases s.len() - from,
{
    if from < 0 || from >= s.len() || s[from] == '\n' {
        from
    } else {
        first_newline(s, from + 1)
    }
}

/// A text without its line feeds.
pub open spec fn without_newlines(s: Seq<char>) -> Seq<char> {
    s.filter(|c: char| c != '\n')
}

/// Whether a text shows a platform: it has a line feed, and its other
/// characters form whole rows as long as its first line.
pub open spec fn shows_platform(input: Seq<char>) -> bool {
    &&& first_newline(input, 0) < input.len()
    &&& first_newline(input, 0) == 0 ==> without_newlines(input).len() == 0
    &&& first_newline(input, 0) > 0 ==> without_newlines(input).len() % (first_newline(
        input,
        0,
    ) as nat) == 0
}

/// Reads a platform: as wide as the first line is long, with the characters
/// other than line feeds as its cells.
pub fn parse(input: &str) -> (g: Grid<char>)
    requires
        shows_platform(input@),
    ensures
        grid_cells(g) == rows_of(without_newlines(input@), first_newline(input@, 0)),
{
    try_parse(input).unwrap()
}

/// Reads a platform, if the text shows one.
pub fn try_parse(input: &str) -> (r: Option<Grid<char>>)
    ensures
        match r {
            Some(g) => shows_platform(input@) && grid_cells(g) == rows_of(
                without_newlines(input@),
                first_newline(input@, 0),
            ),
            None => !shows_platform(input@),
        },
{
    let text = chars_of(input);
    let n = text.len();
    let mut cols: usize = 0;
    while cols < n && text[cols] != '\n'
        invariant
            n == text.len(),
            cols <= n,
            first_newline(text@, 0) == first_newline(text@, cols as int),
        decreases n - cols,
    {
        cols = cols + 1;
    }
    let mut v: Vec<char> = Vec::new();
    let mut i: usize = 0;
    assert(text@.take(0) =~= Seq::<char>::empty());
    while i < n
        invariant
            n == text.len(),
            i <= n,
            v@ == without_newlines(text@.take(i as int)),
        decreases n - i,
    {
        let c = text[i];
        proof {
            assert(text@.take(i + 1).drop_last() =~= text@.take(i as int));
            assert(text@.take(i + 1).last() == c);
            reveal(Seq::filter);
        }
        if c != '\n' {
            v.push(c);
        }
        i = i + 1;
    }
    assert(text@.take(n as int) =~= text@);
    if cols >= n || (cols == 0 && v.len() != 0) || (cols > 0 && v.len() % cols != 0) {
        return None;
    }
    Some(grid_from_vec(v, cols))
}

/// The cell next to (`r`, `c`) on the side `d`, if the platform has one.
pub open spec fn beside(cells: Seq<Seq<char>>, r: int, c: int, d: Tilt) -> Option<(int, int)> {
    match d {
        Tilt::North => if r > 0 {
            Some((r - 1, c))
        } else {
            None
        },
        Tilt::South => if r < cells.len() - 1 {
            Some((r + 1, c))
        } else {
            None
        },
        Tilt::West => if c > 0 {
            Some((r, c - 1))
        } else {
            None
        },
        Tilt::East => if c < width(cells) - 1 {
            Some((r, c + 1))
        } else {
            None
        },
    }
}

/// How many cells lie between (`r`, `c`) and the edge on the side `d`.
pub open spec fn room(cells: Seq<Seq<char>>, r: int, c: int, d: Tilt) -> int {
    match d {
        Tilt::North => r,
        Tilt::South => cells.len() - 1 - r,
        Tilt::West => c,
        Tilt::East => width(cells) - 1 - c,
    }
}

/// Where a rock that starts at (`r`, `c`) comes to rest when it rolls
/// towards `d`: it rolls on while the next cell is empty.
pub open spec fn rest(cells: Seq<Seq<char>>, r: int, c: int, d: Tilt) -> (int, int)
    decreases room(cells, r, c, d),
{
    match beside(cells, r, c, d) {
        Some((nr, nc)) => if room(cells, r, c, d) > 0 && cells[nr][nc] == '.' {
            rest(cells, nr, nc, d)
        } else {
            (r, c)
        },
        None => (r, c),
    }
}

/// The platform after the rock at (`r`, `c`), if there is a round one, has
/// rolled towards `d`.
pub open spec fn settle(cells: Seq<Seq<char>>, r: int, c: int, d: Tilt) -> Seq<Seq<char>> {
    if cells[r][c] == 'O' {
        let to = rest(cells, r, c, d);
        if to != (r, c) {
            put(put(cells, to.0, to.1, 'O'), r, c, '.')
        } else {
            cells
        }
    } else {
        cells
    }
}

/// The row that a tilt towards `d` visits as its `i`-th: rows are visited
/// from the side that the rocks roll to.
pub open spec fn row_at(cells: Seq<Seq<char>>, d: Tilt, i: int) -> int {
    if d == Tilt::South {
        cells.len() - 1 - i
    } else {
        i
    }
}

/// The column that a tilt towards `d` visits as its `j`-th in every row.
pub open spec fn col_at(cells: Seq<Seq<char>>, d: Tilt, j: int) -> int {
    if d == Tilt::East {
        width(cells) - 1 - j
    } else {
        j
    }
}

/// The platform after a tilt towards `d` has visited the first `j` cells of
/// its `i`-th row.
pub open spec fn tilt_row(cells: Seq<Seq<char>>, d: Tilt, i: int, j: nat) -> Seq<Seq<char>>
    decreases j,
{
    if j == 0 {
        cells
    } else {
        settle(tilt_row(cells, d, i, (j - 1) as nat), row_at(cells, d, i), col_at(cells, d, j - 1), d)
    }
}

/// The platform after a tilt towards `d` has visited its first `i` rows.
pub open spec fn tilt_upto(cells: Seq<Seq<char>>, d: Tilt, i: nat) -> Seq<Seq<char>>
    decreases i,
{
    if i == 0 {
        cells
    } else {
        tilt_row(tilt_upto(cells, d, (i - 1) as nat), d, i - 1, width(cells))
    }
}

/// The platform after it has been tilted towards `d`: every round rock, in
/// the order in which the tilt visits them, has rolled as far as it can.
pub open spec fn tilted(cells: Seq<Seq<char>>, d: Tilt) -> Seq<Seq<char>> {
    tilt_upto(cells, d, cells.len())
}

/// Whether two platforms have the same size.
pub open spec fn same_shape(a: Seq<Seq<char>>, b: Seq<Seq<char>>) -> bool {
    a.len() == b.len() && width(a) == width(b) && is_grid(a) && is_grid(b)
}

/// A rock comes to rest in a cell of the platform.
pub proof fn lemma_rest_in_grid(cells: Seq<Seq<char>>, r: int, c: int, d: Tilt)
    requires
        is_grid(cells),
        0 <= r < cells.len(),
        0 <= c < width(cells),
    ensures
        0 <= rest(cells, r, c, d).0 < cells.len(),
        0 <= rest(cells, r, c, d).1 < width(cells),
    decreases room(cells, r, c, d),
{
    match beside(cells, r, c, d) {
        Some((nr, nc)) => {
            if room(cells, r, c, d) > 0 && cells[nr][nc] == '.' {
                lemma_rest_in_grid(cells, nr, nc, d);
            }
        },
        None => {},
    }
}

/// Replacing a cell leaves the size of the platform as it is.
pub proof fn lemma_put_keeps_shape(cells: Seq<Seq<char>>, r: int, c: int, value: char)
    requires
        is_grid(cells),
        0 <= r < cells.len(),
        0 <= c < width(cells),
    ensures
        same_shape(cells, put(cells, r, c, value)),
{
    let after = put(cells, r, c, value);
    assert(cells[r].len() == width(cells));
    assert forall|i: int| 0 <= i < after.len() implies (#[trigger] after[i]).len() == width(after)
        && width(after) > 0 by {
        assert(cells[i].len() == width(cells));
        assert(cells[0].len() == width(cells));
    }
}

/// A rock that rolls leaves the size of the platform as it is.
pub proof fn lemma_settle_keeps_shape(cells: Seq<Seq<char>>, r: int, c: int, d: Tilt)
    requires
        is_grid(cells),
        0 <= r < cells.len(),
        0 <= c < width(cells),
    ensures
        same_shape(cells, settle(cells, r, c, d)),
{
    lemma_rest_in_grid(cells, r, c, d);
    let to = rest(cells, r, c, d);
    lemma_put_keeps_shape(cells, to.0, to.1, 'O');
    lemma_put_keeps_shape(put(cells, to.0, to.1, 'O'), r, c, '.');
}

/// Rolls the rock at (`r`, `c`), if there is a round one, towards `d`.
fn settle_at(g: &mut Grid<char>, r: usize, c: usize, d: Tilt)
    requires
        r < grid_cells(*old(g)).len(),
        c < width(grid_cells(*old(g))),
    ensures
        grid_cells(*final(g)) == settle(grid_cells(*old(g)), r as int, c as int, d),
        same_shape(grid_cells(*old(g)), grid_cells(*final(g))),
{
    let rows = grid_rows(g);
    let cols = grid_cols(g);
    let ghost cells = grid_cells(*g);
    proof {
        lemma_settle_keeps_shape(cells, r as int, c as int, d);
    }
    match grid_get(g, r, c) {
        Some(obj) => {
            if obj == 'O' {
                let mut cur_row = r;
                let mut cur_col = c;
                loop
                    invariant
                        cells == grid_cells(*g),
                        rows == cells.len(),
                        cols == width(cells),
                        is_grid(cells),
                        cur_row < rows,
                        cur_col < cols,
                        rest(cells, r as int, c as int, d) == rest(
                            cells,
                            cur_row as int,
                            cur_col as int,
                            d,
                        ),
                    ensures
                        rest(cells, r as int, c as int, d) == (cur_row as int, cur_col as int),
                    decreases room(cells, cur_row as int, cur_col as int, d),
                {
                    let next = match d {
                        Tilt::North => if cur_row > 0 {
                            Some((cur_row - 1, cur_col))
                        } else {
                            None
                        },
                        Tilt::South => if cur_row < rows - 1 {
                            Some((cur_row + 1, cur_col))
                        } else {
                            None
                        },
                        Tilt::West => if cur_col > 0 {
                            Some((cur_row, cur_col - 1))
                        } else {
                            None
                        },
                        Tilt::East => if cur_col < cols - 1 {
                            Some((cur_row, cur_col + 1))
                        } else {
                            None
                        },
                    };
                    match next {
                        Some((nr, nc)) => {
                            match grid_get(g, nr, nc) {
                                Some(beyond) => {
                                    if beyond == '.' {
                                        cur_row = nr;
                                        cur_col = nc;
                                    } else {
                                        break ;
                                    }
                                },
                                None => {
                                    break ;
                                },
                            }
                        },
                        None => {
                            break ;
                        },
                    }
                }
                if cur_row != r || cur_col != c {
                    proof {
                        lemma_put_keeps_shape(cells, cur_row as int, cur_col as int, 'O');
                    }
                    grid_set(g, cur_row, cur_col, 'O');
                    grid_set(g, r, c, '.');
                }
            }
        },
        None => {},
    }
}

/// Tilts the platform towards `d`.
pub fn tilt(g: &mut Grid<char>, d: Tilt)
    ensures
        grid_cells(*final(g)) == tilted(grid_cells(*old(g)), d),
        same_shape(grid_cells(*old(g)), grid_cells(*final(g))),
{
    let rows = grid_rows(g);
    let cols = grid_cols(g);
    let ghost start = grid_cells(*g);
    let mut i: usize = 0;
    while i < rows
        invariant
            rows == start.len(),
            cols == width(start),
            is_grid(start),
            i <= rows,
            grid_cells(*g) == tilt_upto(start, d, i as nat),
            same_shape(start, grid_cells(*g)),
        decreases rows - i,
    {
        let r = match d {
            Tilt::South => rows - 1 - i,
            _ => i,
        };
        let ghost before = grid_cells(*g);
        let mut j: usize = 0;
        while j < cols
            invariant
                rows == start.len(),
                cols == width(start),
                is_grid(start),
                i < rows,
                r == row_at(start, d, i as int),
                r < rows,
                j <= cols,
                same_shape(start, before),
                grid_cells(*g) == tilt_row(before, d, i as int, j as nat),
                same_shape(start, grid_cells(*g)),
            decreases cols - j,
        {
            let c = match d {
                Tilt::East => cols - 1 - j,
                _ => j,
            };
            settle_at(g, r, c, d);
            j = j + 1;
        }
        i = i + 1;
    }
}

/// Tilts the platform to the north.
pub fn rotate_north(g: &mut Grid<char>)
    ensures
        grid_cells(*final(g)) == tilted(grid_cells(*old(g)), Tilt::North),
        same_shape(grid_cells(*old(g)), grid_cells(*final(g))),
{
    tilt(g, Tilt::North)
}

/// Tilts the platform to the south.
pub fn rotate_south(g: &mut Grid<char>)
    ensures
        grid_cells(*final(g)) == tilted(grid_cells(*old(g)), Tilt::South),
        same_shape(grid_cells(*old(g)), grid_cells(*final(g))),
{
    tilt(g, Tilt::South)
}

/// Tilts the platform to the west.
pub fn rotate_west(g: &mut Grid<char>)
    ensures
        grid_cells(*final(g)) == tilted(grid_cells(*old(g)), Tilt::West),
        same_shape(grid_cells(*old(g)), grid_cells(*final(g))),
{
    tilt(g, Tilt::West)
}

/// Tilts the platform to the east.
pub fn rotate_east(g: &mut Grid<char>)
    ensures
        grid_cells(*final(g)) == tilted(grid_cells(*old(g)), Tilt::East),
        same_shape(grid_cells(*old(g)), grid_cells(*final(g))),
{
    tilt(g, Tilt::East)
}

/// The platform after one spin: tilted north, west, south and east.
pub open spec fn spun(cells: Seq<Seq<char>>) -> Seq<Seq<char>> {
    tilted(tilted(tilted(tilted(cells, Tilt::North), Tilt::West), Tilt::South), Tilt::East)
}

/// The platform after `n` spins.
pub open spec fn spun_times(cells: Seq<Seq<char>>, n: nat) -> Seq<Seq<char>>
    decreases n,
{
    if n == 0 {
        cells
    } else {
        spun(spun_times(cells, (n - 1) as nat))
    }
}

/// Spins the platform once.
pub fn tortoise(g: &mut Grid<char>)
    ensures
        grid_cells(*final(g)) == spun(grid_cells(*old(g))),
        same_shape(grid_cells(*old(g)), grid_cells(*final(g))),
{
    rotate_north(g);
    rotate_west(g);
    rotate_south(g);
    rotate_east(g);
}

/// Spins the platform twice.
pub fn hare(g: &mut Grid<char>)
    ensures
        grid_cells(*final(g)) == spun(spun(grid_cells(*old(g)))),
        same_shape(grid_cells(*old(g)), grid_cells(*final(g))),
{
    tortoise(g);
    tortoise(g);
}

/// The number of round rocks among the first `k` cells of a row.
pub open spec fn rocks_upto(row: Seq<char>, k: nat) -> nat
    decreases k,
{
    if k == 0 || k > row.len() {
        0
    } else {
        rocks_upto(row, (k - 1) as nat) + if row[k - 1] == 'O' {
            1nat
        } else {
            0nat
        }
    }
}

/// The load of the first `k` rows: every round rock of row `i` weighs the
/// width of the platform less `i`.
pub open spec fn load_upto(cells: Seq<Seq<char>>, k: nat) -> nat
    decreases k,
{
    if k == 0 || k > cells.len() {
        0
    } else {
        load_upto(cells, (k - 1) as nat) + ((width(cells) - (k - 1)) * rocks_upto(
            cells[k - 1],
            cells[k - 1].len(),
        )) as nat
    }
}

/// The load on the north support beams.
pub open spec fn load(cells: Seq<Seq<char>>) -> nat {
    load_upto(cells, cells.len())
}

/// Whether the load of a platform of this shape can be computed: it is no
/// higher than wide, and small enough for no load to overflow.
pub open spec fn weighable(cells: Seq<Seq<char>>) -> bool {
    cells.len() <= width(cells) && cells.len() * width(cells) * width(cells) <= usize::MAX
}

proof fn lemma_rocks_bound(row: Seq<char>, k: nat)
    requires
        k <= row.len(),
    ensures
        rocks_upto(row, k) <= k,
    decreases k,
{
    if k > 0 {
        lemma_rocks_bound(row, (k - 1) as nat);
    }
}

proof fn lemma_load_bound(cells: Seq<Seq<char>>, k: nat)
    requires
        is_grid(cells),
        k <= cells.len() <= width(cells),
    ensures
        load_upto(cells, k) <= k * width(cells) * width(cells),
    decreases k,
{
    let w = width(cells) as int;
    if k > 0 {
        lemma_load_bound(cells, (k - 1) as nat);
        let row = cells[k - 1];
        assert(row.len() == w);
        lemma_rocks_bound(row, row.len());
        let n = rocks_upto(row, row.len()) as int;
        let weight = w - (k - 1);
        assert(weight * n <= w * w) by (nonlinear_arith)
            requires
                0 <= weight <= w,
                0 <= n <= w,
        ;
        assert((k - 1) * w * w + w * w == k * w * w) by (nonlinear_arith);
    } else {
        assert(0 * w * w == 0) by (nonlinear_arith);
    }
}

proof fn lemma_size_grows(k: int, rows: int, w: int)
    requires
        0 <= k <= rows,
        0 <= w,
    ensures
        k * w * w <= rows * w * w,
{
    assert(k * w * w <= rows * w * w) by (nonlinear_arith)
        requires
            0 <= k <= rows,
            0 <= w,
    ;
}

/// Whether the load of the platform can be computed.
pub fn can_weigh(g: &Grid<char>) -> (r: bool)
    ensures
        r == weighable(grid_cells(*g)),
{
    let rows = grid_rows(g);
    let cols = grid_cols(g);
    if rows > cols {
        return false;
    }
    if rows == 0 {
        assert(rows * cols * cols == 0) by (nonlinear_arith)
            requires
                rows == 0,
        ;
        return true;
    }
    if cols > usize::MAX / cols {
        assert(rows * cols * cols > usize::MAX) by (nonlinear_arith)
            requires
                cols > usize::MAX / cols,
                cols >= 1,
                rows >= 1,
        ;
        return false;
    }
    assert(0 < cols * cols <= usize::MAX) by (nonlinear_arith)
        requires
            cols <= usize::MAX / cols,
            cols >= 1,
    ;
    let square = cols * cols;
    let r = rows <= usize::MAX / square;
    assert(r == (rows * cols * cols <= usize::MAX)) by (nonlinear_arith)
        requires
            r == (rows <= usize::MAX / square),
            square == cols * cols,
            square > 0,
    ;
    r
}

/// The load on the north support beams.
pub fn compute_weight(g: &Grid<char>) -> (total: usize)
    requires
        weighable(grid_cells(*g)),
    ensures
        total == load(grid_cells(*g)),
{
    let rows = grid_rows(g);
    let cols = grid_cols(g);
    let ghost cells = grid_cells(*g);
    let mut weight = cols;
    let mut total: usize = 0;
    let mut r: usize = 0;
    while r < rows
        invariant
            cells == grid_cells(*g),
            rows == cells.len(),
            cols == width(cells),
            is_grid(cells),
            weighable(cells),
            r <= rows,
            weight == cols - r,
            total == load_upto(cells, r as nat),
        decreases rows - r,
    {
        let mut count: usize = 0;
        let mut c: usize = 0;
        let ghost row = cells[r as int];
        assert(row.len() == cols);
        while c < cols
            invariant
                cells == grid_cells(*g),
                rows == cells.len(),
                cols == width(cells),
                r < rows,
                row == cells[r as int],
                row.len() == cols,
                c <= cols,
                count == rocks_upto(row, c as nat),
                count <= c,
            decreases cols - c,
        {
            match grid_get(g, r, c) {
                Some(e) => {
                    if e == 'O' {
                        count = count + 1;
                    }
                },
                None => {},
            }
            c = c + 1;
        }
        proof {
            lemma_load_bound(cells, (r + 1) as nat);
            lemma_size_grows(r + 1, rows as int, cols as int);
            assert(weight * count >= 0) by (nonlinear_arith)
                requires
                    weight >= 0,
                    count >= 0,
            ;
        }
        total = total + weight * count;
        weight = weight - 1;
        r = r + 1;
    }
    total
}

/// The load on the north support beams after a tilt to the north.
pub fn solve(g: &mut Grid<char>) -> (total: usize)
    requires
        weighable(grid_cells(*old(g))),
    ensures
        grid_cells(*final(g)) == tilted(grid_cells(*old(g)), Tilt::North),
        total == load(grid_cells(*final(g))),
{
    rotate_north(g);
    compute_weight(g)
}

/// The number of spins after which the load is asked for.
pub const SPINS: usize = 1_000_000_000;

/// Spinning `a` times and then `b` times is spinning `a + b` times.
pub proof fn lemma_spins_add(cells: Seq<Seq<char>>, a: nat, b: nat)
    ensures
        spun_times(spun_times(cells, a), b) == spun_times(cells, a + b),
    decreases b,
{
    if b > 0 {
        lemma_spins_add(cells, a, (b - 1) as nat);
    }
}

/// Once the platform comes back, after `q` more spins, to what it was after
/// `p` spins, it goes on repeating itself: any number of whole rounds of `q`
/// spins can be left out.
pub proof fn lemma_spins_repeat(cells: Seq<Seq<char>>, p: nat, q: nat, m: nat, r: nat)
    requires
        spun_times(cells, p) == spun_times(cells, p + q),
    ensures
        spun_times(cells, p + m * q + r) == spun_times(cells, p + r),
    decreases m,
{
    if m == 0 {
        assert(0 * q == 0) by (nonlinear_arith);
    } else {
        lemma_spins_repeat(cells, p, q, (m - 1) as nat, r);
        assert(m * q == (m - 1) * q + q) by (nonlinear_arith);
        let rest = ((m - 1) * q + r) as nat;
        lemma_spins_add(cells, p + q, rest);
        lemma_spins_add(cells, p, rest);
        assert(p + q + rest == p + m * q + r);
    }
}

/// The load on the north support beams after a thousand million spins. The
/// platform is spun until it is seen to repeat itself; the spins that only
/// repeat are left out.
pub fn solve2(g: &mut Grid<char>) -> (total: usize)
    requires
        weighable(grid_cells(*old(g))),
    ensures
        grid_cells(*final(g)) == spun_times(grid_cells(*old(g)), SPINS as nat),
        total == load(grid_cells(*final(g))),
{
    let ghost start = grid_cells(*g);
    let mut t = grid_clone(g);
    let mut h = grid_clone(g);
    hare(&mut h);
    tortoise(&mut t);
    let mut met: usize = 1;
    assert(spun_times(start, 1) == spun(spun_times(start, 0)));
    assert(spun_times(start, 2) == spun(spun_times(start, 1)));
    while !grid_same(&t, &h) && met < SPINS
        invariant
            start == grid_cells(*g),
            1 <= met <= SPINS,
            grid_cells(t) == spun_times(start, met as nat),
            grid_cells(h) == spun_times(start, (2 * met) as nat),
            same_shape(start, grid_cells(t)),
            same_shape(start, grid_cells(h)),
        decreases SPINS - met,
    {
        assert(spun_times(start, (2 * met + 2) as nat) == spun(
            spun_times(start, (2 * met + 1) as nat),
        ));
        assert(spun_times(start, (2 * met + 1) as nat) == spun(
            spun_times(start, (2 * met) as nat),
        ));
        hare(&mut h);
        tortoise(&mut t);
        met = met + 1;
    }
    if !grid_same(&t, &h) {
        let total = compute_weight(&t);
        *g = t;
        return total;
    }
    let ghost round = (2 * met) as nat;
    proof {
        lemma_spins_add(start, met as nat, met as nat);
        lemma_spins_repeat(start, met as nat, met as nat, 1, met as nat);
        assert(1 * met == met) by (nonlinear_arith);
        assert(spun_times(start, (3 * met) as nat) == spun_times(start, (2 * met) as nat));
    }
    let mut mu: usize = 0;
    t = grid_clone(g);
    while !grid_same(&t, &h)
        invariant
            start == grid_cells(*g),
            1 <= met <= SPINS,
            round == 2 * met,
            mu <= met,
            spun_times(start, met as nat) == spun_times(start, (3 * met) as nat),
            grid_cells(t) == spun_times(start, mu as nat),
            grid_cells(h) == spun_times(start, (round + mu) as nat),
            same_shape(start, grid_cells(t)),
            same_shape(start, grid_cells(h)),
        decreases met - mu,
    {
        assert(spun_times(start, (mu + 1) as nat) == spun(spun_times(start, mu as nat)));
        assert(spun_times(start, (round + mu + 1) as nat) == spun(
            spun_times(start, (round + mu) as nat),
        ));
        tortoise(&mut t);
        tortoise(&mut h);
        mu = mu + 1;
    }
    let mut lam: usize = 1;
    assert(spun_times(start, (mu + 1) as nat) == spun(spun_times(start, mu as nat)));
    tortoise(&mut t);
    while !grid_same(&t, &h)
        invariant
            start == grid_cells(*g),
            1 <= met <= SPINS,
            round == 2 * met,
            mu <= met,
            1 <= lam <= round,
            grid_cells(t) == spun_times(start, (mu + lam) as nat),
            grid_cells(h) == spun_times(start, mu as nat),
            spun_times(start, mu as nat) == spun_times(start, (mu + round) as nat),
            same_shape(start, grid_cells(t)),
        decreases round - lam,
    {
        assert(spun_times(start, (mu + lam + 1) as nat) == spun(
            spun_times(start, (mu + lam) as nat),
        ));
        tortoise(&mut t);
        lam = lam + 1;
    }
    let mut k: usize = 0;
    while k < mu
        invariant
            k <= mu,
            grid_cells(*g) == spun_times(start, k as nat),
            same_shape(start, grid_cells(*g)),
        decreases mu - k,
    {
        assert(spun_times(start, (k + 1) as nat) == spun(spun_times(start, k as nat)));
        tortoise(g);
        k = k + 1;
    }
    let n = (SPINS - mu) % lam;
    let mut k: usize = 0;
    while k < n
        invariant
            k <= n,
            grid_cells(*g) == spun_times(start, (mu + k) as nat),
            same_shape(start, grid_cells(*g)),
        decreases n - k,
    {
        assert(spun_times(start, (mu + k + 1) as nat) == spun(
            spun_times(start, (mu + k) as nat),
        ));
        tortoise(g);
        k = k + 1;
    }
    proof {
        let whole = ((SPINS - mu) / (lam as int)) as nat;
        assert(SPINS - mu == whole * lam + n) by (nonlinear_arith)
            requires
                whole == (SPINS - mu) / (lam as int),
                n == (SPINS - mu) % (lam as int),
                lam > 0,
        ;
        lemma_spins_repeat(start, mu as nat, lam as nat, whole, n as nat);
    }
    compute_weight(g)
}

} // verus!
