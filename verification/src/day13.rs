use crate::char_grid::grid_cells;
use crate::char_grid::grid_cols;
use crate::char_grid::grid_from_vec;
use crate::char_grid::grid_get;
use crate::char_grid::grid_rows;
use crate::char_grid::is_grid;
use crate::char_grid::rows_of;
use crate::char_grid::width;
use crate::text::chars_of;
use crate::text::lines;
use crate::text::lines_spec;
use crate::text::views;
use grid::Grid;
use vstd::prelude::*;

verus! {

/// What reading the first lines of a text with patterns has produced: the
/// patterns that are complete, the cells of the pattern that is being read
/// and its width, and whether all has gone well.
pub struct Reading {
    pub patterns: Seq<Seq<Seq<char>>>,
    pub cells: Seq<char>,
    pub columns: nat,
    pub ok: bool,
}

/// Whether so many cells of a pattern form whole rows, an odd number of
/// them, each of the given odd length.
pub open spec fn is_pattern(cells: nat, columns: nat) -> bool {
    columns % 2 == 1 && cells % columns == 0 && (cells / columns) % 2 == 1
}

/// The state after the first `k` lines: an empty line ends a pattern, any
/// other line adds its characters to the pattern that is being read, whose
/// width is the length of its first line.
pub open spec fn reading(lines: Seq<Seq<char>>, k: nat) -> Reading
    decreases k,
{
    if k == 0 || k > lines.len() {
        Reading { patterns: Seq::empty(), cells: Seq::empty(), columns: 0, ok: true }
    } else {
        let before = reading(lines, (k - 1) as nat);
        let line = lines[k - 1];
        let columns = if before.columns == 0 {
            line.len()
        } else {
            before.columns
        };
        if line.len() == 0 {
            Reading {
                patterns: before.patterns.push(rows_of(before.cells, columns as int)),
                cells: Seq::empty(),
                columns: 0,
                ok: before.ok && is_pattern(before.cells.len(), columns),
            }
        } else {
            Reading {
                patterns: before.patterns,
                cells: before.cells + line,
                columns,
                ok: before.ok && columns % 2 == 1,
            }
        }
    }
}

/// Whether a text holds patterns and nothing else: every pattern has an odd
/// number of rows and an odd number of columns, one empty line stands
/// between two patterns, and none after the last.
pub open spec fn holds_patterns(lines: Seq<Seq<char>>) -> bool {
    let end = reading(lines, lines.len());
    end.ok && is_pattern(end.cells.len(), end.columns)
}

/// The patterns that a text holds.
pub open spec fn patterns_of(lines: Seq<Seq<char>>) -> Seq<Seq<Seq<char>>> {
    let end = reading(lines, lines.len());
    end.patterns.push(rows_of(end.cells, end.columns as int))
}

/// The cells of the patterns.
pub open spec fn cells_of(grids: Seq<Grid<char>>) -> Seq<Seq<Seq<char>>> {
    Seq::new(grids.len(), |i: int| grid_cells(grids[i]))
}

fn copy_chars(v: &Vec<char>) -> (copy: Vec<char>)
    ensures
        copy@ == v@,
{
    let mut copy: Vec<char> = Vec::new();
    let mut i: usize = 0;
    while i < v.len()
        invariant
            i <= v.len(),
            copy@ == v@.take(i as int),
        decreases v.len() - i,
    {
        copy.push(v[i]);
        assert(copy@ =~= v@.take(i + 1));
        i = i + 1;
    }
    assert(v@.take(v.len() as int) =~= v@);
    copy
}

fn check_pattern(cells: usize, columns: usize) -> (r: bool)
    ensures
        r == is_pattern(cells as nat, columns as nat),
{
    columns % 2 == 1 && cells % columns == 0 && (cells / columns) % 2 == 1
}

/// Reads the patterns of a text, if it holds patterns and nothing else.
pub fn try_parse(input: &str) -> (r: Option<Vec<Grid<char>>>)
    ensures
        match r {
            Some(grids) => holds_patterns(lines_spec(input@)) && cells_of(grids@) == patterns_of(
                lines_spec(input@),
            ),
            None => !holds_patterns(lines_spec(input@)),
        },
{
    let text = chars_of(input);
    let all = lines(&text);
    let ghost spec_lines = views(all@);
    let mut grids: Vec<Grid<char>> = Vec::new();
    let mut v: Vec<char> = Vec::new();
    let mut columns: usize = 0;
    let mut k: usize = 0;
    assert(cells_of(grids@) =~= reading(spec_lines, 0).patterns);
    while k < all.len()
        invariant
            k <= all.len(),
            spec_lines == views(all@),
            spec_lines == lines_spec(input@),
            reading(spec_lines, k as nat).ok,
            cells_of(grids@) == reading(spec_lines, k as nat).patterns,
            v@ == reading(spec_lines, k as nat).cells,
            columns == reading(spec_lines, k as nat).columns,
        decreases all.len() - k,
    {
        let line = &all[k];
        assert(spec_lines[k as int] == line@);
        if columns == 0 {
            columns = line.len();
        }
        if line.len() == 0 {
            if !check_pattern(v.len(), columns) {
                proof {
                    assert(!reading(spec_lines, (k + 1) as nat).ok);
                    if reading(spec_lines, spec_lines.len()).ok {
                        lemma_ok_before(spec_lines, (k + 1) as nat);
                    }
                }
                return None;
            }
            let ghost before = cells_of(grids@);
            let grid = grid_from_vec(copy_chars(&v), columns);
            grids.push(grid);
            assert(cells_of(grids@) =~= before.push(rows_of(v@, columns as int)));
            v = Vec::new();
            columns = 0;
        } else {
            if columns % 2 != 1 {
                proof {
                    assert(!reading(spec_lines, (k + 1) as nat).ok);
                    if reading(spec_lines, spec_lines.len()).ok {
                        lemma_ok_before(spec_lines, (k + 1) as nat);
                    }
                }
                return None;
            }
            let mut j: usize = 0;
            let ghost start = v@;
            while j < line.len()
                invariant
                    j <= line.len(),
                    v@ == start + line@.take(j as int),
                decreases line.len() - j,
            {
                v.push(line[j]);
                assert(v@ =~= start + line@.take(j + 1));
                j = j + 1;
            }
            assert(line@.take(line.len() as int) =~= line@);
        }
        k = k + 1;
    }
    if !check_pattern(v.len(), columns) {
        return None;
    }
    let ghost before = cells_of(grids@);
    let grid = grid_from_vec(v, columns);
    grids.push(grid);
    assert(cells_of(grids@) =~= before.push(
        rows_of(reading(spec_lines, all.len() as nat).cells, columns as int),
    ));
    Some(grids)
}

/// Reads the patterns of a text.
pub fn parse(input: &str) -> (grids: Vec<Grid<char>>)
    requires
        holds_patterns(lines_spec(input@)),
    ensures
        cells_of(grids@) == patterns_of(lines_spec(input@)),
{
    try_parse(input).unwrap()
}

proof fn lemma_ok_before(lines: Seq<Seq<char>>, k: nat)
    requires
        k <= lines.len(),
        reading(lines, lines.len()).ok,
    ensures
        reading(lines, k).ok,
    decreases lines.len() - k,
{
    if k < lines.len() {
        lemma_ok_before(lines, k + 1);
    }
}

/// Line `i` of a pattern: its `i`-th column where `by_cols`, else its
/// `i`-th row.
pub open spec fn line_of(cells: Seq<Seq<char>>, by_cols: bool, i: int) -> Seq<char> {
    if by_cols {
        Seq::new(cells.len(), |r: int| cells[r][i])
    } else {
        cells[i]
    }
}

/// The number of lines of a pattern.
pub open spec fn line_count(cells: Seq<Seq<char>>, by_cols: bool) -> nat {
    if by_cols {
        width(cells)
    } else {
        cells.len()
    }
}

/// The number of places among the first `k` at which two lines differ.
pub open spec fn differences(a: Seq<char>, b: Seq<char>, k: nat) -> nat
    decreases k,
{
    if k == 0 || k > a.len() || k > b.len() {
        0
    } else {
        differences(a, b, (k - 1) as nat) + if a[k - 1] != b[k - 1] {
            1nat
        } else {
            0nat
        }
    }
}

/// The number of pairs of lines that a mirror after line `r` sets against
/// each other.
pub open spec fn pairs_at(cells: Seq<Seq<char>>, by_cols: bool, r: int) -> nat {
    let n = line_count(cells, by_cols) as int;
    if r < 0 || r + 1 >= n {
        0
    } else if r + 1 <= n - r - 1 {
        (r + 1) as nat
    } else {
        (n - r - 1) as nat
    }
}

/// The number of cells at which the first `k` pairs of lines about a mirror
/// after line `r` differ.
pub open spec fn mirror_differences(cells: Seq<Seq<char>>, by_cols: bool, r: int, k: nat) -> nat
    decreases k,
{
    if k == 0 {
        0
    } else {
        mirror_differences(cells, by_cols, r, (k - 1) as nat) + differences(
            line_of(cells, by_cols, r - (k - 1)),
            line_of(cells, by_cols, r + 1 + (k - 1)),
            line_of(cells, by_cols, r - (k - 1)).len(),
        )
    }
}

/// Whether a mirror after line `r` shows the pattern on one side as it is on
/// the other, but for `smudges` cells.
pub open spec fn reflects(cells: Seq<Seq<char>>, by_cols: bool, r: int, smudges: nat) -> bool {
    mirror_differences(cells, by_cols, r, pairs_at(cells, by_cols, r)) == smudges
}

/// The first line at or after `from` after which a mirror can stand.
pub open spec fn first_mirror(cells: Seq<Seq<char>>, by_cols: bool, smudges: nat, from: int) -> Option<
    int,
>
    decreases line_count(cells, by_cols) - from,
{
    if from < 0 || from + 1 >= line_count(cells, by_cols) {
        None
    } else if reflects(cells, by_cols, from, smudges) {
        Some(from)
    } else {
        first_mirror(cells, by_cols, smudges, from + 1)
    }
}

/// The summary of a pattern: a hundred times the number of rows above its
/// first horizontal mirror, or else the number of columns left of its first
/// vertical mirror; nothing where it has no mirror.
pub open spec fn summary(cells: Seq<Seq<char>>, smudges: nat) -> Option<nat> {
    match first_mirror(cells, false, smudges, 0) {
        Some(r) => Some(((r + 1) * 100) as nat),
        None => match first_mirror(cells, true, smudges, 0) {
            Some(c) => Some((c + 1) as nat),
            None => None,
        },
    }
}

/// The sum of the summaries of the first `k` patterns.
pub open spec fn summaries(grids: Seq<Seq<Seq<char>>>, smudges: nat, k: nat) -> nat
    decreases k,
{
    if k == 0 || k > grids.len() {
        0
    } else {
        summaries(grids, smudges, (k - 1) as nat) + match summary(grids[k - 1], smudges) {
            Some(v) => v,
            None => 0,
        }
    }
}

/// Whether every pattern has a mirror and the sum of the summaries fits.
pub open spec fn summable(grids: Seq<Seq<Seq<char>>>, smudges: nat) -> bool {
    summaries(grids, smudges, grids.len()) <= usize::MAX && forall|i: int|
        0 <= i < grids.len() ==> summary(#[trigger] grids[i], smudges) is Some
}

proof fn lemma_summaries_grow(grids: Seq<Seq<Seq<char>>>, smudges: nat, k: nat)
    requires
        k <= grids.len(),
    ensures
        summaries(grids, smudges, k) <= summaries(grids, smudges, grids.len()),
    decreases grids.len() - k,
{
    if k < grids.len() {
        lemma_summaries_grow(grids, smudges, k + 1);
    }
}

fn cell_of(g: &Grid<char>, by_cols: bool, line: usize, at: usize) -> (c: char)
    requires
        line < line_count(grid_cells(*g), by_cols),
        at < line_count(grid_cells(*g), !by_cols),
        is_grid(grid_cells(*g)),
    ensures
        c == line_of(grid_cells(*g), by_cols, line as int)[at as int],
{
    let found = if by_cols {
        grid_get(g, at, line)
    } else {
        grid_get(g, line, at)
    };
    proof {
        if !by_cols {
            assert(grid_cells(*g)[line as int].len() == width(grid_cells(*g)));
        }
    }
    found.unwrap()
}

/// Whether a mirror can stand after line `r`.
fn reflects_at(g: &Grid<char>, by_cols: bool, r: usize, smudges: usize) -> (found: bool)
    requires
        r + 1 < line_count(grid_cells(*g), by_cols),
        smudges < usize::MAX,
    ensures
        found == reflects(grid_cells(*g), by_cols, r as int, smudges as nat),
{
    let rows = grid_rows(g);
    let cols = grid_cols(g);
    let ghost cells = grid_cells(*g);
    let n = if by_cols {
        cols
    } else {
        rows
    };
    let len = if by_cols {
        rows
    } else {
        cols
    };
    let pairs = if r + 1 <= n - r - 1 {
        r + 1
    } else {
        n - r - 1
    };
    let mut count: usize = 0;
    let mut k: usize = 0;
    while k < pairs
        invariant
            cells == grid_cells(*g),
            is_grid(cells),
            n == line_count(cells, by_cols),
            len == line_count(cells, !by_cols),
            r + 1 < n,
            pairs == pairs_at(cells, by_cols, r as int),
            k <= pairs,
            smudges < usize::MAX,
            count <= smudges + 1,
            count <= smudges ==> count == mirror_differences(cells, by_cols, r as int, k as nat),
            count > smudges ==> mirror_differences(cells, by_cols, r as int, k as nat) > smudges,
        decreases pairs - k,
    {
        let ghost a = line_of(cells, by_cols, r - k);
        let ghost b = line_of(cells, by_cols, r + 1 + k);
        let ghost base = mirror_differences(cells, by_cols, r as int, k as nat);
        proof {
            if !by_cols {
                assert(cells[r - k].len() == width(cells));
                assert(cells[r + 1 + k].len() == width(cells));
            }
            assert(a.len() == len && b.len() == len);
        }
        let mut j: usize = 0;
        let ghost before = count;
        while j < len
            invariant
                cells == grid_cells(*g),
                is_grid(cells),
                n == line_count(cells, by_cols),
                len == line_count(cells, !by_cols),
                r + 1 + k < n,
                k <= r,
                a == line_of(cells, by_cols, r - k),
                b == line_of(cells, by_cols, r + 1 + k),
                a.len() == len,
                b.len() == len,
                j <= len,
                smudges < usize::MAX,
                count <= smudges + 1,
                before <= smudges ==> before == base,
                before > smudges ==> base > smudges,
                count <= smudges ==> count == base + differences(a, b, j as nat),
                count > smudges ==> base + differences(a, b, j as nat) > smudges,
            decreases len - j,
        {
            let x = cell_of(g, by_cols, r - k, j);
            let y = cell_of(g, by_cols, r + 1 + k, j);
            if x != y && count <= smudges {
                count = count + 1;
            }
            j = j + 1;
        }
        k = k + 1;
    }
    count == smudges
}

fn find_mirror(g: &Grid<char>, by_cols: bool, smudges: usize) -> (r: Option<usize>)
    requires
        smudges < usize::MAX,
    ensures
        match r {
            Some(at) => first_mirror(grid_cells(*g), by_cols, smudges as nat, 0) == Some(at as int)
                && at + 1 < line_count(grid_cells(*g), by_cols) && at < usize::MAX,
            None => first_mirror(grid_cells(*g), by_cols, smudges as nat, 0) is None,
        },
{
    let rows = grid_rows(g);
    let cols = grid_cols(g);
    let n = if by_cols {
        cols
    } else {
        rows
    };
    let ghost cells = grid_cells(*g);
    let mut r: usize = 0;
    while n > 0 && r < n - 1
        invariant
            cells == grid_cells(*g),
            n == line_count(cells, by_cols),
            smudges < usize::MAX,
            first_mirror(cells, by_cols, smudges as nat, 0) == first_mirror(
                cells,
                by_cols,
                smudges as nat,
                r as int,
            ),
        decreases n - r,
    {
        if reflects_at(g, by_cols, r, smudges) {
            return Some(r);
        }
        r = r + 1;
    }
    None
}

fn try_summarize(grids: &Vec<Grid<char>>, smudges: usize) -> (r: Option<usize>)
    requires
        smudges < usize::MAX,
    ensures
        match r {
            Some(sum) => summable(cells_of(grids@), smudges as nat) && sum == summaries(
                cells_of(grids@),
                smudges as nat,
                grids.len() as nat,
            ),
            None => !summable(cells_of(grids@), smudges as nat),
        },
{
    let ghost all = cells_of(grids@);
    let mut sum: usize = 0;
    let mut k: usize = 0;
    while k < grids.len()
        invariant
            k <= grids.len(),
            all == cells_of(grids@),
            smudges < usize::MAX,
            sum == summaries(all, smudges as nat, k as nat),
            forall|i: int| 0 <= i < k ==> summary(#[trigger] all[i], smudges as nat) is Some,
        decreases grids.len() - k,
    {
        proof {
            lemma_summaries_grow(all, smudges as nat, (k + 1) as nat);
        }
        let g = &grids[k];
        assert(all[k as int] == grid_cells(*g));
        let value = match find_mirror(g, false, smudges) {
            Some(r) => {
                if r + 1 > usize::MAX / 100 {
                    return None;
                }
                (r + 1) * 100
            },
            None => match find_mirror(g, true, smudges) {
                Some(c) => c + 1,
                None => {
                    return None;
                },
            },
        };
        if sum > usize::MAX - value {
            return None;
        }
        sum = sum + value;
        k = k + 1;
    }
    Some(sum)
}

fn summarize(grids: &Vec<Grid<char>>, smudges: usize) -> (sum: usize)
    requires
        smudges < usize::MAX,
        summable(cells_of(grids@), smudges as nat),
    ensures
        sum == summaries(cells_of(grids@), smudges as nat, grids.len() as nat),
{
    try_summarize(grids, smudges).unwrap()
}

/// The sum of the summaries of the patterns, if every pattern has a mirror
/// and the sum fits.
pub fn try_solve(grids: &Vec<Grid<char>>) -> (r: Option<usize>)
    ensures
        match r {
            Some(sum) => summable(cells_of(grids@), 0) && sum == summaries(
                cells_of(grids@),
                0,
                grids.len() as nat,
            ),
            None => !summable(cells_of(grids@), 0),
        },
{
    try_summarize(grids, 0)
}

/// The same for mirrors that show the pattern on one side as it is on the
/// other but for one cell.
pub fn try_solve2(grids: &Vec<Grid<char>>) -> (r: Option<usize>)
    ensures
        match r {
            Some(sum) => summable(cells_of(grids@), 1) && sum == summaries(
                cells_of(grids@),
                1,
                grids.len() as nat,
            ),
            None => !summable(cells_of(grids@), 1),
        },
{
    try_summarize(grids, 1)
}

/// The sum of the summaries of the patterns: for each, a hundred times the
/// rows above its first horizontal mirror, or else the columns left of its
/// first vertical mirror.
pub fn solve(grids: &Vec<Grid<char>>) -> (sum: usize)
    requires
        summable(cells_of(grids@), 0),
    ensures
        sum == summaries(cells_of(grids@), 0, grids.len() as nat),
{
    summarize(grids, 0)
}

/// The same sum for mirrors that show the pattern on one side as it is on
/// the other but for one cell.
pub fn solve2(grids: &Vec<Grid<char>>) -> (sum: usize)
    requires
        summable(cells_of(grids@), 1),
    ensures
        sum == summaries(cells_of(grids@), 1, grids.len() as nat),
{
    summarize(grids, 1)
}

} // verus!
