use crate::day10::graph::graph_add_edge;
use crate::day10::graph::graph_add_node;
use crate::day10::graph::graph_contains_edge;
use crate::day10::graph::graph_edges;
use crate::day10::graph::graph_new;
use crate::day10::graph::graph_nodes;
use crate::day10::graph::has_edge;
use crate::day10::graph::PipeGraph;
use crate::day10::accepts;
use crate::day10::can_end;
use crate::day10::has_opening;
use crate::day10::opens;
use crate::day10::Cell;
use crate::day10::Direction;
use crate::day10::MAX_MAZE_CHARS;
use vstd::prelude::*;

verus! {

/// Whether `b` lies one grid step from `a` in direction `d`.
pub open spec fn neighbor_at(a: Cell, b: Cell, d: Direction) -> bool {
    match d {
        Direction::North => b.row + 1 == a.row && b.col == a.col,
        Direction::South => b.row == a.row + 1 && b.col == a.col,
        Direction::West => b.row == a.row && b.col + 1 == a.col,
        Direction::East => b.row == a.row && b.col == a.col + 1,
    }
}

/// Whether the pipe of cell `a` leaves towards `d` and ends in cell `b`.
pub open spec fn links(
    cells: Seq<Cell>,
    a: int,
    b: int,
    d: Direction,
    start_fits_all: bool,
) -> bool {
    opens(cells[a].connections, d) && neighbor_at(cells[a], cells[b], d) && accepts(
        cells[b].connections,
        d,
        start_fits_all,
    )
}

/// The first cell from index `from` on that `a` links to in direction `d`.
pub open spec fn first_link(
    cells: Seq<Cell>,
    a: int,
    d: Direction,
    start_fits_all: bool,
    from: int,
) -> Option<usize>
    decreases cells.len() - from,
{
    if from < 0 || from >= cells.len() {
        None
    } else if links(cells, a, from, d, start_fits_all) {
        Some(from as usize)
    } else {
        first_link(cells, a, d, start_fits_all, from + 1)
    }
}

/// The cell that `a` connects to when it probes direction `d`, if any.
pub open spec fn probe(cells: Seq<Cell>, a: int, d: Direction, start_fits_all: bool) -> Option<
    usize,
> {
    first_link(cells, a, d, start_fits_all, 0)
}

/// The edges after `a` has probed direction `d`: the edge to the cell it
/// found is added unless the two are joined already.
pub open spec fn with_probe(
    cells: Seq<Cell>,
    edges: Seq<(usize, usize)>,
    a: int,
    d: Direction,
    start_fits_all: bool,
) -> Seq<(usize, usize)> {
    match probe(cells, a, d, start_fits_all) {
        Some(b) => if has_edge(edges, a as usize, b) {
            edges
        } else {
            edges.push((a as usize, b))
        },
        None => edges,
    }
}

/// The edges after `a` has probed north, south, west and east, in this order.
pub open spec fn with_node(
    cells: Seq<Cell>,
    edges: Seq<(usize, usize)>,
    a: int,
    start_fits_all: bool,
) -> Seq<(usize, usize)> {
    let n = with_probe(cells, edges, a, Direction::North, start_fits_all);
    let s = with_probe(cells, n, a, Direction::South, start_fits_all);
    let w = with_probe(cells, s, a, Direction::West, start_fits_all);
    with_probe(cells, w, a, Direction::East, start_fits_all)
}

/// The edges after the first `k` cells have probed their neighbours.
pub open spec fn edges_upto(cells: Seq<Cell>, k: nat, start_fits_all: bool) -> Seq<(usize, usize)>
    decreases k,
{
    if k == 0 {
        Seq::empty()
    } else {
        with_node(cells, edges_upto(cells, (k - 1) as nat, start_fits_all), k - 1, start_fits_all)
    }
}

/// The edges of the maze over these cells, in the order in which they are added.
pub open spec fn maze_edges(cells: Seq<Cell>, start_fits_all: bool) -> Seq<(usize, usize)> {
    edges_upto(cells, cells.len(), start_fits_all)
}

/// A cell that has no open end towards `d` links to nothing in that direction.
pub proof fn lemma_closed_side(
    cells: Seq<Cell>,
    a: int,
    d: Direction,
    start_fits_all: bool,
    from: int,
)
    requires
        !opens(cells[a].connections, d),
    ensures
        first_link(cells, a, d, start_fits_all, from) is None,
    decreases cells.len() - from,
{
    if 0 <= from < cells.len() {
        lemma_closed_side(cells, a, d, start_fits_all, from + 1);
    }
}

/// What a probe finds is a cell of the grid that the probing cell links to.
pub proof fn lemma_first_link_in_range(
    cells: Seq<Cell>,
    a: int,
    d: Direction,
    start_fits_all: bool,
    from: int,
)
    requires
        cells.len() <= usize::MAX,
    ensures
        match first_link(cells, a, d, start_fits_all, from) {
            Some(b) => from <= b < cells.len() && links(cells, a, b as int, d, start_fits_all),
            None => true,
        },
    decreases cells.len() - from,
{
    if 0 <= from < cells.len() && !links(cells, a, from, d, start_fits_all) {
        lemma_first_link_in_range(cells, a, d, start_fits_all, from + 1);
    }
}

/// Whether cell `b`, seen from cell `a`, lies one step away in direction `d`.
fn is_neighbor_at(a: &Cell, b: &Cell, d: Direction) -> (r: bool)
    ensures
        r == neighbor_at(*a, *b, d),
{
    match d {
        Direction::North => a.row > 0 && b.row == a.row - 1 && b.col == a.col,
        Direction::South => b.row > 0 && b.row - 1 == a.row && b.col == a.col,
        Direction::West => b.row == a.row && a.col > 0 && b.col == a.col - 1,
        Direction::East => b.row == a.row && b.col > 0 && b.col - 1 == a.col,
    }
}

/// Looks for the cell that `a` connects to in direction `d`.
pub fn find_link(cells: &Vec<Cell>, a: usize, d: Direction, start_fits_all: bool) -> (r: Option<
    usize,
>)
    requires
        a < cells.len(),
    ensures
        r == probe(cells@, a as int, d, start_fits_all),
        r is Some ==> r->0 < cells.len(),
{
    let here = cells[a];
    if !has_opening(here.connections, d) {
        proof {
            lemma_closed_side(cells@, a as int, d, start_fits_all, 0);
        }
        return None;
    }
    let n = cells.len();
    let mut b: usize = 0;
    while b < n
        invariant
            n == cells.len(),
            a < n,
            b <= n,
            here == cells[a as int],
            opens(here.connections, d),
            probe(cells@, a as int, d, start_fits_all) == first_link(
                cells@,
                a as int,
                d,
                start_fits_all,
                b as int,
            ),
        decreases n - b,
    {
        let there = cells[b];
        if is_neighbor_at(&here, &there, d) && can_end(there.connections, d, start_fits_all) {
            return Some(b);
        }
        b = b + 1;
    }
    None
}

/// Whether `starts` is an index of cells that stand row by row: it holds,
/// for every row, the place of its first cell, in ascending order, and every
/// cell stands in its own row at the place that its column says.
pub open spec fn indexes(starts: Seq<usize>, cells: Seq<Cell>) -> bool {
    &&& forall|a: int, b: int| 0 <= a <= b < starts.len() ==> #[trigger] starts[a] <= #[trigger] starts[b]
    &&& forall|b: int| 0 <= b < starts.len() ==> #[trigger] starts[b] <= cells.len()
    &&& forall|i: int|
        0 <= i < cells.len() ==> (#[trigger] cells[i]).row + 1 < starts.len() && starts[cells[i].row as int]
            <= i < starts[cells[i].row + 1] && cells[i].col == i - starts[cells[i].row as int]
}

/// Whether cell `b` comes next after cell `a` where cells stand row by
/// row: one column on in the same row, or first in a later row.
pub open spec fn follows(a: Cell, b: Cell) -> bool {
    (b.row == a.row && b.col == a.col + 1) || (b.row > a.row && b.col == 0)
}

/// Whether the cell at place `i` comes next after the one before it.
pub open spec fn follows_at(cells: Seq<Cell>, i: int) -> bool {
    follows(cells[i - 1], cells[i])
}

/// Whether cells stand row by row, in rows numbered below `most_rows`: the
/// first stands in the first column, and each of the others comes next
/// after the one before it.
pub open spec fn in_row_order(cells: Seq<Cell>, most_rows: int) -> bool {
    &&& forall|i: int| 0 <= i < cells.len() ==> (#[trigger] cells[i]).row < most_rows
    &&& cells.len() > 0 ==> cells[0].col == 0
    &&& forall|i: int| 0 < i < cells.len() ==> #[trigger] follows_at(cells, i)
}

/// The place of the first cell at or after `from` that stands in row `r` or
/// in a later row; the number of cells where there is none.
pub open spec fn row_start(cells: Seq<Cell>, r: int, from: nat) -> nat
    decreases cells.len() - from,
{
    if from >= cells.len() || cells[from as int].row >= r {
        from
    } else {
        row_start(cells, r, from + 1)
    }
}

/// The number of the last row that holds a cell; zero where there is no cell.
pub open spec fn last_row(cells: Seq<Cell>) -> int {
    if cells.len() == 0 {
        0
    } else {
        cells.last().row as int
    }
}

/// Whether the cell at place `k` stands in a row before row `r`.
pub open spec fn before_row(cells: Seq<Cell>, k: int, r: int) -> bool {
    cells[k].row < r
}

/// Whether the cells of row `r` and of the later rows start at place `s`:
/// the cells before it stand in rows before `r`, and the cell at `s`, if
/// there is one among the first `seen`, does not.
pub open spec fn starts_at(cells: Seq<Cell>, r: int, s: int, seen: int) -> bool {
    &&& 0 <= s <= seen
    &&& forall|k: int| 0 <= k < s ==> #[trigger] before_row(cells, k, r)
    &&& s < seen ==> cells[s].row >= r
}

/// Whether the cell at place `k` stands where the index says: in the
/// stretch of its row, as far from the start of the stretch as its column
/// says.
pub open spec fn placed(starts: Seq<usize>, cells: Seq<Cell>, k: int) -> bool {
    let row = cells[k].row as int;
    &&& row < starts.len()
    &&& starts[row] <= k
    &&& cells[k].col == k - starts[row]
    &&& row + 1 < starts.len() ==> k < starts[row + 1]
}

/// Whether `starts` says for each of its rows where the cells of that row
/// and of the later rows start among the first `seen` cells, and each of
/// those cells stands where the index says.
pub open spec fn indexes_first(starts: Seq<usize>, cells: Seq<Cell>, seen: int) -> bool {
    &&& forall|r: int| 0 <= r < starts.len() ==> #[trigger] starts_at(cells, r, starts[r] as int, seen)
    &&& forall|k: int| 0 <= k < seen ==> #[trigger] placed(starts, cells, k)
}

/// Where the cells of row `r` and of the later rows start at place `s`, the
/// search for their start finds `s`.
proof fn lemma_row_start(cells: Seq<Cell>, r: int, s: nat, from: nat)
    requires
        from <= s,
        starts_at(cells, r, s as int, cells.len() as int),
    ensures
        row_start(cells, r, from) == s,
    decreases s - from,
{
    if from < s {
        assert(before_row(cells, from as int, r));
        lemma_row_start(cells, r, s, from + 1);
    }
}

/// An index of all cells is in ascending order.
proof fn lemma_starts_ascend(starts: Seq<usize>, cells: Seq<Cell>, a: int, b: int)
    requires
        indexes_first(starts, cells, cells.len() as int),
        0 <= a <= b < starts.len(),
    ensures
        starts[a] <= starts[b],
{
    assert(starts_at(cells, a, starts[a] as int, cells.len() as int));
    assert(starts_at(cells, b, starts[b] as int, cells.len() as int));
    if starts[b] < starts[a] {
        assert(before_row(cells, starts[b] as int, a));
    }
}

/// An index of all cells, with a last entry for the row after the last, is
/// an index by which cells can be looked up.
proof fn lemma_index_is_whole(starts: Seq<usize>, cells: Seq<Cell>)
    requires
        indexes_first(starts, cells, cells.len() as int),
        starts.len() == last_row(cells) + 2,
    ensures
        indexes(starts, cells),
{
    assert forall|a: int, b: int| 0 <= a <= b < starts.len() implies #[trigger] starts[a]
        <= #[trigger] starts[b] by {
        lemma_starts_ascend(starts, cells, a, b);
    }
    assert forall|b: int| 0 <= b < starts.len() implies #[trigger] starts[b] <= cells.len() by {
        assert(starts_at(cells, b, starts[b] as int, cells.len() as int));
    }
    assert forall|i: int| 0 <= i < cells.len() implies (#[trigger] cells[i]).row + 1 < starts.len()
        && starts[cells[i].row as int] <= i < starts[cells[i].row + 1] && cells[i].col == i
        - starts[cells[i].row as int] by {
        assert(placed(starts, cells, i));
        assert(placed(starts, cells, cells.len() - 1));
    }
}

/// Builds an index of the cells by row, if they stand row by row and their
/// rows are numbered below `most_rows`: for every row up to the one after
/// the last that holds a cell, the place at which its cells start.
fn index_rows(cells: &Vec<Cell>, most_rows: usize) -> (r: Option<Vec<usize>>)
    ensures
        match r {
            Some(starts) => {
                &&& in_row_order(cells@, most_rows as int)
                &&& starts.len() == last_row(cells@) + 2
                &&& forall|row: int|
                    0 <= row < starts.len() ==> #[trigger] starts[row] == row_start(cells@, row, 0)
                &&& indexes(starts@, cells@)
            },
            None => !in_row_order(cells@, most_rows as int),
        },
{
    let mut starts: Vec<usize> = Vec::new();
    starts.push(0);
    let n = cells.len();
    let mut i: usize = 0;
    while i < n
        invariant
            n == cells.len(),
            i <= n,
            starts.len() >= 1,
            i == 0 ==> starts.len() == 1 && starts[0] == 0,
            i > 0 ==> starts.len() == cells[i - 1].row + 1,
            indexes_first(starts@, cells@, i as int),
            forall|k: int| 0 <= k < i ==> (#[trigger] cells[k]).row < most_rows,
            i > 0 ==> cells[0].col == 0,
            forall|k: int| 0 < k < i ==> #[trigger] follows_at(cells@, k),
        decreases n - i,
    {
        let cell = cells[i];
        if cell.row >= most_rows {
            return None;
        }
        let ghost rows_before = starts.len();
        let ghost index_before = starts@;
        proof {
            assert forall|k: int| 0 <= k < i implies (#[trigger] cells[k]).row < rows_before by {
                assert(placed(index_before, cells@, k));
            }
        }
        while starts.len() <= cell.row
            invariant
                n == cells.len(),
                i < n,
                cell == cells[i as int],
                rows_before == index_before.len(),
                rows_before >= 1,
                rows_before <= starts.len(),
                starts.len() == rows_before || starts.len() <= cell.row + 1,
                indexes_first(index_before, cells@, i as int),
                forall|r: int| 0 <= r < rows_before ==> #[trigger] starts[r] == index_before[r],
                forall|r: int| rows_before <= r < starts.len() ==> #[trigger] starts[r] == i,
                forall|k: int| 0 <= k < i ==> (#[trigger] cells[k]).row < rows_before,
            decreases cell.row + 1 - starts.len(),
        {
            starts.push(i);
        }
        proof {
            assert forall|k: int| 0 <= k < i implies #[trigger] placed(starts@, cells@, k) by {
                assert(placed(index_before, cells@, k));
            }
            assert forall|r: int| 0 <= r < starts.len() implies #[trigger] starts_at(
                cells@,
                r,
                starts[r] as int,
                i as int,
            ) by {
                if r < rows_before {
                    assert(starts_at(cells@, r, index_before[r] as int, i as int));
                } else {
                    assert forall|k: int| 0 <= k < i implies #[trigger] before_row(cells@, k, r) by {
                        assert(cells[k].row < rows_before);
                    }
                }
            }
        }
        if starts.len() != cell.row + 1 {
            proof {
                assert(i > 0);
                assert(!follows_at(cells@, i as int));
            }
            return None;
        }
        proof {
            assert(starts_at(cells@, cell.row as int, starts[cell.row as int] as int, i as int));
        }
        if cell.col != i - starts[cell.row] {
            proof {
                if i > 0 {
                    assert(placed(index_before, cells@, i - 1));
                    assert(!follows_at(cells@, i as int));
                }
            }
            return None;
        }
        proof {
            if i > 0 {
                assert(placed(index_before, cells@, i - 1));
                assert(follows_at(cells@, i as int));
            }
            assert(placed(starts@, cells@, i as int));
            assert forall|r: int| 0 <= r < starts.len() implies #[trigger] starts_at(
                cells@,
                r,
                starts[r] as int,
                i + 1,
            ) by {
                assert(starts_at(cells@, r, starts[r] as int, i as int));
            }
        }
        i = i + 1;
    }
    let ghost index_before = starts@;
    starts.push(n);
    proof {
        let rows = index_before.len() as int;
        assert forall|k: int| 0 <= k < n implies #[trigger] placed(starts@, cells@, k) by {
            assert(placed(index_before, cells@, k));
        }
        assert forall|r: int| 0 <= r < starts.len() implies #[trigger] starts_at(
            cells@,
            r,
            starts[r] as int,
            n as int,
        ) by {
            if r < rows {
                assert(starts_at(cells@, r, index_before[r] as int, n as int));
            } else {
                assert forall|k: int| 0 <= k < n implies #[trigger] before_row(cells@, k, r) by {
                    assert(placed(index_before, cells@, k));
                }
            }
        }
        lemma_index_is_whole(starts@, cells@);
        assert forall|row: int| 0 <= row < starts.len() implies #[trigger] starts[row] == row_start(
            cells@,
            row,
            0,
        ) by {
            assert(starts_at(cells@, row, starts[row] as int, n as int));
            lemma_row_start(cells@, row, starts[row] as nat, 0);
        }
    }
    Some(starts)
}

/// In cells that stand row by row, no two cells stand at one place.
proof fn lemma_one_cell_per_place(starts: Seq<usize>, cells: Seq<Cell>, i: int, j: int)
    requires
        indexes(starts, cells),
        0 <= i < cells.len(),
        0 <= j < cells.len(),
        cells[i].row == cells[j].row,
        cells[i].col == cells[j].col,
    ensures
        i == j,
{
}

/// A probe that looks at one cell only finds what a search through all
/// cells finds, where no other cell can be linked to.
proof fn lemma_only_candidate(
    cells: Seq<Cell>,
    a: int,
    d: Direction,
    start_fits_all: bool,
    candidate: Option<usize>,
    from: int,
)
    requires
        cells.len() <= usize::MAX,
        0 <= from,
        candidate is Some ==> candidate->0 < cells.len(),
        forall|b: int|
            0 <= b < cells.len() && #[trigger] links(cells, a, b, d, start_fits_all) ==> candidate
                == Some(b as usize),
    ensures
        first_link(cells, a, d, start_fits_all, from) == if candidate is Some && from
            <= candidate->0 && links(cells, a, candidate->0 as int, d, start_fits_all) {
            candidate
        } else {
            None
        },
    decreases cells.len() - from,
{
    if from < cells.len() {
        lemma_only_candidate(cells, a, d, start_fits_all, candidate, from + 1);
    }
}

/// The place in the index of the cell at a row and a column, if there is one.
fn cell_at(starts: &Vec<usize>, cells: &Vec<Cell>, row: usize, col: usize) -> (r: Option<usize>)
    requires
        indexes(starts@, cells@),
    ensures
        match r {
            Some(t) => t < cells.len() && cells[t as int].row == row && cells[t as int].col == col,
            None => forall|b: int|
                0 <= b < cells.len() ==> !((#[trigger] cells[b]).row == row && cells[b].col == col),
        },
{
    if row >= starts.len() || row + 1 >= starts.len() {
        return None;
    }
    let first = starts[row];
    let end = starts[row + 1];
    assert(first <= end);
    if col >= end - first {
        return None;
    }
    let t = first + col;
    proof {
        let q = cells[t as int].row as int;
        assert(starts[q] <= t < starts[q + 1]);
        if q < row {
            assert(starts[q + 1] <= starts[row as int]);
        }
        if q > row {
            assert(starts[row + 1] <= starts[q]);
        }
    }
    Some(t)
}

/// Looks for the cell that `a` connects to in direction `d`, with the help
/// of an index of the cells by row.
fn find_link_by_index(
    starts: &Vec<usize>,
    cells: &Vec<Cell>,
    a: usize,
    d: Direction,
    start_fits_all: bool,
) -> (r: Option<usize>)
    requires
        indexes(starts@, cells@),
        a < cells.len(),
    ensures
        r == probe(cells@, a as int, d, start_fits_all),
        r is Some ==> r->0 < cells.len(),
{
    let here = cells[a];
    if !has_opening(here.connections, d) {
        proof {
            lemma_closed_side(cells@, a as int, d, start_fits_all, 0);
        }
        return None;
    }
    let place = match d {
        Direction::North => if here.row > 0 {
            Some((here.row - 1, here.col))
        } else {
            None
        },
        Direction::South => if here.row < usize::MAX {
            Some((here.row + 1, here.col))
        } else {
            None
        },
        Direction::West => if here.col > 0 {
            Some((here.row, here.col - 1))
        } else {
            None
        },
        Direction::East => if here.col < usize::MAX {
            Some((here.row, here.col + 1))
        } else {
            None
        },
    };
    let candidate = match place {
        Some((row, col)) => cell_at(starts, cells, row, col),
        None => None,
    };
    proof {
        assert forall|b: int|
            0 <= b < cells.len() && #[trigger] links(
                cells@,
                a as int,
                b,
                d,
                start_fits_all,
            ) implies candidate == Some(b as usize) by {
            assert(neighbor_at(cells[a as int], cells[b], d));
            assert(place is Some);
            let (row, col) = place->0;
            assert(cells[b].row == row && cells[b].col == col);
            lemma_one_cell_per_place(starts@, cells@, b, candidate->0 as int);
        }
        lemma_only_candidate(cells@, a as int, d, start_fits_all, candidate, 0);
    }
    match candidate {
        Some(t) => {
            if can_end(cells[t].connections, d, start_fits_all) {
                Some(t)
            } else {
                None
            }
        },
        None => None,
    }
}

/// The weight that every edge is given; nothing reads it.
pub const EDGE_WEIGHT: usize = 1;

/// Lets cell `a` probe direction `d` and joins it to the cell it finds.
fn connect(
    g: &mut PipeGraph,
    cells: &Vec<Cell>,
    index: &Option<Vec<usize>>,
    a: usize,
    d: Direction,
    start_fits_all: bool,
)
    requires
        graph_nodes(*old(g)) == cells@,
        a < cells.len(),
        graph_edges(*old(g)).len() < u32::MAX,
        index is Some ==> indexes(index->0@, cells@),
    ensures
        graph_nodes(*final(g)) == cells@,
        graph_edges(*final(g)) == with_probe(
            cells@,
            graph_edges(*old(g)),
            a as int,
            d,
            start_fits_all,
        ),
        graph_edges(*final(g)).len() <= graph_edges(*old(g)).len() + (if opens(
            cells[a as int].connections,
            d,
        ) {
            1int
        } else {
            0int
        }),
{
    proof {
        if !opens(cells[a as int].connections, d) {
            lemma_closed_side(cells@, a as int, d, start_fits_all, 0);
        }
    }
    let found = match index {
        Some(starts) => find_link_by_index(starts, cells, a, d, start_fits_all),
        None => find_link(cells, a, d, start_fits_all),
    };
    match found {
        Some(b) => {
            if !graph_contains_edge(g, a, b) {
                graph_add_edge(g, a, b, EDGE_WEIGHT);
            }
        },
        None => {},
    }
}

/// Builds the graph of a maze: one node per cell, in the order given, and an
/// edge wherever the pipe of one cell ends in another. Cells that stand row by
/// row are found by an index; others by a search through all of them.
pub fn build_graph(cells: &Vec<Cell>, start_fits_all: bool) -> (g: PipeGraph)
    requires
        cells.len() <= MAX_MAZE_CHARS,
    ensures
        graph_nodes(g) == cells@,
        graph_edges(g) == maze_edges(cells@, start_fits_all),
{
    let n = cells.len();
    let mut g = graph_new();
    let mut k: usize = 0;
    while k < n
        invariant
            n == cells.len(),
            n <= MAX_MAZE_CHARS,
            k <= n,
            graph_nodes(g) == cells@.take(k as int),
            graph_edges(g) == Seq::<(usize, usize)>::empty(),
        decreases n - k,
    {
        graph_add_node(&mut g, cells[k]);
        assert(cells@.take(k as int).push(cells[k as int]) =~= cells@.take(k + 1));
        k = k + 1;
    }
    assert(cells@.take(n as int) =~= cells@);
    let index = index_rows(cells, n + 2);
    let mut a: usize = 0;
    while a < n
        invariant
            n == cells.len(),
            n <= MAX_MAZE_CHARS,
            a <= n,
            index is Some ==> indexes(index->0@, cells@),
            graph_nodes(g) == cells@,
            graph_edges(g) == edges_upto(cells@, a as nat, start_fits_all),
            graph_edges(g).len() <= 2 * a,
        decreases n - a,
    {
        connect(&mut g, cells, &index, a, Direction::North, start_fits_all);
        connect(&mut g, cells, &index, a, Direction::South, start_fits_all);
        connect(&mut g, cells, &index, a, Direction::West, start_fits_all);
        connect(&mut g, cells, &index, a, Direction::East, start_fits_all);
        a = a + 1;
    }
    g
}

} // verus!
