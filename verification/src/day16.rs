use crate::text::chars_of;
use crate::text::lines;
use crate::text::lines_spec;
use crate::text::views;
use vstd::prelude::*;

verus! {

/// What stands in a cell of the contraption.
#[derive(Clone, Copy, Debug, PartialEq, Eq, Structural)]
pub enum CellType {
    Empty,
    ForwardSlash,
    BackwardSlash,
    Dash,
    VerticalBar,
}

/// The direction in which a beam travels.
#[derive(Clone, Copy, Debug, PartialEq, Eq, Structural)]
pub enum Direction {
    Up,
    Down,
    Left,
    Right,
}

/// A cell, and whether a beam has passed through it.
#[derive(Clone, Copy, Debug, PartialEq, Eq, Structural)]
pub struct Cell {
    pub cell_type: CellType,
    pub energized: bool,
}

/// The contraption: its cells, row by row.
#[derive(Debug)]
pub struct Maze {
    pub rows: usize,
    pub cols: usize,
    pub cells: Vec<Vec<Cell>>,
}

/// A cell that a beam has entered, with the direction of the beam.
#[derive(Clone, Copy, Debug, PartialEq, Eq, Structural)]
pub struct VisitedCell {
    pub row: usize,
    pub col: usize,
    pub direction: Direction,
}

/// The head of a beam.
#[derive(Clone, Copy, Debug, PartialEq, Eq, Structural)]
pub struct Beam {
    pub row: usize,
    pub col: usize,
    pub direction: Direction,
}

/// What a character of the map stands for.
pub open spec fn cell_type_of(c: char) -> Option<CellType> {
    if c == '.' {
        Some(CellType::Empty)
    } else if c == '/' {
        Some(CellType::ForwardSlash)
    } else if c == '\\' {
        Some(CellType::BackwardSlash)
    } else if c == '-' {
        Some(CellType::Dash)
    } else if c == '|' {
        Some(CellType::VerticalBar)
    } else {
        None
    }
}

fn read_cell_type(c: char) -> (r: Option<CellType>)
    ensures
        r == cell_type_of(c),
{
    if c == '.' {
        Some(CellType::Empty)
    } else if c == '/' {
        Some(CellType::ForwardSlash)
    } else if c == '\\' {
        Some(CellType::BackwardSlash)
    } else if c == '-' {
        Some(CellType::Dash)
    } else if c == '|' {
        Some(CellType::VerticalBar)
    } else {
        None
    }
}

/// Whether a text is a map of a contraption: at least one line, and no
/// character that stands for nothing.
pub open spec fn is_map(lines: Seq<Seq<char>>) -> bool {
    lines.len() > 0 && forall|i: int, j: int|
        0 <= i < lines.len() && 0 <= j < lines[i].len() ==> cell_type_of(
            #[trigger] lines[i][j],
        ) is Some
}

/// The cells that a line of the map shows, none of them energized.
pub open spec fn row_cells(line: Seq<char>) -> Seq<Cell> {
    Seq::new(line.len(), |j: int| Cell { cell_type: cell_type_of(line[j])->0, energized: false })
}

impl Maze {
    /// The cells as a value, row by row.
    pub open spec fn view(&self) -> Seq<Seq<Cell>> {
        Seq::new(self.cells.len() as nat, |i: int| self.cells[i]@)
    }
}

/// Reads the map of a contraption: a row of cells for every line, as many
/// rows as there are lines and as many columns as the first line is long.
pub fn parse(input: &str) -> (maze: Maze)
    requires
        is_map(lines_spec(input@)),
    ensures
        maze.rows == lines_spec(input@).len(),
        maze.cols == lines_spec(input@)[0].len(),
        maze@.len() == maze.rows,
        forall|i: int| 0 <= i < maze.rows ==> #[trigger] maze@[i] == row_cells(lines_spec(input@)[i]),
{
    let text = chars_of(input);
    let grid = lines(&text);
    let ghost all = views(grid@);
    assert(all[0] == grid[0]@);
    let rows = grid.len();
    let cols = grid[0].len();
    let mut cells: Vec<Vec<Cell>> = Vec::new();
    let mut i: usize = 0;
    while i < rows
        invariant
            rows == grid.len(),
            all == views(grid@),
            is_map(all),
            i <= rows,
            cells.len() == i,
            forall|k: int| 0 <= k < i ==> (#[trigger] cells[k])@ == row_cells(all[k]),
        decreases rows - i,
    {
        let line = &grid[i];
        assert(line@ == all[i as int]);
        let m = line.len();
        let mut row: Vec<Cell> = Vec::new();
        let mut j: usize = 0;
        while j < m
            invariant
                m == line.len(),
                j <= m,
                i < rows,
                rows == grid.len(),
                all == views(grid@),
                line@ == all[i as int],
                is_map(all),
                row@ == row_cells(line@).take(j as int),
            decreases m - j,
        {
            assert(cell_type_of(all[i as int][j as int]) is Some);
            let cell_type = read_cell_type(line[j]).unwrap();
            row.push(Cell { cell_type, energized: false });
            assert(row@ =~= row_cells(line@).take(j + 1));
            j = j + 1;
        }
        assert(row_cells(line@).take(m as int) =~= row_cells(line@));
        cells.push(row);
        i = i + 1;
    }
    let maze = Maze { rows, cols, cells };
    assert forall|i: int| 0 <= i < maze.rows implies #[trigger] maze@[i] == row_cells(
        lines_spec(input@)[i],
    ) by {
        assert(maze@[i] == maze.cells[i]@);
    }
    maze
}

/// What a beam does in a cell: it leaves the contraption, or it goes on,
/// and a second beam may start beside it.
#[derive(Clone, Copy, Debug, PartialEq, Eq, Structural)]
pub enum Move {
    Exit,
    Go(Beam, Option<Beam>),
}

/// The beam one cell further in direction `d`, if the contraption has that cell.
pub open spec fn ahead(b: Beam, d: Direction, rows: usize, cols: usize) -> Option<Beam> {
    match d {
        Direction::Up => if b.row > 0 {
            Some(Beam { row: (b.row - 1) as usize, col: b.col, direction: d })
        } else {
            None
        },
        Direction::Down => if b.row < rows - 1 {
            Some(Beam { row: (b.row + 1) as usize, col: b.col, direction: d })
        } else {
            None
        },
        Direction::Left => if b.col > 0 {
            Some(Beam { row: b.row, col: (b.col - 1) as usize, direction: d })
        } else {
            None
        },
        Direction::Right => if b.col < cols - 1 {
            Some(Beam { row: b.row, col: (b.col + 1) as usize, direction: d })
        } else {
            None
        },
    }
}

/// A beam that turns to `d`: it leaves the contraption where there is no
/// cell on that side.
pub open spec fn turn(b: Beam, d: Direction, rows: usize, cols: usize) -> Move {
    match ahead(b, d, rows, cols) {
        Some(next) => Move::Go(next, None),
        None => Move::Exit,
    }
}

/// A beam that is split towards `first` and `second`: each half stays where
/// it is, facing the way it faced, where there is no cell on its side.
pub open spec fn split(b: Beam, first: Direction, second: Direction, rows: usize, cols: usize) -> Move {
    Move::Go(
        match ahead(b, first, rows, cols) {
            Some(next) => next,
            None => b,
        },
        Some(
            match ahead(b, second, rows, cols) {
                Some(next) => next,
                None => b,
            },
        ),
    )
}

/// What a beam does in a cell of the given kind.
pub open spec fn move_of(kind: CellType, b: Beam, rows: usize, cols: usize) -> Move {
    match kind {
        CellType::Empty => turn(b, b.direction, rows, cols),
        CellType::ForwardSlash => turn(
            b,
            match b.direction {
                Direction::Up => Direction::Right,
                Direction::Down => Direction::Left,
                Direction::Left => Direction::Down,
                Direction::Right => Direction::Up,
            },
            rows,
            cols,
        ),
        CellType::BackwardSlash => turn(
            b,
            match b.direction {
                Direction::Up => Direction::Left,
                Direction::Down => Direction::Right,
                Direction::Left => Direction::Up,
                Direction::Right => Direction::Down,
            },
            rows,
            cols,
        ),
        CellType::Dash => match b.direction {
            Direction::Up | Direction::Down => split(
                b,
                Direction::Left,
                Direction::Right,
                rows,
                cols,
            ),
            _ => turn(b, b.direction, rows, cols),
        },
        CellType::VerticalBar => match b.direction {
            Direction::Left | Direction::Right => split(
                b,
                Direction::Up,
                Direction::Down,
                rows,
                cols,
            ),
            _ => turn(b, b.direction, rows, cols),
        },
    }
}

fn go_ahead(b: Beam, d: Direction, rows: usize, cols: usize) -> (r: Option<Beam>)
    requires
        b.row < rows,
        b.col < cols,
    ensures
        r == ahead(b, d, rows, cols),
        r is Some ==> r->0.row < rows && r->0.col < cols,
{
    match d {
        Direction::Up => if b.row > 0 {
            Some(Beam { row: b.row - 1, col: b.col, direction: d })
        } else {
            None
        },
        Direction::Down => if b.row < rows - 1 {
            Some(Beam { row: b.row + 1, col: b.col, direction: d })
        } else {
            None
        },
        Direction::Left => if b.col > 0 {
            Some(Beam { row: b.row, col: b.col - 1, direction: d })
        } else {
            None
        },
        Direction::Right => if b.col < cols - 1 {
            Some(Beam { row: b.row, col: b.col + 1, direction: d })
        } else {
            None
        },
    }
}

fn go_turn(b: Beam, d: Direction, rows: usize, cols: usize) -> (r: Move)
    requires
        b.row < rows,
        b.col < cols,
    ensures
        r == turn(b, d, rows, cols),
        within(r, rows, cols),
{
    match go_ahead(b, d, rows, cols) {
        Some(next) => Move::Go(next, None),
        None => Move::Exit,
    }
}

fn go_split(b: Beam, first: Direction, second: Direction, rows: usize, cols: usize) -> (r: Move)
    requires
        b.row < rows,
        b.col < cols,
    ensures
        r == split(b, first, second, rows, cols),
        within(r, rows, cols),
{
    let one = match go_ahead(b, first, rows, cols) {
        Some(next) => next,
        None => b,
    };
    let other = match go_ahead(b, second, rows, cols) {
        Some(next) => next,
        None => b,
    };
    Move::Go(one, Some(other))
}

/// Whether the beams of a move stand in the contraption.
pub open spec fn within(m: Move, rows: usize, cols: usize) -> bool {
    match m {
        Move::Exit => true,
        Move::Go(next, other) => next.row < rows && next.col < cols && match other {
            Some(b) => b.row < rows && b.col < cols,
            None => true,
        },
    }
}

/// What a beam does in a cell of the given kind.
pub fn make_move(kind: CellType, b: Beam, rows: usize, cols: usize) -> (r: Move)
    requires
        b.row < rows,
        b.col < cols,
    ensures
        r == move_of(kind, b, rows, cols),
        within(r, rows, cols),
{
    match kind {
        CellType::Empty => go_turn(b, b.direction, rows, cols),
        CellType::ForwardSlash => {
            let d = match b.direction {
                Direction::Up => Direction::Right,
                Direction::Down => Direction::Left,
                Direction::Left => Direction::Down,
                Direction::Right => Direction::Up,
            };
            go_turn(b, d, rows, cols)
        },
        CellType::BackwardSlash => {
            let d = match b.direction {
                Direction::Up => Direction::Left,
                Direction::Down => Direction::Right,
                Direction::Left => Direction::Up,
                Direction::Right => Direction::Down,
            };
            go_turn(b, d, rows, cols)
        },
        CellType::Dash => match b.direction {
            Direction::Up | Direction::Down => go_split(
                b,
                Direction::Left,
                Direction::Right,
                rows,
                cols,
            ),
            _ => go_turn(b, b.direction, rows, cols),
        },
        CellType::VerticalBar => match b.direction {
            Direction::Left | Direction::Right => go_split(
                b,
                Direction::Up,
                Direction::Down,
                rows,
                cols,
            ),
            _ => go_turn(b, b.direction, rows, cols),
        },
    }
}

/// The state of a beam as an entry of the list of visited cells.
pub open spec fn state_of(b: Beam) -> VisitedCell {
    VisitedCell { row: b.row, col: b.col, direction: b.direction }
}

/// The kinds of the cells of a contraption.
pub open spec fn kinds(cells: Seq<Seq<Cell>>) -> Seq<Seq<CellType>> {
    Seq::new(cells.len(), |i: int| Seq::new(cells[i].len(), |j: int| cells[i][j].cell_type))
}

/// The visited cells, and where the beam stands in the end, after a beam
/// has been followed from `b`: a beam ends where it comes to a cell that it
/// has visited in the same direction, or leaves the contraption; where a
/// beam is split the second half is followed first. No beam is followed
/// through more than `fuel` cells.
pub open spec fn trace(
    kinds: Seq<Seq<CellType>>,
    rows: usize,
    cols: usize,
    b: Beam,
    visited: Seq<VisitedCell>,
    fuel: nat,
) -> (Seq<VisitedCell>, Beam)
    decreases fuel,
{
    if fuel == 0 || visited.contains(state_of(b)) {
        (visited, b)
    } else {
        let seen = visited.push(state_of(b));
        match move_of(kinds[b.row as int][b.col as int], b, rows, cols) {
            Move::Exit => (seen, b),
            Move::Go(next, None) => trace(kinds, rows, cols, next, seen, (fuel - 1) as nat),
            Move::Go(next, Some(other)) => trace(
                kinds,
                rows,
                cols,
                next,
                trace(kinds, rows, cols, other, seen, (fuel - 1) as nat).0,
                (fuel - 1) as nat,
            ),
        }
    }
}

/// The cells with those of the visited entries from index `lo` up to, not
/// including, index `hi` energized.
pub open spec fn lit(cells: Seq<Seq<Cell>>, visited: Seq<VisitedCell>, lo: int, hi: int) -> Seq<
    Seq<Cell>,
>
    decreases hi - lo,
{
    if hi <= lo || hi > visited.len() || lo < 0 {
        cells
    } else {
        let before = lit(cells, visited, lo, hi - 1);
        let at = visited[hi - 1];
        before.update(
            at.row as int,
            before[at.row as int].update(
                at.col as int,
                Cell { cell_type: before[at.row as int][at.col as int].cell_type, energized: true },
            ),
        )
    }
}

impl Maze {
    /// Whether the contraption has a cell for every row and column.
    pub open spec fn wf(&self) -> bool {
        self.cells.len() == self.rows && forall|i: int|
            0 <= i < self.cells.len() ==> (#[trigger] self.cells[i]).len() == self.cols
    }
}

/// Whether the cells are those of a contraption of the given size.
pub open spec fn shaped(cells: Seq<Seq<Cell>>, rows: usize, cols: usize) -> bool {
    cells.len() == rows && forall|i: int| 0 <= i < cells.len() ==> (#[trigger] cells[i]).len() == cols
}

/// Whether the entries from index `from` on are cells of the contraption.
pub open spec fn within_from(visited: Seq<VisitedCell>, from: int, rows: usize, cols: usize) -> bool {
    forall|i: int|
        from <= i < visited.len() && 0 <= i ==> (#[trigger] visited[i]).row < rows && visited[i].col
            < cols
}

proof fn lemma_lit_shape(
    cells: Seq<Seq<Cell>>,
    visited: Seq<VisitedCell>,
    lo: int,
    hi: int,
    rows: usize,
    cols: usize,
)
    requires
        shaped(cells, rows, cols),
        within_from(visited, lo, rows, cols),
    ensures
        shaped(lit(cells, visited, lo, hi), rows, cols),
        kinds(lit(cells, visited, lo, hi)) == kinds(cells),
    decreases hi - lo,
{
    if !(hi <= lo || hi > visited.len() || lo < 0) {
        lemma_lit_shape(cells, visited, lo, hi - 1, rows, cols);
        let before = lit(cells, visited, lo, hi - 1);
        let after = lit(cells, visited, lo, hi);
        let at = visited[hi - 1];
        assert forall|i: int| 0 <= i < after.len() implies (#[trigger] after[i]).len() == cols by {
            assert(before[i].len() == cols);
        }
        assert(kinds(after) =~= kinds(before)) by {
            assert forall|i: int| 0 <= i < after.len() implies #[trigger] kinds(after)[i] =~= kinds(
                before,
            )[i] by {
                assert(before[i].len() == cols);
            }
        }
    }
}

proof fn lemma_lit_prefix(
    cells: Seq<Seq<Cell>>,
    a: Seq<VisitedCell>,
    b: Seq<VisitedCell>,
    lo: int,
    hi: int,
)
    requires
        hi <= a.len() <= b.len(),
        b.take(a.len() as int) == a,
    ensures
        lit(cells, a, lo, hi) == lit(cells, b, lo, hi),
    decreases hi - lo,
{
    if !(hi <= lo || lo < 0) {
        lemma_lit_prefix(cells, a, b, lo, hi - 1);
        assert(a[hi - 1] == b.take(a.len() as int)[hi - 1]);
    }
}

proof fn lemma_lit_join(cells: Seq<Seq<Cell>>, visited: Seq<VisitedCell>, lo: int, mid: int, hi: int)
    requires
        0 <= lo <= mid <= hi <= visited.len(),
    ensures
        lit(lit(cells, visited, lo, mid), visited, mid, hi) == lit(cells, visited, lo, hi),
    decreases hi - mid,
{
    if hi > mid {
        lemma_lit_join(cells, visited, lo, mid, hi - 1);
    }
}

/// Whether one of the visited entries from index `lo` up to, not including,
/// index `hi` is the cell in row `r` and column `c`.
pub open spec fn touched(visited: Seq<VisitedCell>, lo: int, hi: int, r: int, c: int) -> bool {
    exists|k: int|
        lo <= k < hi && 0 <= k < visited.len() && (#[trigger] visited[k]).row == r && visited[k].col
            == c
}

/// Energizing the cells of visited entries changes no cell's kind, and a
/// cell is energized afterwards if and only if it was before or is the cell
/// of one of those entries.
pub proof fn lemma_lit_cells(
    cells: Seq<Seq<Cell>>,
    visited: Seq<VisitedCell>,
    lo: int,
    hi: int,
    rows: usize,
    cols: usize,
)
    requires
        shaped(cells, rows, cols),
        within_from(visited, lo, rows, cols),
        0 <= lo <= hi <= visited.len(),
    ensures
        shaped(lit(cells, visited, lo, hi), rows, cols),
        forall|r: int, c: int|
            0 <= r < rows && 0 <= c < cols ==> (#[trigger] lit(cells, visited, lo, hi)[r][c]).cell_type
                == cells[r][c].cell_type,
        forall|r: int, c: int|
            0 <= r < rows && 0 <= c < cols ==> (#[trigger] lit(cells, visited, lo, hi)[r][c]).energized
                == (cells[r][c].energized || touched(visited, lo, hi, r, c)),
    decreases hi - lo,
{
    lemma_lit_shape(cells, visited, lo, hi, rows, cols);
    if hi > lo {
        lemma_lit_cells(cells, visited, lo, hi - 1, rows, cols);
        lemma_lit_shape(cells, visited, lo, hi - 1, rows, cols);
        let before = lit(cells, visited, lo, hi - 1);
        let after = lit(cells, visited, lo, hi);
        let at = visited[hi - 1];
        assert forall|r: int, c: int| 0 <= r < rows && 0 <= c < cols implies (#[trigger] after[r][c]).cell_type
            == cells[r][c].cell_type && after[r][c].energized == (cells[r][c].energized || touched(
            visited,
            lo,
            hi,
            r,
            c,
        )) by {
            assert(before[r].len() == cols);
            assert(before[r][c].cell_type == cells[r][c].cell_type);
            assert(before[r][c].energized == (cells[r][c].energized || touched(
                visited,
                lo,
                hi - 1,
                r,
                c,
            )));
            if at.row == r && at.col == c {
                assert(touched(visited, lo, hi, r, c));
            } else {
                assert(after[r][c] == before[r][c]);
                assert(touched(visited, lo, hi, r, c) == touched(visited, lo, hi - 1, r, c));
            }
        }
    }
}

fn was_visited(visited: &Vec<VisitedCell>, b: &Beam) -> (r: bool)
    ensures
        r == visited@.contains(state_of(*b)),
{
    let mut i: usize = 0;
    while i < visited.len()
        invariant
            i <= visited.len(),
            forall|j: int| 0 <= j < i ==> visited[j] != state_of(*b),
        decreases visited.len() - i,
    {
        let vc = visited[i];
        if vc.row == b.row && vc.col == b.col && vc.direction == b.direction {
            return true;
        }
        i = i + 1;
    }
    false
}

/// Follows a beam through at most `fuel` cells, energizing the cells that
/// it visits.
pub fn follow(beam: &mut Beam, maze: &mut Maze, visited_cells: &mut Vec<VisitedCell>, fuel: usize)
    requires
        old(maze).wf(),
        old(beam).row < old(maze).rows,
        old(beam).col < old(maze).cols,
    ensures
        final(maze).wf(),
        final(maze).rows == old(maze).rows,
        final(maze).cols == old(maze).cols,
        (final(visited_cells)@, *final(beam)) == trace(
            kinds(old(maze)@),
            old(maze).rows,
            old(maze).cols,
            *old(beam),
            old(visited_cells)@,
            fuel as nat,
        ),
        final(visited_cells)@.len() >= old(visited_cells)@.len(),
        final(visited_cells)@.take(old(visited_cells)@.len() as int) == old(visited_cells)@,
        within_from(
            final(visited_cells)@,
            old(visited_cells)@.len() as int,
            old(maze).rows,
            old(maze).cols,
        ),
        old(visited_cells)@.no_duplicates() ==> final(visited_cells)@.no_duplicates(),
        final(maze)@ == lit(
            old(maze)@,
            final(visited_cells)@,
            old(visited_cells)@.len() as int,
            final(visited_cells)@.len() as int,
        ),
    decreases fuel,
{
    let ghost start_cells = maze@;
    let ghost start_visited = visited_cells@;
    let ghost types = kinds(maze@);
    let rows = maze.rows;
    let cols = maze.cols;
    let ghost whole = trace(types, rows, cols, *beam, visited_cells@, fuel as nat);
    let mut left = fuel;
    assert(visited_cells@.take(visited_cells@.len() as int) =~= visited_cells@);
    loop
        invariant
            maze.wf(),
            maze.rows == rows,
            maze.cols == cols,
            beam.row < rows,
            beam.col < cols,
            shaped(start_cells, rows, cols),
            types == kinds(start_cells),
            kinds(maze@) == types,
            left <= fuel,
            whole == trace(types, rows, cols, *beam, visited_cells@, left as nat),
            visited_cells@.len() >= start_visited.len(),
            visited_cells@.take(start_visited.len() as int) == start_visited,
            within_from(visited_cells@, start_visited.len() as int, rows, cols),
            start_visited.no_duplicates() ==> visited_cells@.no_duplicates(),
            maze@ == lit(
                start_cells,
                visited_cells@,
                start_visited.len() as int,
                visited_cells@.len() as int,
            ),
        ensures
            maze.wf(),
            maze.rows == rows,
            maze.cols == cols,
            whole == (visited_cells@, *beam),
            visited_cells@.len() >= start_visited.len(),
            visited_cells@.take(start_visited.len() as int) == start_visited,
            within_from(visited_cells@, start_visited.len() as int, rows, cols),
            start_visited.no_duplicates() ==> visited_cells@.no_duplicates(),
            maze@ == lit(
                start_cells,
                visited_cells@,
                start_visited.len() as int,
                visited_cells@.len() as int,
            ),
        decreases left,
    {
        if left == 0 || was_visited(visited_cells, beam) {
            break ;
        }
        let ghost before_cells = maze@;
        let ghost before_visited = visited_cells@;
        let row = beam.row;
        let col = beam.col;
        assert(maze.cells[row as int].len() == cols);
        maze.cells[row][col].energized = true;
        visited_cells.push(VisitedCell { row, col, direction: beam.direction });
        let kind = maze.cells[row][col].cell_type;
        proof {
            let seen = visited_cells@;
            assert(seen.take(start_visited.len() as int) =~= start_visited);
            assert(seen.take(before_visited.len() as int) =~= before_visited);
            lemma_lit_prefix(
                start_cells,
                before_visited,
                seen,
                start_visited.len() as int,
                before_visited.len() as int,
            );
            let expected = lit(start_cells, seen, start_visited.len() as int, seen.len() as int);
            assert(before_cells[row as int].len() == cols);
            assert(maze@ =~= expected) by {
                assert forall|i: int| 0 <= i < maze@.len() implies #[trigger] maze@[i]
                    =~= expected[i] by {
                    assert(maze@[i] == maze.cells[i]@);
                }
            }
            lemma_lit_shape(
                start_cells,
                seen,
                start_visited.len() as int,
                seen.len() as int,
                rows,
                cols,
            );
            assert(kind == types[row as int][col as int]);
        }
        match make_move(kind, *beam, rows, cols) {
            Move::Exit => {
                break ;
            },
            Move::Go(next, None) => {
                *beam = next;
            },
            Move::Go(next, Some(other)) => {
                let mut second = other;
                let ghost mid_visited = visited_cells@;
                follow(&mut second, maze, visited_cells, left - 1);
                proof {
                    let seen = visited_cells@;
                    assert(seen.take(start_visited.len() as int) =~= start_visited) by {
                        assert(seen.take(mid_visited.len() as int) == mid_visited);
                        assert forall|i: int| 0 <= i < start_visited.len() implies seen[i]
                            == start_visited[i] by {
                            assert(seen[i] == seen.take(mid_visited.len() as int)[i]);
                            assert(mid_visited[i] == mid_visited.take(
                                start_visited.len() as int,
                            )[i]);
                        }
                    }
                    assert forall|i: int| start_visited.len() <= i < seen.len() implies (
                    #[trigger] seen[i]).row < rows && seen[i].col < cols by {
                        if i < mid_visited.len() {
                            assert(seen[i] == seen.take(mid_visited.len() as int)[i]);
                        }
                    }
                    lemma_lit_prefix(
                        start_cells,
                        mid_visited,
                        seen,
                        start_visited.len() as int,
                        mid_visited.len() as int,
                    );
                    lemma_lit_join(
                        start_cells,
                        seen,
                        start_visited.len() as int,
                        mid_visited.len() as int,
                        seen.len() as int,
                    );
                    lemma_lit_shape(
                        start_cells,
                        seen,
                        start_visited.len() as int,
                        seen.len() as int,
                        rows,
                        cols,
                    );
                }
                *beam = next;
            },
        }
        left = left - 1;
    }
}

/// The number of cells that a beam is followed through at most: a beam
/// that has passed through that many has been in some cell twice in the
/// same direction.
pub open spec fn reach(rows: usize, cols: usize) -> nat {
    (4 * rows * cols) as nat
}

/// Follows a beam through the contraption, energizing the cells that it
/// and the beams that split off from it visit.
pub fn recurse(beam: &mut Beam, maze: &mut Maze, visited_cells: &mut Vec<VisitedCell>)
    requires
        old(maze).wf(),
        old(beam).row < old(maze).rows,
        old(beam).col < old(maze).cols,
        reach(old(maze).rows, old(maze).cols) <= usize::MAX,
    ensures
        final(maze).wf(),
        final(maze).rows == old(maze).rows,
        final(maze).cols == old(maze).cols,
        (final(visited_cells)@, *final(beam)) == trace(
            kinds(old(maze)@),
            old(maze).rows,
            old(maze).cols,
            *old(beam),
            old(visited_cells)@,
            reach(old(maze).rows, old(maze).cols),
        ),
        final(maze)@ == lit(
            old(maze)@,
            final(visited_cells)@,
            old(visited_cells)@.len() as int,
            final(visited_cells)@.len() as int,
        ),
        final(visited_cells)@.len() >= old(visited_cells)@.len(),
        final(visited_cells)@.take(old(visited_cells)@.len() as int) == old(visited_cells)@,
        old(visited_cells)@.no_duplicates() ==> final(visited_cells)@.no_duplicates(),
        old(visited_cells)@.contains(state_of(*old(beam))) ==> final(visited_cells)@ == old(visited_cells)@
            && *final(beam) == *old(beam) && final(maze)@ == old(maze)@,
        forall|r: int, c: int|
            0 <= r < old(maze).rows && 0 <= c < old(maze).cols ==> (#[trigger] final(maze)@[r][c]).cell_type == old(maze)@[r][c].cell_type,
        forall|r: int, c: int|
            0 <= r < old(maze).rows && 0 <= c < old(maze).cols ==> (#[trigger] final(maze)@[r][c]).energized == (old(maze)@[r][c].energized || touched(
                final(visited_cells)@,
                old(visited_cells)@.len() as int,
                final(visited_cells)@.len() as int,
                r,
                c,
            )),
{
    assert(4 * maze.rows * maze.cols >= 4 * maze.rows) by (nonlinear_arith)
        requires
            maze.cols >= 1,
    ;
    let fuel = 4 * maze.rows * maze.cols;
    let ghost cells = maze@;
    let ghost listed = visited_cells@;
    assert(shaped(cells, maze.rows, maze.cols)) by {
        assert forall|i: int| 0 <= i < cells.len() implies (#[trigger] cells[i]).len()
            == maze.cols by {
            assert(cells[i] == maze.cells[i]@);
        }
    }
    follow(beam, maze, visited_cells, fuel);
    proof {
        lemma_lit_cells(
            cells,
            visited_cells@,
            listed.len() as int,
            visited_cells@.len() as int,
            maze.rows,
            maze.cols,
        );
    }
}

/// The number of energized cells among the first `k` of a row.
pub open spec fn lit_in_row(row: Seq<Cell>, k: nat) -> nat
    decreases k,
{
    if k == 0 || k > row.len() {
        0
    } else {
        lit_in_row(row, (k - 1) as nat) + if row[k - 1].energized {
            1nat
        } else {
            0nat
        }
    }
}

/// The number of energized cells in the first `k` rows.
pub open spec fn lit_count(cells: Seq<Seq<Cell>>, k: nat) -> nat
    decreases k,
{
    if k == 0 || k > cells.len() {
        0
    } else {
        lit_count(cells, (k - 1) as nat) + lit_in_row(cells[k - 1], cells[k - 1].len())
    }
}

proof fn lemma_lit_in_row_bound(row: Seq<Cell>, k: nat)
    requires
        k <= row.len(),
    ensures
        lit_in_row(row, k) <= k,
    decreases k,
{
    if k > 0 {
        lemma_lit_in_row_bound(row, (k - 1) as nat);
    }
}

proof fn lemma_lit_count_bound(cells: Seq<Seq<Cell>>, k: nat, rows: usize, cols: usize)
    requires
        shaped(cells, rows, cols),
        k <= rows,
    ensures
        lit_count(cells, k) <= k * cols,
        k * cols <= rows * cols,
    decreases k,
{
    if k > 0 {
        lemma_lit_count_bound(cells, (k - 1) as nat, rows, cols);
        lemma_lit_in_row_bound(cells[k - 1], cells[k - 1].len());
        assert(k * cols == (k - 1) * cols + cols) by (nonlinear_arith);
    }
    assert(k * cols <= rows * cols) by (nonlinear_arith)
        requires
            k <= rows,
    ;
}

fn count_energized(maze: &Maze) -> (n: usize)
    requires
        maze.wf(),
        reach(maze.rows, maze.cols) <= usize::MAX,
    ensures
        n == lit_count(maze@, maze.rows as nat),
{
    let mut n: usize = 0;
    let mut i: usize = 0;
    let ghost cells = maze@;
    assert(4 * maze.rows * maze.cols == 4 * (maze.rows * maze.cols)) by (nonlinear_arith);
    while i < maze.rows
        invariant
            maze.wf(),
            cells == maze@,
            i <= maze.rows,
            4 * (maze.rows * maze.cols) <= usize::MAX,
            n == lit_count(cells, i as nat),
        decreases maze.rows - i,
    {
        let row = &maze.cells[i];
        assert(cells[i as int] == row@);
        let mut count: usize = 0;
        let mut j: usize = 0;
        while j < row.len()
            invariant
                j <= row.len(),
                count == lit_in_row(row@, j as nat),
                count <= j,
            decreases row.len() - j,
        {
            if row[j].energized {
                count = count + 1;
            }
            j = j + 1;
        }
        proof {
            lemma_lit_count_bound(cells, (i + 1) as nat, maze.rows, maze.cols);
        }
        n = n + count;
        i = i + 1;
    }
    n
}

/// The cells after a beam that starts at `b` has been followed through them.
pub open spec fn energized_by(cells: Seq<Seq<Cell>>, rows: usize, cols: usize, b: Beam) -> Seq<
    Seq<Cell>,
> {
    let visited = trace(kinds(cells), rows, cols, b, Seq::empty(), reach(rows, cols)).0;
    lit(cells, visited, 0, visited.len() as int)
}

/// The number of cells that are energized once the beam has been followed.
pub fn solve(maze: &mut Maze, beam: &mut Beam) -> (n: usize)
    requires
        old(maze).wf(),
        old(beam).row < old(maze).rows,
        old(beam).col < old(maze).cols,
        reach(old(maze).rows, old(maze).cols) <= usize::MAX,
    ensures
        final(maze).wf(),
        final(maze).rows == old(maze).rows,
        final(maze).cols == old(maze).cols,
        final(maze)@ == energized_by(old(maze)@, old(maze).rows, old(maze).cols, *old(beam)),
        n == lit_count(final(maze)@, old(maze).rows as nat),
{
    let mut visited: Vec<VisitedCell> = Vec::new();
    assert(visited@ =~= Seq::<VisitedCell>::empty());
    recurse(beam, maze, &mut visited);
    count_energized(maze)
}

fn copy_of(maze: &Maze) -> (copy: Maze)
    requires
        maze.wf(),
    ensures
        copy.wf(),
        copy.rows == maze.rows,
        copy.cols == maze.cols,
        copy@ == maze@,
{
    let mut cells: Vec<Vec<Cell>> = Vec::new();
    let mut i: usize = 0;
    while i < maze.cells.len()
        invariant
            maze.wf(),
            i <= maze.cells.len(),
            cells.len() == i,
            forall|k: int| 0 <= k < i ==> (#[trigger] cells[k])@ == maze.cells[k]@,
        decreases maze.cells.len() - i,
    {
        let row = &maze.cells[i];
        let mut copy: Vec<Cell> = Vec::new();
        let mut j: usize = 0;
        while j < row.len()
            invariant
                j <= row.len(),
                copy@ == row@.take(j as int),
            decreases row.len() - j,
        {
            copy.push(row[j]);
            assert(copy@ =~= row@.take(j + 1));
            j = j + 1;
        }
        assert(row@.take(row.len() as int) =~= row@);
        cells.push(copy);
        i = i + 1;
    }
    let copy = Maze { rows: maze.rows, cols: maze.cols, cells };
    assert(copy@ =~= maze@);
    copy
}

/// The number of cells that a beam from `b` energizes.
pub open spec fn energy(cells: Seq<Seq<Cell>>, rows: usize, cols: usize, b: Beam) -> nat {
    lit_count(energized_by(cells, rows, cols, b), rows as nat)
}

/// The larger of two numbers.
pub open spec fn larger(a: nat, b: nat) -> nat {
    if b > a {
        b
    } else {
        a
    }
}

/// The most cells that a beam energizes which enters one of the first `k`
/// rows from the left or from the right.
pub open spec fn best_by_row(cells: Seq<Seq<Cell>>, rows: usize, cols: usize, k: nat) -> nat
    decreases k,
{
    if k == 0 {
        0
    } else {
        larger(
            larger(
                best_by_row(cells, rows, cols, (k - 1) as nat),
                energy(
                    cells,
                    rows,
                    cols,
                    Beam { row: (k - 1) as usize, col: 0, direction: Direction::Right },
                ),
            ),
            energy(
                cells,
                rows,
                cols,
                Beam { row: (k - 1) as usize, col: (cols - 1) as usize, direction: Direction::Left },
            ),
        )
    }
}

/// The most cells that a beam energizes which enters any row from the left
/// or the right, or one of the first `k` columns from above or below.
pub open spec fn best_by_col(cells: Seq<Seq<Cell>>, rows: usize, cols: usize, k: nat) -> nat
    decreases k,
{
    if k == 0 {
        best_by_row(cells, rows, cols, rows as nat)
    } else {
        larger(
            larger(
                best_by_col(cells, rows, cols, (k - 1) as nat),
                energy(
                    cells,
                    rows,
                    cols,
                    Beam { row: 0, col: (k - 1) as usize, direction: Direction::Down },
                ),
            ),
            energy(
                cells,
                rows,
                cols,
                Beam { row: (rows - 1) as usize, col: (k - 1) as usize, direction: Direction::Up },
            ),
        )
    }
}

fn energy_from(maze: &Maze, row: usize, col: usize, direction: Direction) -> (n: usize)
    requires
        maze.wf(),
        row < maze.rows,
        col < maze.cols,
        reach(maze.rows, maze.cols) <= usize::MAX,
    ensures
        n == energy(maze@, maze.rows, maze.cols, Beam { row, col, direction }),
{
    let mut beam = Beam { row, col, direction };
    let mut copy = copy_of(maze);
    solve(&mut copy, &mut beam)
}

/// The most cells that a beam energizes which enters the contraption at its
/// edge: from the left or the right in any row, from above or below in any
/// column.
pub fn solve2(maze: &mut Maze) -> (max: usize)
    requires
        old(maze).wf(),
        old(maze).rows >= 1,
        old(maze).cols >= 1,
        reach(old(maze).rows, old(maze).cols) <= usize::MAX,
    ensures
        *final(maze) == *old(maze),
        max == best_by_col(old(maze)@, old(maze).rows, old(maze).cols, old(maze).cols as nat),
{
    let mut max: usize = 0;
    let mut row: usize = 0;
    while row < maze.rows
        invariant
            *maze == *old(maze),
            maze.wf(),
            maze.rows >= 1,
            maze.cols >= 1,
            reach(maze.rows, maze.cols) <= usize::MAX,
            row <= maze.rows,
            max == best_by_row(maze@, maze.rows, maze.cols, row as nat),
        decreases maze.rows - row,
    {
        let n = energy_from(maze, row, 0, Direction::Right);
        if n > max {
            max = n;
        }
        let n = energy_from(maze, row, maze.cols - 1, Direction::Left);
        if n > max {
            max = n;
        }
        row = row + 1;
    }
    let mut col: usize = 0;
    while col < maze.cols
        invariant
            *maze == *old(maze),
            maze.wf(),
            maze.rows >= 1,
            maze.cols >= 1,
            reach(maze.rows, maze.cols) <= usize::MAX,
            col <= maze.cols,
            max == best_by_col(maze@, maze.rows, maze.cols, col as nat),
        decreases maze.cols - col,
    {
        let n = energy_from(maze, 0, col, Direction::Down);
        if n > max {
            max = n;
        }
        let n = energy_from(maze, maze.rows - 1, col, Direction::Up);
        if n > max {
            max = n;
        }
        col = col + 1;
    }
    max
}

fn check_map(grid: &Vec<Vec<char>>) -> (r: bool)
    ensures
        r == is_map(views(grid@)),
{
    let ghost all = views(grid@);
    if grid.len() == 0 {
        return false;
    }
    let mut i: usize = 0;
    while i < grid.len()
        invariant
            i <= grid.len(),
            all == views(grid@),
            forall|a: int, b: int|
                0 <= a < i && 0 <= b < all[a].len() ==> cell_type_of(#[trigger] all[a][b]) is Some,
        decreases grid.len() - i,
    {
        let line = &grid[i];
        assert(all[i as int] == line@);
        let mut j: usize = 0;
        while j < line.len()
            invariant
                j <= line.len(),
                i < grid.len(),
                all == views(grid@),
                all[i as int] == line@,
                forall|b: int| 0 <= b < j ==> cell_type_of(#[trigger] all[i as int][b]) is Some,
            decreases line.len() - j,
        {
            if read_cell_type(line[j]).is_none() {
                assert(cell_type_of(all[i as int][j as int]) is None);
                return false;
            }
            j = j + 1;
        }
        i = i + 1;
    }
    true
}

/// Reads the map of a contraption, if the text is one.
pub fn try_parse(input: &str) -> (r: Option<Maze>)
    ensures
        match r {
            Some(maze) => is_map(lines_spec(input@)) && maze.rows == lines_spec(input@).len()
                && maze.cols == lines_spec(input@)[0].len() && maze@.len() == maze.rows && forall|
                i: int,
            | 0 <= i < maze.rows ==> #[trigger] maze@[i] == row_cells(lines_spec(input@)[i]),
            None => !is_map(lines_spec(input@)),
        },
{
    let text = chars_of(input);
    let grid = lines(&text);
    if !check_map(&grid) {
        return None;
    }
    Some(parse(input))
}

impl Maze {
    /// Whether beams can be followed through the contraption: it has a cell
    /// for every row and column, at least one, and is not too large.
    pub open spec fn ready(&self) -> bool {
        self.wf() && self.rows >= 1 && self.cols >= 1 && reach(self.rows, self.cols) <= usize::MAX
    }

    /// Whether beams can be followed through the contraption.
    pub fn is_ready(&self) -> (r: bool)
        ensures
            r == self.ready(),
    {
        if self.rows == 0 || self.cols == 0 || self.cells.len() != self.rows {
            return false;
        }
        let mut i: usize = 0;
        while i < self.cells.len()
            invariant
                i <= self.cells.len(),
                forall|k: int| 0 <= k < i ==> (#[trigger] self.cells[k]).len() == self.cols,
            decreases self.cells.len() - i,
        {
            if self.cells[i].len() != self.cols {
                return false;
            }
            i = i + 1;
        }
        if self.rows > usize::MAX / 4 {
            assert(4 * self.rows * self.cols > usize::MAX) by (nonlinear_arith)
                requires
                    self.rows > usize::MAX / 4,
                    self.cols >= 1,
            ;
            return false;
        }
        let scaled = 4 * self.rows;
        let r = self.cols <= usize::MAX / scaled;
        assert(r == (scaled * self.cols <= usize::MAX)) by (nonlinear_arith)
            requires
                r == (self.cols <= usize::MAX / scaled),
                scaled > 0,
        ;
        r
    }
}

} // verus!
