use crate::text::chars_of;
use crate::text::digit_of;
use crate::text::digit_value;
use crate::text::lines;
use crate::text::lines_spec;
use crate::text::views;
use pathfinding::prelude::dijkstra;
use vstd::prelude::*;

verus! {

/// The heat loss of one city block.
#[derive(Clone, Copy, Debug, Eq, Hash, PartialEq)]
pub struct Cost {
    pub row: usize,
    pub col: usize,
    pub cost: usize,
}

/// The direction in which a crucible moves.
#[derive(Clone, Copy, Debug, Eq, Hash, PartialEq)]
pub enum Direction {
    Up,
    Down,
    Left,
    Right,
}

/// Where a crucible stands, which way it last moved, and how many steps it
/// has made in that direction beyond the first.
#[derive(Clone, Copy, Debug, Eq, Hash, PartialEq)]
pub struct Position {
    pub row: usize,
    pub col: usize,
    pub direction: Direction,
    pub steps_done: usize,
}

/// The same for an ultra crucible, with the steps that it still has to make
/// before it may turn or stop.
#[derive(Clone, Copy, Debug, Eq, Hash, PartialEq)]
pub struct Position2 {
    pub row: usize,
    pub col: usize,
    pub direction: Direction,
    pub steps_done: usize,
    pub steps_to_do: usize,
}

/// A city map for crucibles.
#[derive(Debug)]
pub struct Visitor {
    pub costs: Vec<Cost>,
    pub rows: usize,
    pub cols: usize,
}

/// A city map for ultra crucibles.
#[derive(Debug)]
pub struct Visitor2 {
    pub costs: Vec<Cost>,
    pub rows: usize,
    pub cols: usize,
}

/// The cost of the first entry at or after `from` that is for block (`r`, `c`).
pub open spec fn cost_from(costs: Seq<Cost>, r: usize, c: usize, from: int) -> Option<usize>
    decreases costs.len() - from,
{
    if from < 0 || from >= costs.len() {
        None
    } else if costs[from].row == r && costs[from].col == c {
        Some(costs[from].cost)
    } else {
        cost_from(costs, r, c, from + 1)
    }
}

/// The heat loss of block (`r`, `c`), if the map has it.
pub open spec fn cost_of(costs: Seq<Cost>, r: usize, c: usize) -> Option<usize> {
    cost_from(costs, r, c, 0)
}

/// Whether the map has a heat loss for every block of a `rows` by `cols` city.
pub open spec fn covers(costs: Seq<Cost>, rows: usize, cols: usize) -> bool {
    forall|r: usize, c: usize| r < rows && c < cols ==> (#[trigger] cost_of(costs, r, c)) is Some
}

fn lookup(costs: &Vec<Cost>, r: usize, c: usize) -> (cost: usize)
    requires
        cost_of(costs@, r, c) is Some,
    ensures
        Some(cost) == cost_of(costs@, r, c),
{
    let n = costs.len();
    let mut i: usize = 0;
    while i < n
        invariant
            n == costs.len(),
            i <= n,
            cost_of(costs@, r, c) is Some,
            cost_of(costs@, r, c) == cost_from(costs@, r, c, i as int),
        decreases n - i,
    {
        if costs[i].row == r && costs[i].col == c {
            return costs[i].cost;
        }
        i = i + 1;
    }
    0
}

/// The block one step from (`row`, `col`) in direction `d`, if the city has one.
pub open spec fn step_spec(row: usize, col: usize, d: Direction, rows: usize, cols: usize) -> Option<
    (usize, usize),
> {
    match d {
        Direction::Up => if row > 0 {
            Some(((row - 1) as usize, col))
        } else {
            None
        },
        Direction::Down => if row < rows - 1 {
            Some(((row + 1) as usize, col))
        } else {
            None
        },
        Direction::Left => if col > 0 {
            Some((row, (col - 1) as usize))
        } else {
            None
        },
        Direction::Right => if col < cols - 1 {
            Some((row, (col + 1) as usize))
        } else {
            None
        },
    }
}

fn step(row: usize, col: usize, d: Direction, rows: usize, cols: usize) -> (r: Option<(usize, usize)>)
    requires
        row < rows,
        col < cols,
    ensures
        r == step_spec(row, col, d, rows, cols),
        match r {
            Some(to) => to.0 < rows && to.1 < cols,
            None => true,
        },
{
    match d {
        Direction::Up => if row > 0 {
            Some((row - 1, col))
        } else {
            None
        },
        Direction::Down => if row < rows - 1 {
            Some((row + 1, col))
        } else {
            None
        },
        Direction::Left => if col > 0 {
            Some((row, col - 1))
        } else {
            None
        },
        Direction::Right => if col < cols - 1 {
            Some((row, col + 1))
        } else {
            None
        },
    }
}

/// The direction that a crucible faces after its first possible turn: to the
/// left for one that moves up or down, up for one that moves left or right.
pub open spec fn first_turn(d: Direction) -> Direction {
    match d {
        Direction::Up | Direction::Down => Direction::Left,
        Direction::Left | Direction::Right => Direction::Up,
    }
}

/// The direction after the other possible turn.
pub open spec fn second_turn(d: Direction) -> Direction {
    match d {
        Direction::Up | Direction::Down => Direction::Right,
        Direction::Left | Direction::Right => Direction::Down,
    }
}

fn turn_first(d: Direction) -> (t: Direction)
    ensures
        t == first_turn(d),
{
    match d {
        Direction::Up | Direction::Down => Direction::Left,
        Direction::Left | Direction::Right => Direction::Up,
    }
}

fn turn_second(d: Direction) -> (t: Direction)
    ensures
        t == second_turn(d),
{
    match d {
        Direction::Up | Direction::Down => Direction::Right,
        Direction::Left | Direction::Right => Direction::Down,
    }
}

/// The move of a crucible from `p` in direction `d`, with its heat loss, if
/// the move is allowed and stays in the city.
pub open spec fn move_spec(
    costs: Seq<Cost>,
    rows: usize,
    cols: usize,
    p: Position,
    d: Direction,
    allowed: bool,
    steps_done: usize,
) -> Seq<(Position, usize)> {
    match step_spec(p.row, p.col, d, rows, cols) {
        Some((r, c)) => if allowed {
            seq![
                (
                    Position { row: r, col: c, direction: d, steps_done },
                    cost_of(costs, r, c)->0,
                ),
            ]
        } else {
            Seq::empty()
        },
        None => Seq::empty(),
    }
}

/// The moves of an ultra crucible likewise.
pub open spec fn move2_spec(
    costs: Seq<Cost>,
    rows: usize,
    cols: usize,
    p: Position2,
    d: Direction,
    allowed: bool,
    steps_done: usize,
    steps_to_do: usize,
) -> Seq<(Position2, usize)> {
    match step_spec(p.row, p.col, d, rows, cols) {
        Some((r, c)) => if allowed {
            seq![
                (
                    Position2 { row: r, col: c, direction: d, steps_done, steps_to_do },
                    cost_of(costs, r, c)->0,
                ),
            ]
        } else {
            Seq::empty()
        },
        None => Seq::empty(),
    }
}

impl Visitor {
    /// Whether the map has a heat loss for each of its blocks.
    pub open spec fn wf(&self) -> bool {
        covers(self.costs@, self.rows, self.cols)
    }

    /// The moves that a crucible at `p` can make, each with the heat loss of
    /// the block that it enters: one step further, unless it has made three
    /// in a row, then a turn to either side.
    pub open spec fn successors_spec(&self, p: Position) -> Seq<(Position, usize)> {
        move_spec(
            self.costs@,
            self.rows,
            self.cols,
            p,
            p.direction,
            p.steps_done < 2,
            (p.steps_done + 1) as usize,
        ) + move_spec(self.costs@, self.rows, self.cols, p, first_turn(p.direction), true, 0)
            + move_spec(self.costs@, self.rows, self.cols, p, second_turn(p.direction), true, 0)
    }

    /// The heat loss of block (`r`, `c`).
    pub fn cost(&self, r: usize, c: usize) -> (cost: usize)
        requires
            cost_of(self.costs@, r, c) is Some,
        ensures
            Some(cost) == cost_of(self.costs@, r, c),
    {
        lookup(&self.costs, r, c)
    }

    fn try_move(&self, p: &Position, d: Direction, allowed: bool, steps_done: usize) -> (r: Option<
        (Position, usize),
    >)
        requires
            self.wf(),
            p.row < self.rows,
            p.col < self.cols,
        ensures
            match r {
                Some(m) => move_spec(self.costs@, self.rows, self.cols, *p, d, allowed, steps_done)
                    == seq![m],
                None => move_spec(self.costs@, self.rows, self.cols, *p, d, allowed, steps_done)
                    == Seq::<(Position, usize)>::empty(),
            },
    {
        if !allowed {
            return None;
        }
        match step(p.row, p.col, d, self.rows, self.cols) {
            Some((r, c)) => {
                assert(cost_of(self.costs@, r, c) is Some);
                Some((Position { row: r, col: c, direction: d, steps_done }, self.cost(r, c)))
            },
            None => None,
        }
    }

    /// The moves that a crucible at `p` can make, each with the heat loss of
    /// the block that it enters.
    pub fn successors(&self, p: &Position) -> (positions: Vec<(Position, usize)>)
        requires
            self.wf(),
            p.row < self.rows,
            p.col < self.cols,
        ensures
            positions@ == self.successors_spec(*p),
    {
        let mut positions: Vec<(Position, usize)> = Vec::new();
        let straight = p.steps_done < 2;
        let next_steps = if straight {
            p.steps_done + 1
        } else {
            0
        };
        let ghost a = move_spec(
            self.costs@,
            self.rows,
            self.cols,
            *p,
            p.direction,
            straight,
            (p.steps_done + 1) as usize,
        );
        let ghost b = move_spec(self.costs@, self.rows, self.cols, *p, first_turn(p.direction), true, 0);
        let ghost c = move_spec(self.costs@, self.rows, self.cols, *p, second_turn(p.direction), true, 0);
        match self.try_move(p, p.direction, straight, next_steps) {
            Some(m) => positions.push(m),
            None => {},
        }
        assert(positions@ =~= a);
        match self.try_move(p, turn_first(p.direction), true, 0) {
            Some(m) => positions.push(m),
            None => {},
        }
        assert(positions@ =~= a + b);
        match self.try_move(p, turn_second(p.direction), true, 0) {
            Some(m) => positions.push(m),
            None => {},
        }
        assert(positions@ =~= a + b + c);
        positions
    }
}

impl Visitor2 {
    /// Whether the map has a heat loss for each of its blocks.
    pub open spec fn wf(&self) -> bool {
        covers(self.costs@, self.rows, self.cols)
    }

    /// The moves that an ultra crucible at `p` can make, each with the heat
    /// loss of the block that it enters: one step further, unless it has
    /// made ten in a row, then a turn to either side, once it has made the
    /// four steps that it owes; after a turn it owes three more.
    pub open spec fn successors_spec(&self, p: Position2) -> Seq<(Position2, usize)> {
        move2_spec(
            self.costs@,
            self.rows,
            self.cols,
            p,
            p.direction,
            p.steps_done < 9,
            (p.steps_done + 1) as usize,
            if p.steps_to_do == 0 {
                0
            } else {
                (p.steps_to_do - 1) as usize
            },
        ) + move2_spec(
            self.costs@,
            self.rows,
            self.cols,
            p,
            first_turn(p.direction),
            p.steps_to_do == 0,
            0,
            3,
        ) + move2_spec(
            self.costs@,
            self.rows,
            self.cols,
            p,
            second_turn(p.direction),
            p.steps_to_do == 0,
            0,
            3,
        )
    }

    /// The heat loss of block (`r`, `c`).
    pub fn cost(&self, r: usize, c: usize) -> (cost: usize)
        requires
            cost_of(self.costs@, r, c) is Some,
        ensures
            Some(cost) == cost_of(self.costs@, r, c),
    {
        lookup(&self.costs, r, c)
    }

    fn try_move(
        &self,
        p: &Position2,
        d: Direction,
        allowed: bool,
        steps_done: usize,
        steps_to_do: usize,
    ) -> (r: Option<(Position2, usize)>)
        requires
            self.wf(),
            p.row < self.rows,
            p.col < self.cols,
        ensures
            match r {
                Some(m) => move2_spec(
                    self.costs@,
                    self.rows,
                    self.cols,
                    *p,
                    d,
                    allowed,
                    steps_done,
                    steps_to_do,
                ) == seq![m],
                None => move2_spec(
                    self.costs@,
                    self.rows,
                    self.cols,
                    *p,
                    d,
                    allowed,
                    steps_done,
                    steps_to_do,
                ) == Seq::<(Position2, usize)>::empty(),
            },
    {
        if !allowed {
            return None;
        }
        match step(p.row, p.col, d, self.rows, self.cols) {
            Some((r, c)) => {
                assert(cost_of(self.costs@, r, c) is Some);
                Some(
                    (
                        Position2 { row: r, col: c, direction: d, steps_done, steps_to_do },
                        self.cost(r, c),
                    ),
                )
            },
            None => None,
        }
    }

    /// The moves that an ultra crucible at `p` can make, each with the heat
    /// loss of the block that it enters.
    pub fn successors(&self, p: &Position2) -> (positions: Vec<(Position2, usize)>)
        requires
            self.wf(),
            p.row < self.rows,
            p.col < self.cols,
        ensures
            positions@ == self.successors_spec(*p),
    {
        let mut positions: Vec<(Position2, usize)> = Vec::new();
        let straight = p.steps_done < 9;
        let next_steps = if straight {
            p.steps_done + 1
        } else {
            0
        };
        let owed = if p.steps_to_do == 0 {
            0
        } else {
            p.steps_to_do - 1
        };
        let may_turn = p.steps_to_do == 0;
        let ghost a = move2_spec(
            self.costs@,
            self.rows,
            self.cols,
            *p,
            p.direction,
            straight,
            (p.steps_done + 1) as usize,
            owed,
        );
        let ghost b = move2_spec(
            self.costs@,
            self.rows,
            self.cols,
            *p,
            first_turn(p.direction),
            may_turn,
            0,
            3,
        );
        let ghost c = move2_spec(
            self.costs@,
            self.rows,
            self.cols,
            *p,
            second_turn(p.direction),
            may_turn,
            0,
            3,
        );
        match self.try_move(p, p.direction, straight, next_steps, owed) {
            Some(m) => positions.push(m),
            None => {},
        }
        assert(positions@ =~= a);
        match self.try_move(p, turn_first(p.direction), may_turn, 0, 3) {
            Some(m) => positions.push(m),
            None => {},
        }
        assert(positions@ =~= a + b);
        match self.try_move(p, turn_second(p.direction), may_turn, 0, 3) {
            Some(m) => positions.push(m),
            None => {},
        }
        assert(positions@ =~= a + b + c);
        positions
    }
}

/// The heat losses that one line of the map gives for row `row`.
pub open spec fn row_costs(line: Seq<char>, row: nat) -> Seq<Cost> {
    Seq::new(
        line.len(),
        |j: int|
            Cost { row: row as usize, col: j as usize, cost: digit_value(line[j])->0 as usize },
    )
}

/// The heat losses that the first `k` lines of the map give.
pub open spec fn costs_upto(lines: Seq<Seq<char>>, k: nat) -> Seq<Cost>
    decreases k,
{
    if k == 0 || k > lines.len() {
        Seq::empty()
    } else {
        costs_upto(lines, (k - 1) as nat) + row_costs(lines[k - 1], (k - 1) as nat)
    }
}

/// Whether a text is a map: at least one line, and digits only.
pub open spec fn is_map(lines: Seq<Seq<char>>) -> bool {
    lines.len() > 0 && forall|i: int, j: int|
        0 <= i < lines.len() && 0 <= j < lines[i].len() ==> digit_value(
            #[trigger] lines[i][j],
        ) is Some
}

/// Whether all lines are as long as the first.
pub open spec fn rectangular(lines: Seq<Seq<char>>) -> bool {
    forall|i: int| 0 <= i < lines.len() ==> (#[trigger] lines[i]).len() == lines[0].len()
}

proof fn lemma_entry_found(costs: Seq<Cost>, r: usize, c: usize, i: int, from: int)
    requires
        0 <= from <= i < costs.len(),
        costs[i].row == r,
        costs[i].col == c,
    ensures
        cost_from(costs, r, c, from) is Some,
    decreases i - from,
{
    if !(costs[from].row == r && costs[from].col == c) {
        lemma_entry_found(costs, r, c, i, from + 1);
    }
}

proof fn lemma_costs_cover(lines: Seq<Seq<char>>, k: nat, r: usize, c: usize)
    requires
        k <= lines.len() <= usize::MAX,
        r < k,
        c < lines[r as int].len() <= usize::MAX,
    ensures
        cost_of(costs_upto(lines, k), r, c) is Some,
    decreases k,
{
    let before = costs_upto(lines, (k - 1) as nat);
    let row = row_costs(lines[k - 1], (k - 1) as nat);
    let all = costs_upto(lines, k);
    if r == k - 1 {
        let i = before.len() + c;
        assert(all[i] == row[c as int]);
        lemma_entry_found(all, r, c, i, 0);
    } else {
        lemma_costs_cover(lines, (k - 1) as nat, r, c);
        lemma_cost_kept(before, row, r, c, 0);
    }
}

proof fn lemma_cost_kept(costs: Seq<Cost>, more: Seq<Cost>, r: usize, c: usize, from: int)
    requires
        cost_from(costs, r, c, from) is Some,
    ensures
        cost_from(costs + more, r, c, from) == cost_from(costs, r, c, from),
    decreases costs.len() - from,
{
    if 0 <= from < costs.len() {
        assert((costs + more)[from] == costs[from]);
        if !(costs[from].row == r && costs[from].col == c) {
            lemma_cost_kept(costs, more, r, c, from + 1);
        }
    }
}

/// Reads the heat losses of a map, line by line.
fn read_costs(grid: &Vec<Vec<char>>) -> (costs: Vec<Cost>)
    requires
        is_map(views(grid@)),
    ensures
        costs@ == costs_upto(views(grid@), grid.len() as nat),
{
    let ghost lines = views(grid@);
    let mut costs: Vec<Cost> = Vec::new();
    let n = grid.len();
    let mut row: usize = 0;
    while row < n
        invariant
            n == grid.len(),
            row <= n,
            lines == views(grid@),
            is_map(lines),
            costs@ == costs_upto(lines, row as nat),
        decreases n - row,
    {
        let line = &grid[row];
        let ghost before = costs@;
        assert(line@ == lines[row as int]);
        let m = line.len();
        let mut col: usize = 0;
        while col < m
            invariant
                m == line.len(),
                col <= m,
                row < n,
                n == grid.len(),
                lines == views(grid@),
                line@ == lines[row as int],
                is_map(lines),
                costs@ == before + row_costs(line@, row as nat).take(col as int),
            decreases m - col,
        {
            assert(digit_value(lines[row as int][col as int]) is Some);
            let d = digit_of(line[col]).unwrap();
            costs.push(Cost { row, col, cost: d as usize });
            assert(costs@ =~= before + row_costs(line@, row as nat).take(col + 1));
            col = col + 1;
        }
        assert(row_costs(line@, row as nat).take(m as int) =~= row_costs(line@, row as nat));
        row = row + 1;
    }
    costs
}

/// Reads a city map for crucibles: its heat losses, the number of its lines
/// and the length of its first line.
pub fn parse(input: &str) -> (v: Visitor)
    requires
        is_map(lines_spec(input@)),
    ensures
        v.rows == lines_spec(input@).len(),
        v.cols == lines_spec(input@)[0].len(),
        v.costs@ == costs_upto(lines_spec(input@), lines_spec(input@).len()),
        rectangular(lines_spec(input@)) ==> v.wf(),
{
    let text = chars_of(input);
    let grid = lines(&text);
    assert(views(grid@)[0] == grid[0]@);
    let rows = grid.len();
    let cols = grid[0].len();
    let costs = read_costs(&grid);
    proof {
        let all = views(grid@);
        if rectangular(all) {
            assert forall|r: usize, c: usize| r < rows && c < cols implies (#[trigger] cost_of(
                costs@,
                r,
                c,
            )) is Some by {
                assert(all[r as int].len() == all[0].len());
                assert(all[r as int] == grid[r as int]@);
                lemma_costs_cover(all, rows as nat, r, c);
            }
        }
    }
    Visitor { costs, rows, cols }
}

/// Reads a city map for ultra crucibles.
pub fn parse2(input: &str) -> (v: Visitor2)
    requires
        is_map(lines_spec(input@)),
    ensures
        v.rows == lines_spec(input@).len(),
        v.cols == lines_spec(input@)[0].len(),
        v.costs@ == costs_upto(lines_spec(input@), lines_spec(input@).len()),
        rectangular(lines_spec(input@)) ==> v.wf(),
{
    let first = parse(input);
    Visitor2 { costs: first.costs, rows: first.rows, cols: first.cols }
}

fn check_map(grid: &Vec<Vec<char>>) -> (r: bool)
    ensures
        r == (is_map(views(grid@)) && rectangular(views(grid@))),
{
    let ghost all = views(grid@);
    if grid.len() == 0 {
        return false;
    }
    assert(all[0] == grid[0]@);
    let cols = grid[0].len();
    let mut i: usize = 0;
    while i < grid.len()
        invariant
            i <= grid.len(),
            grid.len() > 0,
            all == views(grid@),
            cols == all[0].len(),
            forall|a: int, b: int|
                0 <= a < i && 0 <= b < all[a].len() ==> digit_value(#[trigger] all[a][b]) is Some,
            forall|a: int| 0 <= a < i ==> (#[trigger] all[a]).len() == cols,
        decreases grid.len() - i,
    {
        let line = &grid[i];
        assert(all[i as int] == line@);
        if line.len() != cols {
            return false;
        }
        let mut j: usize = 0;
        while j < line.len()
            invariant
                j <= line.len(),
                i < grid.len(),
                all == views(grid@),
                all[i as int] == line@,
                forall|b: int| 0 <= b < j ==> digit_value(#[trigger] all[i as int][b]) is Some,
            decreases line.len() - j,
        {
            if digit_of(line[j]).is_none() {
                assert(digit_value(all[i as int][j as int]) is None);
                return false;
            }
            j = j + 1;
        }
        i = i + 1;
    }
    true
}

/// Reads a city map for crucibles, if the text is a map whose lines are
/// equally long.
pub fn try_parse(input: &str) -> (r: Option<Visitor>)
    ensures
        match r {
            Some(v) => is_map(lines_spec(input@)) && rectangular(lines_spec(input@)) && v.wf()
                && v.rows == lines_spec(input@).len() && v.cols == lines_spec(input@)[0].len()
                && v.costs@ == costs_upto(lines_spec(input@), lines_spec(input@).len()),
            None => !(is_map(lines_spec(input@)) && rectangular(lines_spec(input@))),
        },
{
    let text = chars_of(input);
    let grid = lines(&text);
    if !check_map(&grid) {
        return None;
    }
    Some(parse(input))
}

/// Reads a city map for ultra crucibles, if the text is a map whose lines
/// are equally long.
pub fn try_parse2(input: &str) -> (r: Option<Visitor2>)
    ensures
        match r {
            Some(v) => is_map(lines_spec(input@)) && rectangular(lines_spec(input@)) && v.wf()
                && v.rows == lines_spec(input@).len() && v.cols == lines_spec(input@)[0].len()
                && v.costs@ == costs_upto(lines_spec(input@), lines_spec(input@).len()),
            None => !(is_map(lines_spec(input@)) && rectangular(lines_spec(input@))),
        },
{
    match try_parse(input) {
        Some(first) => Some(Visitor2 { costs: first.costs, rows: first.rows, cols: first.cols }),
        None => None,
    }
}

fn all_single_digits(costs: &Vec<Cost>) -> (r: bool)
    ensures
        r == single_digits(costs@),
{
    let mut i: usize = 0;
    while i < costs.len()
        invariant
            i <= costs.len(),
            forall|k: int| 0 <= k < i ==> (#[trigger] costs[k]).cost <= 9,
        decreases costs.len() - i,
    {
        if costs[i].cost > 9 {
            return false;
        }
        i = i + 1;
    }
    true
}

/// Whether `states` times nine times the rows times the columns fits.
fn sums_fit(rows: usize, cols: usize, weight: usize) -> (r: bool)
    requires
        weight > 0,
    ensures
        r == (weight * rows * cols <= usize::MAX),
{
    if rows == 0 || cols == 0 {
        assert(weight * rows * cols == 0) by (nonlinear_arith)
            requires
                rows == 0 || cols == 0,
        ;
        return true;
    }
    if rows > usize::MAX / weight {
        assert(weight * rows * cols > usize::MAX) by (nonlinear_arith)
            requires
                rows > usize::MAX / weight,
                weight > 0,
                cols >= 1,
        ;
        return false;
    }
    assert(0 < weight * rows <= usize::MAX) by (nonlinear_arith)
        requires
            rows <= usize::MAX / weight,
            weight > 0,
            rows > 0,
    ;
    let scaled = weight * rows;
    let r = cols <= usize::MAX / scaled;
    assert(r == (scaled * cols <= usize::MAX)) by (nonlinear_arith)
        requires
            r == (cols <= usize::MAX / scaled),
            scaled > 0,
    ;
    r
}

/// The heat that a route loses: the sum of the heat losses of its moves.
pub open spec fn route_cost<P>(route: Seq<(P, usize)>) -> nat
    decreases route.len(),
{
    if route.len() == 0 {
        0
    } else {
        route_cost(route.drop_last()) + route.last().1 as nat
    }
}

/// Whether no block loses more heat than a single digit says.
pub open spec fn single_digits(costs: Seq<Cost>) -> bool {
    forall|i: int| 0 <= i < costs.len() ==> (#[trigger] costs[i]).cost <= 9
}

impl Visitor {
    /// Where a crucible starts: in the top left corner, facing right.
    pub open spec fn start() -> Position {
        Position { row: 0, col: 0, direction: Direction::Right, steps_done: 0 }
    }

    /// Whether a crucible at `p` has arrived: it stands in the bottom right corner.
    pub open spec fn at_goal(&self, p: Position) -> bool {
        p.row == self.rows - 1 && p.col == self.cols - 1
    }

    /// Whether `route` is a sequence of moves that a crucible can make from
    /// the start, one after the other.
    pub open spec fn is_route(&self, route: Seq<(Position, usize)>) -> bool {
        forall|i: int|
            0 <= i < route.len() ==> self.successors_spec(
                if i == 0 {
                    Self::start()
                } else {
                    route[i - 1].0
                },
            ).contains(#[trigger] route[i])
    }

    /// Whether `route` is a route from the start to the goal.
    pub open spec fn arrives(&self, route: Seq<(Position, usize)>) -> bool {
        self.is_route(route) && self.at_goal(
            if route.len() == 0 {
                Self::start()
            } else {
                route.last().0
            },
        )
    }

    /// Whether `loss` is the least heat that a route to the goal loses.
    pub open spec fn is_least_loss(&self, loss: usize) -> bool {
        (exists|route: Seq<(Position, usize)>| #[trigger]
            self.arrives(route) && route_cost(route) == loss) && (forall|
            route: Seq<(Position, usize)>,
        | #[trigger] self.arrives(route) ==> route_cost(route) >= loss)
    }

    /// Whether some route leads to the goal.
    pub open spec fn can_arrive(&self) -> bool {
        exists|route: Seq<(Position, usize)>| #[trigger] self.arrives(route)
    }

    /// Whether the city is small enough for no sum of heat losses along
    /// distinct states of a crucible to overflow.
    pub open spec fn fits(&self) -> bool {
        self.rows >= 1 && self.cols >= 1 && single_digits(self.costs@) && 108 * self.rows
            * self.cols <= usize::MAX
    }

    /// Whether a crucible at `p` has arrived.
    pub fn is_goal(&self, p: &Position) -> (r: bool)
        requires
            self.rows >= 1,
            self.cols >= 1,
        ensures
            r == self.at_goal(*p),
    {
        p.row == self.rows - 1 && p.col == self.cols - 1
    }
}

impl Visitor {
    /// Whether the city is small enough for the least heat loss to be looked for.
    pub fn is_small(&self) -> (r: bool)
        ensures
            r == self.fits(),
    {
        self.rows >= 1 && self.cols >= 1 && all_single_digits(&self.costs) && sums_fit(
            self.rows,
            self.cols,
            108,
        )
    }
}

impl Visitor2 {
    /// Whether the city is small enough for the least heat loss to be looked for.
    pub fn is_small(&self) -> (r: bool)
        ensures
            r == self.fits(),
    {
        self.rows >= 1 && self.cols >= 1 && all_single_digits(&self.costs) && sums_fit(
            self.rows,
            self.cols,
            1440,
        )
    }
}

impl Visitor {
    /// The state in which a crucible starts.
    pub fn first_state() -> (p: Position)
        ensures
            p == Self::start(),
    {
        Position { row: 0, col: 0, direction: Direction::Right, steps_done: 0 }
    }
}

/// `pathfinding::prelude::dijkstra`, from `start`, which is the start of a
/// crucible, with its moves as successors and the bottom right corner as the
/// goal: the total cost of a cheapest path from the start to a node that
/// meets the goal, or nothing where no path leads to one. It adds the costs
/// along the paths that it follows; `fits` keeps those sums in range.
#[verifier::external_body]
fn cheapest_route(v: &Visitor, start: &Position) -> (r: Option<usize>)
    requires
        v.wf(),
        v.fits(),
        *start == Visitor::start(),
    ensures
        match r {
            Some(loss) => v.is_least_loss(loss),
            None => !v.can_arrive(),
        },
{
    dijkstra(start, |p| v.successors(p), |p| v.is_goal(p)).map(|found| found.1)
}

/// The least heat that a crucible loses on its way to the goal, if there is
/// a way.
pub fn try_solve(v: &Visitor) -> (r: Option<usize>)
    requires
        v.wf(),
        v.fits(),
    ensures
        match r {
            Some(loss) => v.is_least_loss(loss),
            None => !v.can_arrive(),
        },
{
    let start = Visitor::first_state();
    cheapest_route(v, &start)
}

/// The least heat that a crucible loses on its way to the goal.
pub fn solve(v: &Visitor) -> (loss: usize)
    requires
        v.wf(),
        v.fits(),
        v.can_arrive(),
    ensures
        v.is_least_loss(loss),
{
    let start = Visitor::first_state();
    cheapest_route(v, &start).unwrap()
}

impl Visitor2 {
    /// Where an ultra crucible starts: in the top left corner, facing right,
    /// with three steps owed.
    pub open spec fn start() -> Position2 {
        Position2 { row: 0, col: 0, direction: Direction::Right, steps_done: 0, steps_to_do: 3 }
    }

    /// Whether an ultra crucible at `p` has arrived: it stands in the bottom
    /// right corner and owes no step.
    pub open spec fn at_goal(&self, p: Position2) -> bool {
        p.row == self.rows - 1 && p.col == self.cols - 1 && p.steps_to_do == 0
    }

    /// Whether `route` is a sequence of moves that an ultra crucible can
    /// make from the start, one after the other.
    pub open spec fn is_route(&self, route: Seq<(Position2, usize)>) -> bool {
        forall|i: int|
            0 <= i < route.len() ==> self.successors_spec(
                if i == 0 {
                    Self::start()
                } else {
                    route[i - 1].0
                },
            ).contains(#[trigger] route[i])
    }

    /// Whether `route` is a route from the start to the goal.
    pub open spec fn arrives(&self, route: Seq<(Position2, usize)>) -> bool {
        self.is_route(route) && self.at_goal(
            if route.len() == 0 {
                Self::start()
            } else {
                route.last().0
            },
        )
    }

    /// Whether `loss` is the least heat that a route to the goal loses.
    pub open spec fn is_least_loss(&self, loss: usize) -> bool {
        (exists|route: Seq<(Position2, usize)>| #[trigger]
            self.arrives(route) && route_cost(route) == loss) && (forall|
            route: Seq<(Position2, usize)>,
        | #[trigger] self.arrives(route) ==> route_cost(route) >= loss)
    }

    /// Whether some route leads to the goal.
    pub open spec fn can_arrive(&self) -> bool {
        exists|route: Seq<(Position2, usize)>| #[trigger] self.arrives(route)
    }

    /// Whether the city is small enough for no sum of heat losses along
    /// distinct states of an ultra crucible to overflow.
    pub open spec fn fits(&self) -> bool {
        self.rows >= 1 && self.cols >= 1 && single_digits(self.costs@) && 1440 * self.rows
            * self.cols <= usize::MAX
    }

    /// Whether an ultra crucible at `p` has arrived.
    pub fn is_goal(&self, p: &Position2) -> (r: bool)
        requires
            self.rows >= 1,
            self.cols >= 1,
        ensures
            r == self.at_goal(*p),
    {
        p.row == self.rows - 1 && p.col == self.cols - 1 && p.steps_to_do == 0
    }
}

impl Visitor2 {
    /// The state in which an ultra crucible starts.
    pub fn first_state() -> (p: Position2)
        ensures
            p == Self::start(),
    {
        Position2 { row: 0, col: 0, direction: Direction::Right, steps_done: 0, steps_to_do: 3 }
    }
}

/// `pathfinding::prelude::dijkstra`, from `start`, which is the start of an
/// ultra crucible, with its moves as successors and, as the goal, the bottom
/// right corner with no step owed: the total cost of a cheapest path from
/// the start to a node that meets the goal, or nothing where no path leads
/// to one.
#[verifier::external_body]
fn cheapest_route2(v: &Visitor2, start: &Position2) -> (r: Option<usize>)
    requires
        v.wf(),
        v.fits(),
        *start == Visitor2::start(),
    ensures
        match r {
            Some(loss) => v.is_least_loss(loss),
            None => !v.can_arrive(),
        },
{
    dijkstra(start, |p| v.successors(p), |p| v.is_goal(p)).map(|found| found.1)
}

/// The least heat that an ultra crucible loses on its way to the goal, if
/// there is a way.
pub fn try_solve2(v: &Visitor2) -> (r: Option<usize>)
    requires
        v.wf(),
        v.fits(),
    ensures
        match r {
            Some(loss) => v.is_least_loss(loss),
            None => !v.can_arrive(),
        },
{
    let start = Visitor2::first_state();
    cheapest_route2(v, &start)
}

/// The least heat that an ultra crucible loses on its way to the goal.
pub fn solve2(v: &Visitor2) -> (loss: usize)
    requires
        v.wf(),
        v.fits(),
        v.can_arrive(),
    ensures
        v.is_least_loss(loss),
{
    let start = Visitor2::first_state();
    cheapest_route2(v, &start).unwrap()
}

} // verus!
