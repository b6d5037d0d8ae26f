pub mod area;
pub mod builder;
pub mod chain;
pub mod graph;
pub mod laws;
pub mod walk;

use crate::day10::area::interior_from;
use crate::day10::area::interior_points;
use crate::day10::area::loop_shoelace;
use crate::day10::builder::build_graph;
use crate::day10::builder::maze_edges;
use crate::day10::chain::backwards;
use crate::day10::chain::lemma_chain_backwards;
use crate::day10::chain::lemma_chain_is_trail;
use crate::day10::chain::lemma_main_loop_is_chain;
use crate::day10::graph::graph_edges;
use crate::day10::graph::graph_node_count;
use crate::day10::graph::graph_nodes;
use crate::day10::graph::PipeGraph;
use crate::day10::walk::find_loop;
use crate::day10::walk::find_start;
use crate::day10::walk::follow;
use crate::day10::walk::hop_ok;
use crate::day10::walk::main_loop;
use crate::day10::walk::start_of;
use crate::day10::walk::trail;
use crate::day10::walk::walk_fuel;
use crate::text::chars_of;
use vstd::prelude::*;

verus! {

/// The shape of the pipe in one grid cell.
#[derive(Clone, Copy, Debug, PartialEq, Eq, Structural)]
pub enum Connections {
    NorthSouth,
    EastWest,
    NorthEast,
    NorthWest,
    SouthWest,
    SouthEast,
    Ground,
    Start,
}

/// One of the four grid directions; rows grow to the south, columns to the east.
#[derive(Clone, Copy, Debug, PartialEq, Eq, Structural)]
pub enum Direction {
    North,
    South,
    West,
    East,
}

/// One grid position with its pipe.
#[derive(Clone, Copy, Debug, PartialEq, Eq, Structural)]
pub struct Cell {
    pub connections: Connections,
    pub row: usize,
    pub col: usize,
}

/// Why a maze could not be read or walked.
#[derive(Clone, Copy, Debug, PartialEq, Eq, Structural)]
pub enum MazeError {
    /// The character at this position (counted in characters) is no maze symbol.
    ParseError(usize, char),
    /// No cell carries the start symbol.
    MissingStart,
    /// No walk that leaves the start along the pipes comes back to it.
    NoCycle,
}

/// The largest number of characters a maze text may have: every cell becomes a
/// node and brings at most two edges, and nodes and edges are indexed by `u32`.
pub const MAX_MAZE_CHARS: usize = 0x7fff_ffff;

/// Whether a pipe of this shape has an open end towards `d`.
pub open spec fn opens(sym: Connections, d: Direction) -> bool {
    match sym {
        Connections::NorthSouth => d == Direction::North || d == Direction::South,
        Connections::EastWest => d == Direction::West || d == Direction::East,
        Connections::NorthEast => d == Direction::North || d == Direction::East,
        Connections::NorthWest => d == Direction::North || d == Direction::West,
        Connections::SouthWest => d == Direction::South || d == Direction::West,
        Connections::SouthEast => d == Direction::South || d == Direction::East,
        Connections::Ground => false,
        Connections::Start => false,
    }
}

/// The direction that faces `d`.
pub open spec fn opposite(d: Direction) -> Direction {
    match d {
        Direction::North => Direction::South,
        Direction::South => Direction::North,
        Direction::West => Direction::East,
        Direction::East => Direction::West,
    }
}

/// Whether a cell with symbol `sym` can end a pipe that arrives travelling in
/// direction `d`: it has an open end facing back, or it is the start and the
/// start counts as fitting every direction.
pub open spec fn accepts(sym: Connections, d: Direction, start_fits_all: bool) -> bool {
    (start_fits_all && sym == Connections::Start) || opens(sym, opposite(d))
}

/// Whether a pipe of this shape has an open end towards `d`.
pub fn has_opening(sym: Connections, d: Direction) -> (b: bool)
    ensures
        b == opens(sym, d),
{
    match sym {
        Connections::NorthSouth => matches!(d, Direction::North | Direction::South),
        Connections::EastWest => matches!(d, Direction::West | Direction::East),
        Connections::NorthEast => matches!(d, Direction::North | Direction::East),
        Connections::NorthWest => matches!(d, Direction::North | Direction::West),
        Connections::SouthWest => matches!(d, Direction::South | Direction::West),
        Connections::SouthEast => matches!(d, Direction::South | Direction::East),
        Connections::Ground => false,
        Connections::Start => false,
    }
}

/// The direction that faces `d`.
pub fn reverse_of(d: Direction) -> (r: Direction)
    ensures
        r == opposite(d),
{
    match d {
        Direction::North => Direction::South,
        Direction::South => Direction::North,
        Direction::West => Direction::East,
        Direction::East => Direction::West,
    }
}

/// Whether a cell with symbol `sym` can end a pipe that arrives travelling in
/// direction `d`.
pub fn can_end(sym: Connections, d: Direction, start_fits_all: bool) -> (b: bool)
    ensures
        b == accepts(sym, d, start_fits_all),
{
    (start_fits_all && matches!(sym, Connections::Start)) || has_opening(sym, reverse_of(d))
}

/// The pipe that a character of the maze alphabet stands for.
pub open spec fn symbol_of(c: char) -> Option<Connections> {
    if c == '|' {
        Some(Connections::NorthSouth)
    } else if c == '-' {
        Some(Connections::EastWest)
    } else if c == 'L' {
        Some(Connections::NorthEast)
    } else if c == 'J' {
        Some(Connections::NorthWest)
    } else if c == '7' {
        Some(Connections::SouthWest)
    } else if c == 'F' {
        Some(Connections::SouthEast)
    } else if c == '.' {
        Some(Connections::Ground)
    } else if c == 'S' {
        Some(Connections::Start)
    } else {
        None
    }
}

/// The pipe that a character of the maze alphabet stands for.
pub fn symbol_from_char(c: char) -> (r: Option<Connections>)
    ensures
        r == symbol_of(c),
{
    if c == '|' {
        Some(Connections::NorthSouth)
    } else if c == '-' {
        Some(Connections::EastWest)
    } else if c == 'L' {
        Some(Connections::NorthEast)
    } else if c == 'J' {
        Some(Connections::NorthWest)
    } else if c == '7' {
        Some(Connections::SouthWest)
    } else if c == 'F' {
        Some(Connections::SouthEast)
    } else if c == '.' {
        Some(Connections::Ground)
    } else if c == 'S' {
        Some(Connections::Start)
    } else {
        None
    }
}

/// Whether the character at `i` belongs to a maze text: a symbol, a line feed,
/// or a carriage return directly before a line feed.
pub open spec fn char_ok(text: Seq<char>, i: int) -> bool {
    symbol_of(text[i]) is Some || text[i] == '\n' || (text[i] == '\r' && i + 1 < text.len()
        && text[i + 1] == '\n')
}

/// Whether every character belongs to a maze text.
pub open spec fn all_ok(text: Seq<char>) -> bool {
    forall|i: int| 0 <= i < text.len() ==> char_ok(text, i)
}

/// What reading a prefix of a maze text has produced: the cells so far and
/// the grid position of the next symbol.
pub struct Scan {
    pub cells: Seq<Cell>,
    pub row: nat,
    pub col: nat,
}

/// The state after the first `n` characters: each symbol adds a cell at the
/// current position and moves one column on, each line feed starts a new row.
pub open spec fn scan(text: Seq<char>, n: nat) -> Scan
    decreases n,
{
    if n == 0 || n > text.len() {
        Scan { cells: Seq::empty(), row: 0, col: 0 }
    } else {
        let before = scan(text, (n - 1) as nat);
        let c = text[n - 1];
        match symbol_of(c) {
            Some(sym) => Scan {
                cells: before.cells.push(
                    Cell { connections: sym, row: before.row as usize, col: before.col as usize },
                ),
                row: before.row,
                col: before.col + 1,
            },
            None => if c == '\n' {
                Scan { cells: before.cells, row: before.row + 1, col: 0 }
            } else {
                before
            },
        }
    }
}

/// The cells of a maze text, row by row.
pub open spec fn cells_of(text: Seq<char>) -> Seq<Cell> {
    scan(text, text.len()).cells
}

/// Reads the cells of a maze text, or reports the first character that does
/// not belong to one.
pub fn scan_cells(text: &Vec<char>) -> (r: Result<Vec<Cell>, MazeError>)
    ensures
        match r {
            Ok(cells) => all_ok(text@) && cells@ == cells_of(text@) && cells.len() <= text.len(),
            Err(MazeError::ParseError(p, c)) => p < text.len() && !char_ok(text@, p as int) && c
                == text[p as int] && forall|j: int| 0 <= j < p ==> char_ok(text@, j),
            Err(_) => false,
        },
{
    let n = text.len();
    let mut cells: Vec<Cell> = Vec::new();
    let mut row: usize = 0;
    let mut col: usize = 0;
    let mut i: usize = 0;
    while i < n
        invariant
            n == text.len(),
            i <= n,
            cells@ == scan(text@, i as nat).cells,
            row == scan(text@, i as nat).row,
            col == scan(text@, i as nat).col,
            row <= i,
            col <= i,
            cells.len() <= i,
            forall|j: int| 0 <= j < i ==> char_ok(text@, j),
        decreases n - i,
    {
        let c = text[i];
        match symbol_from_char(c) {
            Some(sym) => {
                cells.push(Cell { connections: sym, row, col });
                col = col + 1;
            },
            None => {
                if c == '\n' {
                    row = row + 1;
                    col = 0;
                } else if c == '\r' && i + 1 < n && text[i + 1] == '\n' {
                } else {
                    return Err(MazeError::ParseError(i, c));
                }
            },
        }
        i = i + 1;
    }
    Ok(cells)
}

/// Whether a graph is the graph of the maze that a text describes.
pub open spec fn is_maze_of(g: PipeGraph, text: Seq<char>) -> bool {
    graph_nodes(g) == cells_of(text) && graph_edges(g) == maze_edges(cells_of(text), true)
}

/// Reads a maze and builds its graph: one node per cell, row by row, and an
/// edge between two cells wherever the pipe of one ends in the other, the
/// start fitting every pipe that points at it.
pub fn parse(input: &str) -> (r: Result<PipeGraph, MazeError>)
    requires
        input@.len() <= MAX_MAZE_CHARS,
    ensures
        match r {
            Ok(g) => all_ok(input@) && is_maze_of(g, input@),
            Err(MazeError::ParseError(p, c)) => p < input@.len() && !char_ok(input@, p as int)
                && c == input@[p as int] && forall|j: int| 0 <= j < p ==> char_ok(input@, j),
            Err(_) => false,
        },
{
    let text = chars_of(input);
    match scan_cells(&text) {
        Ok(cells) => Ok(build_graph(&cells, true)),
        Err(e) => Err(e),
    }
}

/// The trail of the walk that goes round the main loop the other way: it
/// leaves the start towards the node that the first walk visited last.
pub open spec fn return_trail(nodes: Seq<Cell>, edges: Seq<(usize, usize)>) -> Option<Seq<usize>> {
    match (start_of(nodes), main_loop(nodes, edges)) {
        (Some(s), Some(t)) => if t.len() >= 2 {
            trail(nodes, edges, s, s, t[t.len() - 2], walk_fuel(nodes))
        } else {
            None
        },
        _ => None,
    }
}

/// The steps that the length walk counts: once round the main loop in each
/// direction.
pub open spec fn length_walk_steps(nodes: Seq<Cell>, edges: Seq<(usize, usize)>) -> nat {
    match (main_loop(nodes, edges), return_trail(nodes, edges)) {
        (Some(t), Some(b)) => t.len() + b.len(),
        _ => 0,
    }
}

/// The main loop can be walked the other way round, and that walk visits the
/// same nodes in the opposite order.
pub proof fn lemma_return_trail(nodes: Seq<Cell>, edges: Seq<(usize, usize)>)
    requires
        main_loop(nodes, edges) is Some,
    ensures
        start_of(nodes) is Some,
        return_trail(nodes, edges) == Some(
            backwards(seq![start_of(nodes)->0] + main_loop(nodes, edges)->0).skip(1),
        ),
        return_trail(nodes, edges)->0.len() == main_loop(nodes, edges)->0.len(),
{
    lemma_main_loop_is_chain(nodes, edges);
    let s = start_of(nodes)->0;
    let t = main_loop(nodes, edges)->0;
    let c = seq![s] + t;
    assert(c[0] == s);
    lemma_chain_backwards(nodes, edges, s, c);
    let r = backwards(c);
    assert(r[0] == s);
    assert(r[1] == t[t.len() - 2]);
    lemma_chain_is_trail(nodes, edges, s, r, walk_fuel(nodes));
}

/// The length of the main loop: the number of its edges. The walk goes round
/// the loop once in each direction, counts every step, and halves the count.
pub fn find_cycle_length(graph: &PipeGraph) -> (r: Result<usize, MazeError>)
    ensures
        match r {
            Ok(len) => main_loop(graph_nodes(*graph), graph_edges(*graph)) is Some && len
                == length_walk_steps(graph_nodes(*graph), graph_edges(*graph)) / 2 && len
                == main_loop(graph_nodes(*graph), graph_edges(*graph))->0.len(),
            Err(MazeError::MissingStart) => start_of(graph_nodes(*graph)) is None,
            Err(MazeError::NoCycle) => start_of(graph_nodes(*graph)) is Some && main_loop(
                graph_nodes(*graph),
                graph_edges(*graph),
            ) is None,
            Err(MazeError::ParseError(_, _)) => false,
        },
{
    let start = match find_start(graph) {
        Some(s) => s,
        None => {
            return Err(MazeError::MissingStart);
        },
    };
    let there = match find_loop(graph, start) {
        Some(t) => t,
        None => {
            return Err(MazeError::NoCycle);
        },
    };
    proof {
        lemma_main_loop_is_chain(graph_nodes(*graph), graph_edges(*graph));
        lemma_return_trail(graph_nodes(*graph), graph_edges(*graph));
        let c = seq![start] + there@;
        assert(hop_ok(graph_nodes(*graph), c[there.len() - 1], c[there.len() as int]));
        assert(c[there.len() - 1] == there[there.len() - 2]);
    }
    let fuel = graph_node_count(graph) - 1;
    let back = follow(graph, start, there[there.len() - 2], fuel).unwrap();
    let forth_steps = there.len();
    let back_steps = back.len();
    Ok(forth_steps / 2 + back_steps / 2 + (forth_steps % 2 + back_steps % 2) / 2)
}

/// The number of grid cells that the main loop encloses. The walk goes round
/// the loop once, counts the nodes on it and adds up the shoelace terms of
/// its edges; Pick's theorem gives the interior from the area and that count.
pub fn count_interior_points(graph: &PipeGraph) -> (r: Result<i64, MazeError>)
    ensures
        match r {
            Ok(inside) => main_loop(graph_nodes(*graph), graph_edges(*graph)) is Some && inside
                == interior_points(graph_nodes(*graph), graph_edges(*graph)),
            Err(MazeError::MissingStart) => start_of(graph_nodes(*graph)) is None,
            Err(MazeError::NoCycle) => start_of(graph_nodes(*graph)) is Some && main_loop(
                graph_nodes(*graph),
                graph_edges(*graph),
            ) is None,
            Err(MazeError::ParseError(_, _)) => false,
        },
{
    let start = match find_start(graph) {
        Some(s) => s,
        None => {
            return Err(MazeError::MissingStart);
        },
    };
    let path = match find_loop(graph, start) {
        Some(t) => t,
        None => {
            return Err(MazeError::NoCycle);
        },
    };
    proof {
        lemma_main_loop_is_chain(graph_nodes(*graph), graph_edges(*graph));
    }
    let nodes = graph_node_count(graph);
    assert(path.len() <= nodes);
    let sum = loop_shoelace(graph, start, &path);
    Ok(interior_from(sum, path.len()))
}

} // verus!
