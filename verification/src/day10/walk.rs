use crate::day10::graph::graph_cell;
use crate::day10::graph::graph_edges;
use crate::day10::graph::graph_neighbors;
use crate::day10::graph::graph_node_count;
use crate::day10::graph::graph_nodes;
use crate::day10::graph::neighbors_of;
use crate::day10::graph::PipeGraph;
use crate::day10::Cell;
use crate::day10::Connections;
use vstd::prelude::*;

verus! {

/// The first node from index `from` on that carries the start symbol.
pub open spec fn first_start(nodes: Seq<Cell>, from: int) -> Option<usize>
    decreases nodes.len() - from,
{
    if from < 0 || from >= nodes.len() {
        None
    } else if nodes[from].connections == Connections::Start {
        Some(from as usize)
    } else {
        first_start(nodes, from + 1)
    }
}

/// The start node of a maze: the first node with the start symbol.
pub open spec fn start_of(nodes: Seq<Cell>) -> Option<usize> {
    first_start(nodes, 0)
}

/// Whether two cells lie one grid step apart.
pub open spec fn adjacent(a: Cell, b: Cell) -> bool {
    (a.row == b.row && (a.col + 1 == b.col || b.col + 1 == a.col)) || (a.col == b.col && (a.row
        + 1 == b.row || b.row + 1 == a.row))
}

/// Whether a walk may go from node `a` to node `b`: both exist and lie one
/// grid step apart.
pub open spec fn hop_ok(nodes: Seq<Cell>, a: usize, b: usize) -> bool {
    a < nodes.len() && b < nodes.len() && adjacent(nodes[a as int], nodes[b as int])
}

/// Where a walk that came from `prev` goes on from `cur`: `cur` must have
/// exactly two neighbours, `prev` and one other, and the walk takes the other.
pub open spec fn next_of(edges: Seq<(usize, usize)>, prev: usize, cur: usize) -> Option<usize> {
    let nb = neighbors_of(edges, cur);
    if nb.len() == 2 && nb[0] != nb[1] && (nb[0] == prev || nb[1] == prev) {
        Some(
            if nb[0] == prev {
                nb[1]
            } else {
                nb[0]
            },
        )
    } else {
        None
    }
}

/// The nodes that a walk visits which has just gone from `prev` to `cur` and
/// follows the pipe until it reaches `start`: from `cur` up to `start`, both
/// included. There is none when a hop is no grid step, when the pipe ends or
/// forks before `start`, or when more than `fuel` hops would follow.
pub open spec fn trail(
    nodes: Seq<Cell>,
    edges: Seq<(usize, usize)>,
    start: usize,
    prev: usize,
    cur: usize,
    fuel: nat,
) -> Option<Seq<usize>>
    decreases fuel,
{
    if !hop_ok(nodes, prev, cur) {
        None
    } else if cur == start {
        Some(seq![start])
    } else if fuel == 0 {
        None
    } else {
        match next_of(edges, prev, cur) {
            None => None,
            Some(next) => match trail(nodes, edges, start, cur, next, (fuel - 1) as nat) {
                None => None,
                Some(rest) => Some(seq![cur] + rest),
            },
        }
    }
}

/// The number of hops that a walk may make after its first one: a walk that
/// visits no node twice needs no more.
pub open spec fn walk_fuel(nodes: Seq<Cell>) -> nat {
    if nodes.len() == 0 {
        0
    } else {
        (nodes.len() - 1) as nat
    }
}

/// The trail of the first of the candidates from index `k` on whose walk
/// comes back to `start`.
pub open spec fn first_loop(
    nodes: Seq<Cell>,
    edges: Seq<(usize, usize)>,
    start: usize,
    candidates: Seq<usize>,
    k: int,
) -> Option<Seq<usize>>
    decreases candidates.len() - k,
{
    if k < 0 || k >= candidates.len() {
        None
    } else {
        match trail(nodes, edges, start, start, candidates[k], walk_fuel(nodes)) {
            Some(t) => Some(t),
            None => first_loop(nodes, edges, start, candidates, k + 1),
        }
    }
}

/// The main loop of a maze, as the walk in one direction visits it: the
/// nodes after the start, in order, ending with the start itself. The walk
/// leaves the start towards the first of its neighbours from which the pipe
/// leads back.
pub open spec fn main_loop(nodes: Seq<Cell>, edges: Seq<(usize, usize)>) -> Option<Seq<usize>> {
    match start_of(nodes) {
        None => None,
        Some(s) => first_loop(nodes, edges, s, neighbors_of(edges, s), 0),
    }
}

/// Finds the start node.
pub fn find_start(g: &PipeGraph) -> (r: Option<usize>)
    ensures
        r == start_of(graph_nodes(*g)),
        r is Some ==> r->0 < graph_nodes(*g).len(),
{
    let n = graph_node_count(g);
    let mut i: usize = 0;
    while i < n
        invariant
            n == graph_nodes(*g).len(),
            i <= n,
            start_of(graph_nodes(*g)) == first_start(graph_nodes(*g), i as int),
        decreases n - i,
    {
        let cell = graph_cell(g, i);
        if matches!(cell.connections, Connections::Start) {
            return Some(i);
        }
        i = i + 1;
    }
    None
}

fn is_adjacent(a: &Cell, b: &Cell) -> (r: bool)
    ensures
        r == adjacent(*a, *b),
{
    (a.row == b.row && ((b.col > 0 && a.col == b.col - 1) || (a.col > 0 && b.col == a.col - 1)))
        || (a.col == b.col && ((b.row > 0 && a.row == b.row - 1) || (a.row > 0 && b.row == a.row
        - 1)))
}

/// A trail, if there is one, with the nodes visited before it put in front.
pub open spec fn prepend(head: Seq<usize>, tail: Option<Seq<usize>>) -> Option<Seq<usize>> {
    match tail {
        Some(t) => Some(head + t),
        None => None,
    }
}

/// Follows the pipe from `first`, a neighbour of `start`, until it comes back
/// to `start`, and returns the nodes it visited.
pub fn follow(g: &PipeGraph, start: usize, first: usize, fuel: usize) -> (r: Option<Vec<usize>>)
    requires
        start < graph_nodes(*g).len(),
        first < graph_nodes(*g).len(),
    ensures
        match r {
            Some(path) => trail(
                graph_nodes(*g),
                graph_edges(*g),
                start,
                start,
                first,
                fuel as nat,
            ) == Some(path@),
            None => trail(graph_nodes(*g), graph_edges(*g), start, start, first, fuel as nat)
                is None,
        },
{
    let ghost nodes = graph_nodes(*g);
    let ghost edges = graph_edges(*g);
    let ghost whole = trail(nodes, edges, start, start, first, fuel as nat);
    let mut path: Vec<usize> = Vec::new();
    let mut prev = start;
    let mut cur = first;
    let mut left = fuel;
    assert(Seq::<usize>::empty() + whole->0 =~= whole->0);
    loop
        invariant
            nodes == graph_nodes(*g),
            edges == graph_edges(*g),
            prev < nodes.len(),
            cur < nodes.len(),
            whole == trail(nodes, edges, start, start, first, fuel as nat),
            whole == prepend(path@, trail(nodes, edges, start, prev, cur, left as nat)),
        decreases left,
    {
        let from = graph_cell(g, prev);
        let here = graph_cell(g, cur);
        if !is_adjacent(&from, &here) {
            return None;
        }
        if cur == start {
            assert(path@.push(start) =~= path@ + seq![start]);
            path.push(start);
            return Some(path);
        }
        if left == 0 {
            return None;
        }
        let nb = graph_neighbors(g, cur);
        if nb.len() != 2 || nb[0] == nb[1] {
            return None;
        }
        let next = if nb[0] == prev {
            nb[1]
        } else if nb[1] == prev {
            nb[0]
        } else {
            return None;
        };
        proof {
            let rest = trail(nodes, edges, start, cur, next, (left - 1) as nat);
            if rest is Some {
                assert(path@.push(cur) + rest->0 =~= path@ + (seq![cur] + rest->0));
            }
        }
        path.push(cur);
        prev = cur;
        cur = next;
        left = left - 1;
    }
}

/// Walks the main loop once and returns the nodes after the start, ending
/// with the start.
pub fn find_loop(g: &PipeGraph, start: usize) -> (r: Option<Vec<usize>>)
    requires
        start_of(graph_nodes(*g)) == Some(start),
        start < graph_nodes(*g).len(),
    ensures
        match r {
            Some(path) => main_loop(graph_nodes(*g), graph_edges(*g)) == Some(path@),
            None => main_loop(graph_nodes(*g), graph_edges(*g)) is None,
        },
{
    let n = graph_node_count(g);
    let fuel = n - 1;
    let candidates = graph_neighbors(g, start);
    let mut k: usize = 0;
    while k < candidates.len()
        invariant
            start < graph_nodes(*g).len(),
            fuel == walk_fuel(graph_nodes(*g)),
            candidates@ == neighbors_of(graph_edges(*g), start),
            forall|i: int| 0 <= i < candidates.len() ==> candidates[i] < graph_nodes(*g).len(),
            k <= candidates.len(),
            main_loop(graph_nodes(*g), graph_edges(*g)) == first_loop(
                graph_nodes(*g),
                graph_edges(*g),
                start,
                candidates@,
                k as int,
            ),
        decreases candidates.len() - k,
    {
        match follow(g, start, candidates[k], fuel) {
            Some(path) => {
                return Some(path);
            },
            None => {},
        }
        k = k + 1;
    }
    None
}

} // verus!
