use crate::day10::chain::is_chain;
use crate::day10::graph::graph_cell;
use crate::day10::graph::graph_edges;
use crate::day10::graph::graph_nodes;
use crate::day10::graph::PipeGraph;
use crate::day10::walk::hop_ok;
use crate::day10::walk::main_loop;
use crate::day10::walk::start_of;
use crate::day10::Cell;
use vstd::prelude::*;

verus! {

/// A point of the plane with whole coordinates.
pub struct Position {
    pub x: int,
    pub y: int,
}

/// Where a cell lies: its row is its x, its column its y.
pub open spec fn position_of(cell: Cell) -> Position {
    Position { x: cell.row as int, y: cell.col as int }
}

/// The shoelace term of the edge from `a` to `b`.
pub open spec fn cross(a: Position, b: Position) -> int {
    a.x * b.y - b.x * a.y
}

/// The sum of the shoelace terms along a path of nodes.
pub open spec fn shoelace_sum(nodes: Seq<Cell>, path: Seq<usize>) -> int
    decreases path.len(),
{
    if path.len() < 2 {
        0
    } else {
        shoelace_sum(nodes, path.drop_last()) + cross(
            position_of(nodes[path[path.len() - 2] as int]),
            position_of(nodes[path[path.len() - 1] as int]),
        )
    }
}

/// A number without its sign.
pub open spec fn magnitude(x: int) -> int {
    if x < 0 {
        -x
    } else {
        x
    }
}

/// The area that a closed path of nodes goes round.
pub open spec fn polygon_area(nodes: Seq<Cell>, path: Seq<usize>) -> int {
    magnitude(shoelace_sum(nodes, path)) / 2
}

/// Pick's theorem, solved for the number of lattice points inside a polygon
/// of the given area with the given number of lattice points on its boundary.
pub open spec fn pick_interior(area: int, boundary: int) -> int {
    area - boundary / 2 + 1
}

/// The number of nodes on the main loop: what the walk in one direction counts.
pub open spec fn boundary_points(nodes: Seq<Cell>, edges: Seq<(usize, usize)>) -> nat {
    match main_loop(nodes, edges) {
        Some(t) => t.len(),
        None => 0,
    }
}

/// The closed path of the main loop: from the start round to the start.
pub open spec fn loop_polygon(nodes: Seq<Cell>, edges: Seq<(usize, usize)>) -> Seq<usize> {
    match (start_of(nodes), main_loop(nodes, edges)) {
        (Some(s), Some(t)) => seq![s] + t,
        _ => Seq::empty(),
    }
}

/// The number of grid cells that the main loop encloses, by the shoelace
/// formula and Pick's theorem.
pub open spec fn interior_points(nodes: Seq<Cell>, edges: Seq<(usize, usize)>) -> int {
    pick_interior(
        polygon_area(nodes, loop_polygon(nodes, edges)),
        boundary_points(nodes, edges) as int,
    )
}

/// Adds up the shoelace terms along a loop that leaves `start`, visits
/// `path` and so comes back to `start`.
pub fn loop_shoelace(g: &PipeGraph, start: usize, path: &Vec<usize>) -> (sum: i128)
    requires
        is_chain(graph_nodes(*g), graph_edges(*g), start, seq![start] + path@),
        path.len() <= u32::MAX,
    ensures
        sum == shoelace_sum(graph_nodes(*g), seq![start] + path@),
        -(path.len() * path.len()) <= 2 * sum <= path.len() * path.len(),
{
    let ghost nodes = graph_nodes(*g);
    let ghost c = seq![start] + path@;
    let n = path.len();
    assert(hop_ok(nodes, c[0], c[1]));
    let origin = graph_cell(g, start);
    let ghost x0 = origin.row as int;
    let ghost y0 = origin.col as int;
    let mut here = origin;
    let mut acc: i128 = 0;
    let mut k: usize = 0;
    let ghost mut u: int = 0;
    let ghost mut v: int = 0;
    let ghost mut rel: int = 0;
    let ghost mut xv: int = 0;
    let ghost mut yu: int = 0;
    let ghost mut kk: int = 0;
    assert(c.take(1).len() < 2);
    while k < n
        invariant
            nodes == graph_nodes(*g),
            c == seq![start] + path@,
            n == path.len(),
            n <= u32::MAX,
            k <= n,
            c.len() == n + 1,
            forall|i: int| 0 <= i < c.len() - 1 ==> hop_ok(nodes, #[trigger] c[i], c[i + 1]),
            start < nodes.len(),
            x0 == nodes[start as int].row,
            y0 == nodes[start as int].col,
            here == nodes[c[k as int] as int],
            acc == shoelace_sum(nodes, c.take(k + 1)),
            u == here.row - x0,
            v == here.col - y0,
            -k <= u + v <= k,
            -k <= u - v <= k,
            xv == x0 * v,
            yu == y0 * u,
            -(k * 0x1_0000_0000_0000_0000) <= xv <= k * 0x1_0000_0000_0000_0000,
            -(k * 0x1_0000_0000_0000_0000) <= yu <= k * 0x1_0000_0000_0000_0000,
            acc == rel + xv - yu,
            kk == k * k,
            0 <= kk <= k * 0x2_0000_0000,
            -kk <= 2 * rel <= kk,
        decreases n - k,
    {
        assert(hop_ok(nodes, c[k as int], c[k + 1]));
        assert(c[k + 1] == path[k as int]);
        let there = graph_cell(g, path[k]);
        let ghost x = here.row as int;
        let ghost y = here.col as int;
        proof {
            let longer = c.take(k + 2);
            assert(longer.drop_last() =~= c.take(k + 1));
            assert(longer[longer.len() - 2] == c[k as int]);
            assert(longer[longer.len() - 1] == c[k + 1]);
            assert(shoelace_sum(nodes, longer) == acc + cross(
                position_of(here),
                position_of(there),
            ));
            assert((k + 1) * (k + 1) == k * k + 2 * k + 1) by (nonlinear_arith);
        }
        let term: i128 = if here.row == there.row {
            if there.col > here.col {
                proof {
                    assert(x * (y + 1) - x * y == x) by (nonlinear_arith);
                    assert(x0 * (v + 1) == x0 * v + x0) by (nonlinear_arith);
                    rel = rel + u;
                    v = v + 1;
                    xv = xv + x0;
                }
                here.row as i128
            } else {
                proof {
                    assert(x * (y - 1) - x * y == -x) by (nonlinear_arith);
                    assert(x0 * (v - 1) == x0 * v - x0) by (nonlinear_arith);
                    rel = rel - u;
                    v = v - 1;
                    xv = xv - x0;
                }
                -(here.row as i128)
            }
        } else {
            if there.row > here.row {
                proof {
                    assert(x * y - (x + 1) * y == -y) by (nonlinear_arith);
                    assert(y0 * (u + 1) == y0 * u + y0) by (nonlinear_arith);
                    rel = rel - v;
                    u = u + 1;
                    yu = yu + y0;
                }
                -(here.col as i128)
            } else {
                proof {
                    assert(x * y - (x - 1) * y == y) by (nonlinear_arith);
                    assert(y0 * (u - 1) == y0 * u - y0) by (nonlinear_arith);
                    rel = rel + v;
                    u = u - 1;
                    yu = yu - y0;
                }
                here.col as i128
            }
        };
        assert(term == cross(position_of(here), position_of(there)));
        acc = acc + term;
        here = there;
        k = k + 1;
        proof {
            kk = kk + 2 * (k - 1) + 1;
        }
    }
    proof {
        assert(c.take(n + 1) =~= c);
        assert(c[n as int] == c.last());
        assert(u == 0 && v == 0);
        assert(x0 * 0 == 0) by (nonlinear_arith);
        assert(y0 * 0 == 0) by (nonlinear_arith);
    }
    acc
}

/// The interior count of a loop over `boundary` nodes whose shoelace terms
/// add up to `sum`.
pub fn interior_from(sum: i128, boundary: usize) -> (inside: i64)
    requires
        boundary <= u32::MAX,
        -(boundary * boundary) <= 2 * sum <= boundary * boundary,
    ensures
        inside == pick_interior(magnitude(sum as int) / 2, boundary as int),
{
    assert(boundary * boundary <= 0xffff_ffff * 0xffff_ffff) by (nonlinear_arith)
        requires
            boundary <= 0xffff_ffff,
    ;
    let twice: i128 = if sum < 0 {
        -sum
    } else {
        sum
    };
    let area: i64 = (twice / 2) as i64;
    let half: i64 = (boundary / 2) as i64;
    area - half + 1
}

} // verus!
