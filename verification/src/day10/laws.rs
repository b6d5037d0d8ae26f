use crate::day10::area::boundary_points;
use crate::day10::area::cross;
use crate::day10::area::loop_polygon;
use crate::day10::area::magnitude;
use crate::day10::area::polygon_area;
use crate::day10::area::position_of;
use crate::day10::area::shoelace_sum;
use crate::day10::builder::edges_upto;
use crate::day10::builder::first_link;
use crate::day10::builder::lemma_first_link_in_range;
use crate::day10::builder::links;
use crate::day10::builder::maze_edges;
use crate::day10::builder::neighbor_at;
use crate::day10::builder::probe;
use crate::day10::builder::with_node;
use crate::day10::builder::with_probe;
use crate::day10::chain::is_chain;
use crate::day10::chain::lemma_chain_is_simple;
use crate::day10::chain::lemma_first_start_in_range;
use crate::day10::chain::lemma_neighbors_are_joined;
use crate::day10::chain::lemma_main_loop_is_chain;
use crate::day10::graph::graph_edges;
use crate::day10::graph::graph_nodes;
use crate::day10::graph::has_edge;
use crate::day10::graph::incoming;
use crate::day10::graph::neighbors_of;
use crate::day10::graph::outgoing;
use crate::day10::graph::PipeGraph;
use crate::day10::cells_of;
use crate::day10::is_maze_of;
use crate::day10::lemma_return_trail;
use crate::day10::length_walk_steps;
use crate::day10::opens;
use crate::day10::opposite;
use crate::day10::scan;
use crate::day10::symbol_of;
use crate::day10::walk::first_start;
use crate::day10::walk::hop_ok;
use crate::day10::walk::main_loop;
use crate::day10::walk::next_of;
use crate::day10::walk::start_of;
use crate::day10::Cell;
use crate::day10::Connections;
use crate::day10::Direction;
use vstd::prelude::*;

verus! {

/// The steps that the length walk counts are twice the nodes that the area
/// walk visits: the length walk goes round the main loop in both directions,
/// the area walk in one. So the length of the loop, half of those steps, is
/// the number of nodes on it.
pub proof fn lemma_length_walk_counts_boundary_twice(
    nodes: Seq<Cell>,
    edges: Seq<(usize, usize)>,
)
    requires
        main_loop(nodes, edges) is Some,
    ensures
        length_walk_steps(nodes, edges) == 2 * boundary_points(nodes, edges),
        length_walk_steps(nodes, edges) / 2 == boundary_points(nodes, edges),
{
    lemma_return_trail(nodes, edges);
}

/// The main loop is a simple cycle of the graph through the start: from the
/// start round to the start, every node is joined by an edge to the one
/// before it and lies one grid step from it, and no node comes twice.
pub proof fn lemma_main_loop_is_simple_cycle(nodes: Seq<Cell>, edges: Seq<(usize, usize)>)
    requires
        main_loop(nodes, edges) is Some,
    ensures
        start_of(nodes) is Some,
        loop_polygon(nodes, edges).len() == boundary_points(nodes, edges) + 1,
        loop_polygon(nodes, edges)[0] == start_of(nodes)->0,
        loop_polygon(nodes, edges).last() == start_of(nodes)->0,
        forall|i: int|
            0 <= i < boundary_points(nodes, edges) ==> has_edge(
                edges,
                #[trigger] loop_polygon(nodes, edges)[i],
                loop_polygon(nodes, edges)[i + 1],
            ) && hop_ok(nodes, loop_polygon(nodes, edges)[i], loop_polygon(nodes, edges)[i + 1]),
        forall|i: int, j: int|
            0 <= i < j < boundary_points(nodes, edges) ==> #[trigger] loop_polygon(nodes, edges)[i]
                != #[trigger] loop_polygon(nodes, edges)[j],
{
    lemma_main_loop_is_chain(nodes, edges);
    let s = start_of(nodes)->0;
    let c = loop_polygon(nodes, edges);
    let n = boundary_points(nodes, edges) as int;
    assert(c[0] == s);
    assert(is_chain(nodes, edges, s, c));
    assert forall|i: int| 0 <= i < n implies has_edge(edges, #[trigger] c[i], c[i + 1]) && hop_ok(
        nodes,
        c[i],
        c[i + 1],
    ) by {
        assert(hop_ok(nodes, c[i], c[i + 1]));
        if i == 0 {
            assert(c[1] == main_loop(nodes, edges)->0[0]);
            lemma_neighbors_are_joined(edges, s, c[1]);
        } else {
            assert(next_of(edges, c[i - 1], c[i]) == Some(c[i + 1]));
            let nb = neighbors_of(edges, c[i]);
            assert(nb[0] == c[i + 1] || nb[1] == c[i + 1]);
            lemma_neighbors_are_joined(edges, c[i], c[i + 1]);
        }
    }
    assert forall|i: int, j: int| 0 <= i < j < n implies #[trigger] c[i] != #[trigger] c[j] by {
        if i == 0 {
            assert(c[j] != s);
        } else {
            lemma_chain_is_simple(nodes, edges, s, c, i, j);
        }
    }
}

/// Along a path of grid steps the shoelace sum differs by an even number from
/// the product of the last node's coordinates less that of the first's.
pub proof fn lemma_shoelace_parity(nodes: Seq<Cell>, path: Seq<usize>)
    requires
        path.len() >= 1,
        path[0] < nodes.len(),
        forall|i: int| 0 <= i < path.len() - 1 ==> hop_ok(nodes, #[trigger] path[i], path[i + 1]),
    ensures
        (shoelace_sum(nodes, path) - (nodes[path.last() as int].row * nodes[path.last() as int].col
            - nodes[path[0] as int].row * nodes[path[0] as int].col)) % 2 == 0,
    decreases path.len(),
{
    if path.len() >= 2 {
        let shorter = path.drop_last();
        assert forall|i: int| 0 <= i < shorter.len() - 1 implies hop_ok(
            nodes,
            #[trigger] shorter[i],
            shorter[i + 1],
        ) by {
            assert(hop_ok(nodes, path[i], path[i + 1]));
        }
        lemma_shoelace_parity(nodes, shorter);
        let k = path.len() - 2;
        assert(hop_ok(nodes, path[k], path[k + 1]));
        let p = nodes[path[k] as int];
        let q = nodes[path[k + 1] as int];
        assert(shorter.last() == path[k]);
        assert(shorter[0] == path[0]);
        let x = p.row as int;
        let y = p.col as int;
        let before = shoelace_sum(nodes, shorter) - (x * y - nodes[path[0] as int].row
            * nodes[path[0] as int].col);
        let step = cross(position_of(p), position_of(q)) - (q.row * q.col - x * y);
        assert(step == 0 || step == 2 * y || step == -2 * y) by (nonlinear_arith)
            requires
                step == x * q.col - q.row * y - (q.row * q.col - x * y),
                (q.row == x && (q.col == y + 1 || q.col == y - 1)) || (q.col == y && (q.row == x
                    + 1 || q.row == x - 1)),
        ;
        assert(shoelace_sum(nodes, path) - (q.row * q.col - nodes[path[0] as int].row
            * nodes[path[0] as int].col) == before + step);
    }
}

/// Along a path of grid steps, the row and the column of the last node add
/// up to what those of the first add up to, but for a number that is even
/// or odd as the number of steps is.
pub proof fn lemma_steps_parity(nodes: Seq<Cell>, path: Seq<usize>)
    requires
        path.len() >= 1,
        path[0] < nodes.len(),
        forall|i: int| 0 <= i < path.len() - 1 ==> hop_ok(nodes, #[trigger] path[i], path[i + 1]),
    ensures
        (nodes[path.last() as int].row + nodes[path.last() as int].col - nodes[path[0] as int].row
            - nodes[path[0] as int].col - (path.len() - 1)) % 2 == 0,
    decreases path.len(),
{
    if path.len() >= 2 {
        let shorter = path.drop_last();
        assert forall|i: int| 0 <= i < shorter.len() - 1 implies hop_ok(
            nodes,
            #[trigger] shorter[i],
            shorter[i + 1],
        ) by {
            assert(hop_ok(nodes, path[i], path[i + 1]));
        }
        lemma_steps_parity(nodes, shorter);
        let k = path.len() - 2;
        assert(hop_ok(nodes, path[k], path[k + 1]));
        assert(shorter.last() == path[k]);
        assert(shorter[0] == path[0]);
    }
}

/// The main loop has an even number of nodes, so halving their number
/// loses nothing.
pub proof fn lemma_loop_length_is_even(nodes: Seq<Cell>, edges: Seq<(usize, usize)>)
    requires
        main_loop(nodes, edges) is Some,
    ensures
        boundary_points(nodes, edges) % 2 == 0,
{
    let c = loop_polygon(nodes, edges);
    assert(c.len() >= 1 && c[0] == c.last() && c[0] < nodes.len() && (forall|i: int|
        0 <= i < c.len() - 1 ==> hop_ok(nodes, #[trigger] c[i], c[i + 1]))) by {
        lemma_main_loop_is_chain(nodes, edges);
        assert(c[0] == start_of(nodes)->0);
        assert(hop_ok(nodes, c[0], c[1]));
    }
    lemma_steps_parity(nodes, c);
}

proof fn lemma_half_of_even(m: int)
    requires
        m % 2 == 0,
    ensures
        2 * (magnitude(m) / 2) == magnitude(m),
        magnitude(m) / 2 >= 0,
{
}

/// The shoelace sum round the main loop is even, so halving it loses nothing:
/// the area that the loop encloses is a whole number, and it is not negative.
pub proof fn lemma_loop_area_is_whole(nodes: Seq<Cell>, edges: Seq<(usize, usize)>)
    requires
        main_loop(nodes, edges) is Some,
    ensures
        shoelace_sum(nodes, loop_polygon(nodes, edges)) % 2 == 0,
        2 * polygon_area(nodes, loop_polygon(nodes, edges)) == magnitude(
            shoelace_sum(nodes, loop_polygon(nodes, edges)),
        ),
        polygon_area(nodes, loop_polygon(nodes, edges)) >= 0,
{
    let c = loop_polygon(nodes, edges);
    assert(c.len() >= 1 && c[0] == c.last() && c[0] < nodes.len() && (forall|i: int|
        0 <= i < c.len() - 1 ==> hop_ok(nodes, #[trigger] c[i], c[i + 1]))) by {
        lemma_main_loop_is_chain(nodes, edges);
        assert(c[0] == start_of(nodes)->0);
        assert(hop_ok(nodes, c[0], c[1]));
    }
    lemma_shoelace_parity(nodes, c);
    lemma_half_of_even(shoelace_sum(nodes, c));
}

/// Two graphs built from the same text have the same nodes and the same
/// edges, in the same order.
pub proof fn lemma_rebuild_is_identical(first: PipeGraph, second: PipeGraph, text: Seq<char>)
    requires
        is_maze_of(first, text),
        is_maze_of(second, text),
    ensures
        graph_nodes(first) == graph_nodes(second),
        graph_edges(first) == graph_edges(second),
{
}

/// Whether cell `a`, probing one of the four directions, connects to `b`.
pub open spec fn probes_to(cells: Seq<Cell>, a: int, b: usize, start_fits_all: bool) -> bool {
    ||| probe(cells, a, Direction::North, start_fits_all) == Some(b)
    ||| probe(cells, a, Direction::South, start_fits_all) == Some(b)
    ||| probe(cells, a, Direction::West, start_fits_all) == Some(b)
    ||| probe(cells, a, Direction::East, start_fits_all) == Some(b)
}

/// Whether two cells are connected: one of them, probing, connects to the other.
pub open spec fn connected(cells: Seq<Cell>, a: usize, b: usize, start_fits_all: bool) -> bool {
    probes_to(cells, a as int, b, start_fits_all) || probes_to(cells, b as int, a, start_fits_all)
}

/// Every edge was found by the probe of one of the first `k` cells.
pub open spec fn edges_sound(
    cells: Seq<Cell>,
    edges: Seq<(usize, usize)>,
    k: int,
    start_fits_all: bool,
) -> bool {
    forall|i: int|
        0 <= i < edges.len() ==> (#[trigger] edges[i]).0 < k && edges[i].1 < cells.len()
            && probes_to(cells, edges[i].0 as int, edges[i].1, start_fits_all)
}

/// Whatever one of the first `k` cells connects to is joined to it.
pub open spec fn edges_complete(
    cells: Seq<Cell>,
    edges: Seq<(usize, usize)>,
    k: int,
    start_fits_all: bool,
) -> bool {
    forall|a: int, b: usize|
        0 <= a < k && #[trigger] probes_to(cells, a, b, start_fits_all) ==> has_edge(
            edges,
            a as usize,
            b,
        )
}

/// No two edges join the same pair of nodes.
pub open spec fn edges_distinct(edges: Seq<(usize, usize)>) -> bool {
    forall|i: int, j: int|
        0 <= i < j < edges.len() ==> #[trigger] edges[i] != #[trigger] edges[j] && edges[i] != (
            edges[j].1,
            edges[j].0,
        )
}

proof fn lemma_push_keeps_edges(edges: Seq<(usize, usize)>, e: (usize, usize), a: usize, b: usize)
    requires
        has_edge(edges, a, b),
    ensures
        has_edge(edges.push(e), a, b),
{
    let i = choose|i: int| 0 <= i < edges.len() && (#[trigger] edges[i] == (a, b) || edges[i] == (b, a));
    assert(edges.push(e)[i] == edges[i]);
}

proof fn lemma_probe_step(
    cells: Seq<Cell>,
    edges: Seq<(usize, usize)>,
    a: int,
    d: Direction,
    start_fits_all: bool,
)
    requires
        0 <= a < cells.len() <= usize::MAX,
        edges_sound(cells, edges, a + 1, start_fits_all),
        edges_distinct(edges),
    ensures
        edges_sound(cells, with_probe(cells, edges, a, d, start_fits_all), a + 1, start_fits_all),
        edges_distinct(with_probe(cells, edges, a, d, start_fits_all)),
        forall|x: usize, y: usize| #[trigger]
            has_edge(edges, x, y) ==> has_edge(
                with_probe(cells, edges, a, d, start_fits_all),
                x,
                y,
            ),
        probe(cells, a, d, start_fits_all) is Some ==> has_edge(
            with_probe(cells, edges, a, d, start_fits_all),
            a as usize,
            probe(cells, a, d, start_fits_all)->0,
        ),
{
    let after = with_probe(cells, edges, a, d, start_fits_all);
    lemma_first_link_in_range(cells, a, d, start_fits_all, 0);
    match probe(cells, a, d, start_fits_all) {
        Some(b) => {
            if !has_edge(edges, a as usize, b) {
                let e = (a as usize, b);
                assert(after == edges.push(e));
                assert(after[edges.len() as int] == e);
                assert forall|i: int| 0 <= i < after.len() implies (#[trigger] after[i]).0 < a + 1
                    && after[i].1 < cells.len() && probes_to(
                    cells,
                    after[i].0 as int,
                    after[i].1,
                    start_fits_all,
                ) by {
                    if i < edges.len() {
                        assert(after[i] == edges[i]);
                    }
                }
                assert forall|i: int, j: int| 0 <= i < j < after.len() implies #[trigger] after[i]
                    != #[trigger] after[j] && after[i] != (after[j].1, after[j].0) by {
                    assert(after[i] == edges[i]);
                    if j < edges.len() {
                        assert(after[j] == edges[j]);
                    } else {
                        assert(after[j] == e);
                        if edges[i] == e || edges[i] == (e.1, e.0) {
                            assert(has_edge(edges, a as usize, b));
                        }
                    }
                }
                assert forall|x: usize, y: usize| #[trigger] has_edge(edges, x, y) implies has_edge(
                    after,
                    x,
                    y,
                ) by {
                    lemma_push_keeps_edges(edges, e, x, y);
                }
            }
        },
        None => {},
    }
}

proof fn lemma_node_step(
    cells: Seq<Cell>,
    edges: Seq<(usize, usize)>,
    a: int,
    start_fits_all: bool,
)
    requires
        0 <= a < cells.len() <= usize::MAX,
        edges_sound(cells, edges, a, start_fits_all),
        edges_complete(cells, edges, a, start_fits_all),
        edges_distinct(edges),
    ensures
        edges_sound(cells, with_node(cells, edges, a, start_fits_all), a + 1, start_fits_all),
        edges_complete(cells, with_node(cells, edges, a, start_fits_all), a + 1, start_fits_all),
        edges_distinct(with_node(cells, edges, a, start_fits_all)),
{
    let n = with_probe(cells, edges, a, Direction::North, start_fits_all);
    let s = with_probe(cells, n, a, Direction::South, start_fits_all);
    let w = with_probe(cells, s, a, Direction::West, start_fits_all);
    let e = with_probe(cells, w, a, Direction::East, start_fits_all);
    lemma_probe_step(cells, edges, a, Direction::North, start_fits_all);
    lemma_probe_step(cells, n, a, Direction::South, start_fits_all);
    lemma_probe_step(cells, s, a, Direction::West, start_fits_all);
    lemma_probe_step(cells, w, a, Direction::East, start_fits_all);
    assert forall|x: int, b: usize| 0 <= x < a + 1 && #[trigger] probes_to(
        cells,
        x,
        b,
        start_fits_all,
    ) implies has_edge(e, x as usize, b) by {
        if x < a {
            assert(has_edge(edges, x as usize, b));
            assert(has_edge(n, x as usize, b));
            assert(has_edge(s, x as usize, b));
            assert(has_edge(w, x as usize, b));
        } else {
            if probe(cells, a, Direction::North, start_fits_all) == Some(b) {
                assert(has_edge(n, x as usize, b));
                assert(has_edge(s, x as usize, b));
                assert(has_edge(w, x as usize, b));
            } else if probe(cells, a, Direction::South, start_fits_all) == Some(b) {
                assert(has_edge(s, x as usize, b));
                assert(has_edge(w, x as usize, b));
            } else if probe(cells, a, Direction::West, start_fits_all) == Some(b) {
                assert(has_edge(w, x as usize, b));
            }
        }
    }
}

proof fn lemma_edges_upto(cells: Seq<Cell>, k: nat, start_fits_all: bool)
    requires
        k <= cells.len() <= usize::MAX,
    ensures
        edges_sound(cells, edges_upto(cells, k, start_fits_all), k as int, start_fits_all),
        edges_complete(cells, edges_upto(cells, k, start_fits_all), k as int, start_fits_all),
        edges_distinct(edges_upto(cells, k, start_fits_all)),
    decreases k,
{
    if k > 0 {
        lemma_edges_upto(cells, (k - 1) as nat, start_fits_all);
        lemma_node_step(
            cells,
            edges_upto(cells, (k - 1) as nat, start_fits_all),
            k - 1,
            start_fits_all,
        );
    }
}

/// The edges of a maze are exactly its connections: two cells are joined if
/// and only if one of them, probing, connects to the other; both ends of an
/// edge are cells; and no two edges join the same pair, whichever side found
/// the connection.
pub proof fn lemma_edges_are_the_connections(cells: Seq<Cell>, start_fits_all: bool)
    requires
        cells.len() <= usize::MAX,
    ensures
        forall|a: usize, b: usize|
            a < cells.len() && b < cells.len() ==> (#[trigger] has_edge(
                maze_edges(cells, start_fits_all),
                a,
                b,
            ) <==> connected(cells, a, b, start_fits_all)),
        forall|i: int|
            0 <= i < maze_edges(cells, start_fits_all).len() ==> (#[trigger] maze_edges(
                cells,
                start_fits_all,
            )[i]).0 < cells.len() && maze_edges(cells, start_fits_all)[i].1 < cells.len(),
        edges_distinct(maze_edges(cells, start_fits_all)),
{
    let edges = maze_edges(cells, start_fits_all);
    lemma_edges_upto(cells, cells.len(), start_fits_all);
    assert forall|a: usize, b: usize| a < cells.len() && b < cells.len() implies (#[trigger] has_edge(
        edges,
        a,
        b,
    ) <==> connected(cells, a, b, start_fits_all)) by {
        if has_edge(edges, a, b) {
            let i = choose|i: int|
                0 <= i < edges.len() && (#[trigger] edges[i] == (a, b) || edges[i] == (b, a));
            assert(probes_to(cells, edges[i].0 as int, edges[i].1, start_fits_all));
        }
        if probes_to(cells, a as int, b, start_fits_all) {
            assert(has_edge(edges, a, b));
        }
        if probes_to(cells, b as int, a, start_fits_all) {
            assert(has_edge(edges, b, a));
            let i = choose|i: int|
                0 <= i < edges.len() && (#[trigger] edges[i] == (b, a) || edges[i] == (a, b));
            assert(edges[i] == (a, b) || edges[i] == (b, a));
        }
    }
}

/// Every edge of a maze joins two cells that lie one grid step apart, and
/// the pipe of the cell that found it points at the other.
pub proof fn lemma_edges_are_grid_steps(cells: Seq<Cell>, start_fits_all: bool)
    requires
        cells.len() <= usize::MAX,
    ensures
        forall|i: int|
            0 <= i < maze_edges(cells, start_fits_all).len() ==> hop_ok(
                cells,
                (#[trigger] maze_edges(cells, start_fits_all)[i]).0,
                maze_edges(cells, start_fits_all)[i].1,
            ),
{
    let edges = maze_edges(cells, start_fits_all);
    lemma_edges_upto(cells, cells.len(), start_fits_all);
    assert forall|i: int| 0 <= i < edges.len() implies hop_ok(
        cells,
        (#[trigger] edges[i]).0,
        edges[i].1,
    ) by {
        let a = edges[i].0 as int;
        lemma_first_link_in_range(cells, a, Direction::North, start_fits_all, 0);
        lemma_first_link_in_range(cells, a, Direction::South, start_fits_all, 0);
        lemma_first_link_in_range(cells, a, Direction::West, start_fits_all, 0);
        lemma_first_link_in_range(cells, a, Direction::East, start_fits_all, 0);
    }
}

/// Ground is never joined to anything, and the start never probes: the
/// first end of every edge of a maze is a pipe, and its second end is a
/// pipe too, or the start where the start fits every pipe.
pub proof fn lemma_edges_join_pipes(cells: Seq<Cell>, start_fits_all: bool)
    requires
        cells.len() <= usize::MAX,
    ensures
        forall|i: int|
            0 <= i < maze_edges(cells, start_fits_all).len() ==> {
                let e = #[trigger] maze_edges(cells, start_fits_all)[i];
                &&& cells[e.0 as int].connections != Connections::Ground
                &&& cells[e.0 as int].connections != Connections::Start
                &&& cells[e.1 as int].connections != Connections::Ground
                &&& cells[e.1 as int].connections == Connections::Start ==> start_fits_all
            },
{
    let edges = maze_edges(cells, start_fits_all);
    lemma_edges_upto(cells, cells.len(), start_fits_all);
    assert forall|i: int| 0 <= i < edges.len() implies {
        let e = #[trigger] edges[i];
        &&& cells[e.0 as int].connections != Connections::Ground
        &&& cells[e.0 as int].connections != Connections::Start
        &&& cells[e.1 as int].connections != Connections::Ground
        &&& cells[e.1 as int].connections == Connections::Start ==> start_fits_all
    } by {
        let a = edges[i].0 as int;
        lemma_first_link_in_range(cells, a, Direction::North, start_fits_all, 0);
        lemma_first_link_in_range(cells, a, Direction::South, start_fits_all, 0);
        lemma_first_link_in_range(cells, a, Direction::West, start_fits_all, 0);
        lemma_first_link_in_range(cells, a, Direction::East, start_fits_all, 0);
    }
}

proof fn lemma_untouched_node_has_no_neighbors(edges: Seq<(usize, usize)>, a: usize)
    requires
        forall|i: int| 0 <= i < edges.len() ==> (#[trigger] edges[i]).0 != a && edges[i].1 != a,
    ensures
        neighbors_of(edges, a) =~= Seq::<usize>::empty(),
        outgoing(edges, a) =~= Seq::<usize>::empty(),
        incoming(edges, a) =~= Seq::<usize>::empty(),
    decreases edges.len(),
{
    if edges.len() > 0 {
        let older = edges.drop_last();
        assert forall|i: int| 0 <= i < older.len() implies (#[trigger] older[i]).0 != a
            && older[i].1 != a by {
            assert(older[i] == edges[i]);
        }
        lemma_untouched_node_has_no_neighbors(older, a);
        assert(edges.last() == edges[edges.len() - 1]);
    }
}

/// When the start does not count as fitting every pipe, no edge reaches a
/// start cell, so no walk leaves the start and no maze has a main loop:
/// that the start fits every direction is what the loop rests on.
pub proof fn lemma_no_loop_unless_start_fits(cells: Seq<Cell>)
    requires
        cells.len() <= usize::MAX,
    ensures
        main_loop(cells, maze_edges(cells, false)) is None,
{
    let edges = maze_edges(cells, false);
    if start_of(cells) is Some {
        let s = start_of(cells)->0;
        lemma_first_start_in_range(cells, 0);
        lemma_start_has_symbol(cells, 0);
        lemma_edges_upto(cells, cells.len(), false);
        assert forall|i: int| 0 <= i < edges.len() implies (#[trigger] edges[i]).0 != s
            && edges[i].1 != s by {
            let a = edges[i].0 as int;
            lemma_first_link_in_range(cells, a, Direction::North, false, 0);
            lemma_first_link_in_range(cells, a, Direction::South, false, 0);
            lemma_first_link_in_range(cells, a, Direction::West, false, 0);
            lemma_first_link_in_range(cells, a, Direction::East, false, 0);
        }
        lemma_untouched_node_has_no_neighbors(edges, s);
    }
}

proof fn lemma_start_has_symbol(nodes: Seq<Cell>, from: int)
    requires
        nodes.len() <= usize::MAX,
    ensures
        first_start(nodes, from) is Some ==> nodes[first_start(
            nodes,
            from,
        )->0 as int].connections == Connections::Start,
    decreases nodes.len() - from,
{
    if 0 <= from < nodes.len() {
        lemma_start_has_symbol(nodes, from + 1);
    }
}

/// Whether two cells stand in the same place.
pub open spec fn same_place(a: Cell, b: Cell) -> bool {
    a.row == b.row && a.col == b.col
}

/// Whether every cell has a place of its own.
pub open spec fn places_distinct(cells: Seq<Cell>) -> bool {
    forall|i: int, j: int|
        0 <= i < cells.len() && 0 <= j < cells.len() && i != j ==> !same_place(
            #[trigger] cells[i],
            #[trigger] cells[j],
        )
}

/// Whether a pipe of this shape can be joined on its side towards `d`: it
/// has an open end there, or it is the start.
pub open spec fn fits(sym: Connections, d: Direction) -> bool {
    sym == Connections::Start || opens(sym, d)
}

/// Whether `b` lies one step from `a` in direction `d` and the two are
/// compatible: each can be joined on its side towards the other, and they are
/// not both the start, which never probes.
pub open spec fn compatible(a: Cell, b: Cell, d: Direction) -> bool {
    &&& neighbor_at(a, b, d)
    &&& fits(a.connections, d)
    &&& fits(b.connections, opposite(d))
    &&& !(a.connections == Connections::Start && b.connections == Connections::Start)
}

/// Whether two cells are compatible in one of the four directions.
pub open spec fn compatible_cells(a: Cell, b: Cell) -> bool {
    ||| compatible(a, b, Direction::North)
    ||| compatible(a, b, Direction::South)
    ||| compatible(a, b, Direction::West)
    ||| compatible(a, b, Direction::East)
}

proof fn lemma_link_is_found(
    cells: Seq<Cell>,
    a: int,
    b: int,
    d: Direction,
    start_fits_all: bool,
    from: int,
)
    requires
        0 <= from <= b < cells.len() <= usize::MAX,
        links(cells, a, b, d, start_fits_all),
    ensures
        match first_link(cells, a, d, start_fits_all, from) {
            Some(found) => from <= found <= b && links(cells, a, found as int, d, start_fits_all),
            None => false,
        },
    decreases b - from,
{
    if !links(cells, a, from, d, start_fits_all) {
        lemma_link_is_found(cells, a, b, d, start_fits_all, from + 1);
    }
}

proof fn lemma_pipe_finds_compatible_cell(cells: Seq<Cell>, a: usize, b: usize, d: Direction)
    requires
        cells.len() <= usize::MAX,
        places_distinct(cells),
        a < cells.len(),
        b < cells.len(),
        compatible(cells[a as int], cells[b as int], d),
        cells[a as int].connections != Connections::Start,
    ensures
        probe(cells, a as int, d, true) == Some(b),
{
    lemma_link_is_found(cells, a as int, b as int, d, true, 0);
    let found = first_link(cells, a as int, d, true, 0)->0;
    if found != b {
        assert(same_place(cells[found as int], cells[b as int]));
    }
}

proof fn lemma_compatible_both_ways(a: Cell, b: Cell, d: Direction)
    ensures
        compatible(a, b, d) == compatible(b, a, opposite(d)),
{
}

proof fn lemma_connected_is_compatible(cells: Seq<Cell>, a: usize, b: usize)
    requires
        cells.len() <= usize::MAX,
        places_distinct(cells),
        a < cells.len(),
        b < cells.len(),
    ensures
        connected(cells, a, b, true) == compatible_cells(cells[a as int], cells[b as int]),
{
    let x = cells[a as int];
    let y = cells[b as int];
    lemma_first_link_in_range(cells, a as int, Direction::North, true, 0);
    lemma_first_link_in_range(cells, a as int, Direction::South, true, 0);
    lemma_first_link_in_range(cells, a as int, Direction::West, true, 0);
    lemma_first_link_in_range(cells, a as int, Direction::East, true, 0);
    lemma_first_link_in_range(cells, b as int, Direction::North, true, 0);
    lemma_first_link_in_range(cells, b as int, Direction::South, true, 0);
    lemma_first_link_in_range(cells, b as int, Direction::West, true, 0);
    lemma_first_link_in_range(cells, b as int, Direction::East, true, 0);
    lemma_compatible_both_ways(x, y, Direction::North);
    lemma_compatible_both_ways(x, y, Direction::South);
    lemma_compatible_both_ways(x, y, Direction::West);
    lemma_compatible_both_ways(x, y, Direction::East);
    if connected(cells, a, b, true) {
        assert(compatible_cells(x, y));
    }
    if compatible_cells(x, y) {
        let d = if compatible(x, y, Direction::North) {
            Direction::North
        } else if compatible(x, y, Direction::South) {
            Direction::South
        } else if compatible(x, y, Direction::West) {
            Direction::West
        } else {
            Direction::East
        };
        if x.connections != Connections::Start {
            lemma_pipe_finds_compatible_cell(cells, a, b, d);
            assert(probes_to(cells, a as int, b, true));
        } else {
            lemma_pipe_finds_compatible_cell(cells, b, a, opposite(d));
            assert(probes_to(cells, b as int, a, true));
        }
    }
}

/// Where every cell has a place of its own and the start fits every pipe,
/// two cells are joined by an edge if and only if they are compatible: they
/// lie one step apart, each has an open end towards the other or is the
/// start, and they are not both the start.
pub proof fn lemma_edges_join_compatible_cells(cells: Seq<Cell>)
    requires
        cells.len() <= usize::MAX,
        places_distinct(cells),
    ensures
        forall|a: usize, b: usize|
            a < cells.len() && b < cells.len() ==> (#[trigger] has_edge(
                maze_edges(cells, true),
                a,
                b,
            ) <==> compatible_cells(cells[a as int], cells[b as int])),
{
    lemma_edges_are_the_connections(cells, true);
    assert forall|a: usize, b: usize| a < cells.len() && b < cells.len() implies (#[trigger] has_edge(
        maze_edges(cells, true),
        a,
        b,
    ) <==> compatible_cells(cells[a as int], cells[b as int])) by {
        lemma_connected_is_compatible(cells, a, b);
    }
}

/// Whether the first `n` characters of a text gave every cell a place of its
/// own, before the place of the next symbol.
pub open spec fn scanned_in_order(text: Seq<char>, n: nat) -> bool {
    let s = scan(text, n);
    &&& s.row <= n
    &&& s.col <= n
    &&& s.cells.len() <= n
    &&& places_distinct(s.cells)
    &&& forall|i: int|
        0 <= i < s.cells.len() ==> (#[trigger] s.cells[i]).row < s.row || (s.cells[i].row == s.row
            && s.cells[i].col < s.col)
}

proof fn lemma_scan_in_order(text: Seq<char>, n: nat)
    requires
        n <= text.len() <= usize::MAX,
    ensures
        scanned_in_order(text, n),
    decreases n,
{
    if n > 0 {
        lemma_scan_in_order(text, (n - 1) as nat);
        let before = scan(text, (n - 1) as nat);
        let after = scan(text, n);
        match symbol_of(text[n - 1]) {
            Some(sym) => {
                let cell = Cell {
                    connections: sym,
                    row: before.row as usize,
                    col: before.col as usize,
                };
                assert(after.cells == before.cells.push(cell));
                assert forall|i: int, j: int|
                    0 <= i < after.cells.len() && 0 <= j < after.cells.len() && i != j implies !same_place(
                    #[trigger] after.cells[i],
                    #[trigger] after.cells[j],
                ) by {
                    if i < before.cells.len() && j < before.cells.len() {
                        assert(!same_place(before.cells[i], before.cells[j]));
                    } else if i < before.cells.len() {
                        assert(before.cells[i].row < before.row || (before.cells[i].row
                            == before.row && before.cells[i].col < before.col));
                    } else {
                        assert(before.cells[j].row < before.row || (before.cells[j].row
                            == before.row && before.cells[j].col < before.col));
                    }
                }
                assert forall|i: int| 0 <= i < after.cells.len() implies (
                #[trigger] after.cells[i]).row < after.row || (after.cells[i].row == after.row
                    && after.cells[i].col < after.col) by {
                    if i < before.cells.len() {
                        assert(after.cells[i] == before.cells[i]);
                    }
                }
            },
            None => {
                assert forall|i: int| 0 <= i < after.cells.len() implies (
                #[trigger] after.cells[i]).row < after.row || (after.cells[i].row == after.row
                    && after.cells[i].col < after.col) by {
                    assert(after.cells[i] == before.cells[i]);
                }
            },
        }
    }
}

/// In the graph of a maze two cells are joined by an edge if and only if
/// they are compatible: they lie one step apart, each has an open end
/// towards the other or is the start, and they are not both the start.
pub proof fn lemma_maze_joins_compatible_cells(g: PipeGraph, text: Seq<char>)
    requires
        is_maze_of(g, text),
        text.len() <= usize::MAX,
    ensures
        places_distinct(graph_nodes(g)),
        forall|a: usize, b: usize|
            a < graph_nodes(g).len() && b < graph_nodes(g).len() ==> (#[trigger] has_edge(
                graph_edges(g),
                a,
                b,
            ) <==> compatible_cells(graph_nodes(g)[a as int], graph_nodes(g)[b as int])),
{
    lemma_scan_in_order(text, text.len());
    lemma_edges_join_compatible_cells(cells_of(text));
}

} // verus!
