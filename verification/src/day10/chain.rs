use crate::day10::graph::has_edge;
use crate::day10::graph::incoming;
use crate::day10::graph::neighbors_of;
use crate::day10::graph::outgoing;
use crate::day10::walk::adjacent;
use crate::day10::walk::hop_ok;
use crate::day10::walk::main_loop;
use crate::day10::walk::next_of;
use crate::day10::walk::start_of;
use crate::day10::walk::trail;
use crate::day10::walk::first_loop;
use crate::day10::walk::first_start;
use crate::day10::walk::walk_fuel;
use crate::day10::Cell;
use vstd::prelude::*;

verus! {

/// Whether `c` is a stretch of pipe that ends at `start`: it reaches `start`
/// with its last node and not before (its first node apart), every hop is a
/// grid step, and every node between the ends has just the node before it and
/// the node after it as neighbours.
pub open spec fn is_chain(
    nodes: Seq<Cell>,
    edges: Seq<(usize, usize)>,
    start: usize,
    c: Seq<usize>,
) -> bool {
    &&& c.len() >= 2
    &&& c.last() == start
    &&& forall|i: int| 0 < i < c.len() - 1 ==> #[trigger] c[i] != start
    &&& forall|i: int| 0 <= i < c.len() - 1 ==> hop_ok(nodes, #[trigger] c[i], c[i + 1])
    &&& forall|i: int|
        0 < i < c.len() - 1 ==> next_of(edges, c[i - 1], #[trigger] c[i]) == Some(c[i + 1])
}

/// A sequence read from its end.
pub open spec fn backwards(c: Seq<usize>) -> Seq<usize> {
    Seq::new(c.len(), |i: int| c[c.len() - 1 - i])
}

/// A trail, with the node that the walk came from put before it, is a chain;
/// it starts with the node that the walk stood on and has at most one node
/// more than the walk had hops left.
pub proof fn lemma_trail_is_chain(
    nodes: Seq<Cell>,
    edges: Seq<(usize, usize)>,
    start: usize,
    prev: usize,
    cur: usize,
    fuel: nat,
)
    requires
        trail(nodes, edges, start, prev, cur, fuel) is Some,
    ensures
        is_chain(nodes, edges, start, seq![prev] + trail(nodes, edges, start, prev, cur, fuel)->0),
        trail(nodes, edges, start, prev, cur, fuel)->0.len() <= fuel + 1,
        trail(nodes, edges, start, prev, cur, fuel)->0.len() >= 1,
        trail(nodes, edges, start, prev, cur, fuel)->0[0] == cur,
    decreases fuel,
{
    let t = trail(nodes, edges, start, prev, cur, fuel)->0;
    let c = seq![prev] + t;
    if cur == start {
        assert(t =~= seq![start]);
        assert(c[0] == prev && c[1] == start);
    } else {
        let next = next_of(edges, prev, cur)->0;
        let rest = trail(nodes, edges, start, cur, next, (fuel - 1) as nat)->0;
        lemma_trail_is_chain(nodes, edges, start, cur, next, (fuel - 1) as nat);
        let inner = seq![cur] + rest;
        assert(t =~= inner);
        assert(c.len() == inner.len() + 1);
        assert(c[0] == prev);
        assert forall|i: int| 1 <= i < c.len() implies c[i] == inner[i - 1] by {}
        assert forall|i: int| 0 < i < c.len() - 1 implies #[trigger] c[i] != start by {
            if i > 1 {
                assert(inner[i - 1] != start);
            }
        }
        assert forall|i: int| 0 <= i < c.len() - 1 implies hop_ok(
            nodes,
            #[trigger] c[i],
            c[i + 1],
        ) by {
            if i >= 1 {
                assert(hop_ok(nodes, inner[i - 1], inner[i]));
            }
        }
        assert forall|i: int| 0 < i < c.len() - 1 implies next_of(
            edges,
            c[i - 1],
            #[trigger] c[i],
        ) == Some(c[i + 1]) by {
            if i >= 2 {
                assert(next_of(edges, inner[i - 2], inner[i - 1]) == Some(inner[i]));
            } else {
                assert(c[2] == inner[1]);
                assert(inner[1] == rest[0]);
            }
        }
    }
}

/// A walk that takes the first hop of a chain, with hops enough left for the
/// rest of it, has the rest of the chain as its trail.
pub proof fn lemma_chain_is_trail(
    nodes: Seq<Cell>,
    edges: Seq<(usize, usize)>,
    start: usize,
    c: Seq<usize>,
    fuel: nat,
)
    requires
        is_chain(nodes, edges, start, c),
        fuel + 2 >= c.len(),
    ensures
        trail(nodes, edges, start, c[0], c[1], fuel) == Some(c.skip(1)),
    decreases c.len(),
{
    assert(hop_ok(nodes, c[0], c[1]));
    if c[1] == start {
        if c.len() > 2 {
            assert(c[1] != start);
        }
        assert(c.skip(1) =~= seq![start]);
    } else {
        assert(c.len() >= 3);
        assert(next_of(edges, c[0], c[1]) == Some(c[2]));
        let inner = c.skip(1);
        assert forall|i: int| 0 < i < inner.len() - 1 implies #[trigger] inner[i] != start by {
            assert(c[i + 1] != start);
        }
        assert forall|i: int| 0 <= i < inner.len() - 1 implies hop_ok(
            nodes,
            #[trigger] inner[i],
            inner[i + 1],
        ) by {
            assert(hop_ok(nodes, c[i + 1], c[i + 2]));
        }
        assert forall|i: int| 0 < i < inner.len() - 1 implies next_of(
            edges,
            inner[i - 1],
            #[trigger] inner[i],
        ) == Some(inner[i + 1]) by {
            assert(next_of(edges, c[i], c[i + 1]) == Some(c[i + 2]));
        }
        lemma_chain_is_trail(nodes, edges, start, inner, (fuel - 1) as nat);
        assert(inner[0] == c[1] && inner[1] == c[2]);
        assert(seq![c[1]] + inner.skip(1) =~= c.skip(1));
    }
}

/// A chain that leaves the start and comes back to it is a chain when read
/// from its end as well: the pipe can be walked either way round.
pub proof fn lemma_chain_backwards(
    nodes: Seq<Cell>,
    edges: Seq<(usize, usize)>,
    start: usize,
    c: Seq<usize>,
)
    requires
        is_chain(nodes, edges, start, c),
        c[0] == start,
    ensures
        is_chain(nodes, edges, start, backwards(c)),
{
    let r = backwards(c);
    let n = c.len() as int;
    assert forall|i: int| 0 < i < r.len() - 1 implies #[trigger] r[i] != start by {
        assert(c[n - 1 - i] != start);
    }
    assert forall|i: int| 0 <= i < r.len() - 1 implies hop_ok(nodes, #[trigger] r[i], r[i + 1]) by {
        assert(hop_ok(nodes, c[n - 2 - i], c[n - 2 - i + 1]));
    }
    assert forall|i: int| 0 < i < r.len() - 1 implies next_of(edges, r[i - 1], #[trigger] r[i])
        == Some(r[i + 1]) by {
        let j = n - 1 - i;
        assert(next_of(edges, c[j - 1], c[j]) == Some(c[j + 1]));
    }
}

/// The first start node is a node.
pub proof fn lemma_first_start_in_range(nodes: Seq<Cell>, from: int)
    requires
        nodes.len() <= usize::MAX,
    ensures
        first_start(nodes, from) is Some ==> from <= first_start(nodes, from)->0 < nodes.len(),
    decreases nodes.len() - from,
{
    if 0 <= from < nodes.len() {
        lemma_first_start_in_range(nodes, from + 1);
    }
}

/// What the first closing walk among the candidates visits is the trail of
/// one of them.
pub proof fn lemma_first_loop_is_trail(
    nodes: Seq<Cell>,
    edges: Seq<(usize, usize)>,
    start: usize,
    candidates: Seq<usize>,
    k: int,
) -> (first: usize)
    requires
        first_loop(nodes, edges, start, candidates, k) is Some,
    ensures
        first_loop(nodes, edges, start, candidates, k) == trail(
            nodes,
            edges,
            start,
            start,
            first,
            walk_fuel(nodes),
        ),
        candidates.contains(first),
    decreases candidates.len() - k,
{
    if trail(nodes, edges, start, start, candidates[k], walk_fuel(nodes)) is Some {
        candidates[k]
    } else {
        lemma_first_loop_is_trail(nodes, edges, start, candidates, k + 1)
    }
}

/// The main loop, with the start put before it, is a chain from the start
/// back to the start with at least two hops and no more nodes than the maze has.
pub proof fn lemma_main_loop_is_chain(nodes: Seq<Cell>, edges: Seq<(usize, usize)>)
    requires
        main_loop(nodes, edges) is Some,
    ensures
        start_of(nodes) is Some,
        is_chain(
            nodes,
            edges,
            start_of(nodes)->0,
            seq![start_of(nodes)->0] + main_loop(nodes, edges)->0,
        ),
        2 <= main_loop(nodes, edges)->0.len() <= nodes.len(),
        neighbors_of(edges, start_of(nodes)->0).contains(main_loop(nodes, edges)->0[0]),
{
    let s = start_of(nodes)->0;
    let first = lemma_first_loop_is_trail(nodes, edges, s, neighbors_of(edges, s), 0);
    lemma_trail_is_chain(nodes, edges, s, s, first, walk_fuel(nodes));
    let t = main_loop(nodes, edges)->0;
    let c = seq![s] + t;
    assert(hop_ok(nodes, c[0], c[1]));
    assert(c[0] == s);
    assert(c[1] == t[0]);
    if t.len() == 1 {
        assert(c.last() == s);
        assert(t[0] == s);
        assert(!adjacent(nodes[s as int], nodes[s as int]));
    }
}

/// A walk that goes on from a node to a given next node can have come
/// from one node only.
proof fn lemma_one_way_in(edges: Seq<(usize, usize)>, a: usize, b: usize, at: usize, next: usize)
    requires
        next_of(edges, a, at) == Some(next),
        next_of(edges, b, at) == Some(next),
    ensures
        a == b,
{
}

/// Whether place `k` of a path holds a node other than the start from which
/// the walk goes on, by a grid step, to the node at the next place.
pub open spec fn passes(
    nodes: Seq<Cell>,
    edges: Seq<(usize, usize)>,
    start: usize,
    c: Seq<usize>,
    k: int,
) -> bool {
    c[k] != start && next_of(edges, c[k - 1], c[k]) == Some(c[k + 1]) && hop_ok(nodes, c[k], c[k + 1])
}

/// Whether a path passes through all its places between the ends.
pub open spec fn passes_through(
    nodes: Seq<Cell>,
    edges: Seq<(usize, usize)>,
    start: usize,
    c: Seq<usize>,
) -> bool {
    forall|k: int| 0 < k < c.len() - 1 ==> #[trigger] passes(nodes, edges, start, c, k)
}

proof fn lemma_chain_passes_through(
    nodes: Seq<Cell>,
    edges: Seq<(usize, usize)>,
    start: usize,
    c: Seq<usize>,
)
    requires
        is_chain(nodes, edges, start, c),
    ensures
        passes_through(nodes, edges, start, c),
{
    assert forall|k: int| 0 < k < c.len() - 1 implies #[trigger] passes(
        nodes,
        edges,
        start,
        c,
        k,
    ) by {
        assert(c[k] != start);
        assert(hop_ok(nodes, c[k], c[k + 1]));
        assert(next_of(edges, c[k - 1], c[k]) == Some(c[k + 1]));
    }
}

/// Where two places of a path from the start hold the same node, the places
/// before them hold different nodes: else, followed back, they would lead
/// to the start at a place between the ends.
proof fn lemma_no_second_pass(
    nodes: Seq<Cell>,
    edges: Seq<(usize, usize)>,
    start: usize,
    c: Seq<usize>,
    i: int,
    j: int,
)
    requires
        passes_through(nodes, edges, start, c),
        c[0] == start,
        0 < i < j < c.len() - 1,
        c[i] == c[j],
    ensures
        c[i - 1] != c[j - 1],
    decreases i,
{
    if c[i - 1] == c[j - 1] {
        assert(passes(nodes, edges, start, c, j - 1));
        if i > 1 {
            assert(passes(nodes, edges, start, c, i - 1));
            lemma_one_way_in(edges, c[i - 2], c[j - 2], c[i - 1], c[i]);
            lemma_no_second_pass(nodes, edges, start, c, i - 1, j - 1);
        }
    }
}

proof fn lemma_places_differ(
    nodes: Seq<Cell>,
    edges: Seq<(usize, usize)>,
    start: usize,
    c: Seq<usize>,
    i: int,
    j: int,
)
    requires
        passes_through(nodes, edges, start, c),
        c[0] == start,
        0 < i < j < c.len() - 1,
    ensures
        c[i] != c[j],
    decreases j - i,
{
    if c[i] == c[j] {
        assert(passes(nodes, edges, start, c, i));
        assert(passes(nodes, edges, start, c, j));
        lemma_no_second_pass(nodes, edges, start, c, i, j);
        assert(c[j - 1] == c[i + 1]);
        assert(j != i + 1);
        if j - 1 == i + 1 {
            assert(passes(nodes, edges, start, c, i + 1));
        } else {
            lemma_places_differ(nodes, edges, start, c, i + 1, j - 1);
        }
    }
}

/// No node stands twice between the ends of a chain from the start back to
/// the start.
pub proof fn lemma_chain_is_simple(
    nodes: Seq<Cell>,
    edges: Seq<(usize, usize)>,
    start: usize,
    c: Seq<usize>,
    i: int,
    j: int,
)
    requires
        is_chain(nodes, edges, start, c),
        c[0] == start,
        0 < i < j < c.len() - 1,
    ensures
        c[i] != c[j],
{
    lemma_chain_passes_through(nodes, edges, start, c);
    lemma_places_differ(nodes, edges, start, c, i, j);
}

/// Whatever the graph lists as a neighbour of a node is joined to it by an
/// edge.
pub proof fn lemma_neighbors_are_joined(edges: Seq<(usize, usize)>, a: usize, x: usize)
    requires
        neighbors_of(edges, a).contains(x),
    ensures
        has_edge(edges, a, x),
    decreases edges.len(),
{
    let out = outgoing(edges, a);
    let inc = incoming(edges, a);
    let k = choose|k: int| 0 <= k < neighbors_of(edges, a).len() && neighbors_of(edges, a)[k] == x;
    if edges.len() > 0 {
        let e = edges.last();
        let older = edges.drop_last();
        let older_out = outgoing(older, a);
        let older_inc = incoming(older, a);
        if (e.0 == a && e.1 == x) || (e.1 == a && e.0 == x) {
            assert(edges[edges.len() - 1] == e);
        } else {
            assert(neighbors_of(older, a).contains(x)) by {
                if k < out.len() {
                    assert(out[k] == x);
                    if e.0 == a {
                        assert(out == seq![e.1] + older_out);
                        assert(k >= 1);
                        assert(older_out[k - 1] == x);
                        assert(neighbors_of(older, a)[k - 1] == x);
                    } else {
                        assert(older_out[k] == x);
                        assert(neighbors_of(older, a)[k] == x);
                    }
                } else {
                    let m = k - out.len();
                    assert(inc[m] == x);
                    if e.1 == a && e.0 != a {
                        assert(inc == seq![e.0] + older_inc);
                        assert(m >= 1);
                        assert(older_inc[m - 1] == x);
                        assert(neighbors_of(older, a)[older_out.len() + m - 1] == x);
                    } else {
                        assert(older_inc[m] == x);
                        assert(neighbors_of(older, a)[older_out.len() + m] == x);
                    }
                }
            }
            lemma_neighbors_are_joined(older, a, x);
            let i = choose|i: int|
                0 <= i < older.len() && (#[trigger] older[i] == (a, x) || older[i] == (x, a));
            assert(edges[i] == older[i]);
        }
    }
}

} // verus!
