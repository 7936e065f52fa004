//! The mathematical model of routes: a path is a sequence of arc indices
//! that chain through nodes the graph knows, and its cost is the sum of the
//! chosen arcs' weights. `is_shortest` characterises what a shortest-distance
//! query returns.

use vstd::prelude::*;

use crate::graph::{known, nonneg_weights, Graph};

verus! {

/// The largest representable cost doubles as the "unreachable" sentinel: a
/// query returns it instead of failing when no route exists.
pub open spec fn unreachable_cost() -> int {
    i32::MAX as int
}

/// The arc index `j` is in range and joins two known nodes. An arc whose
/// endpoint was never added as a node is inert: it appears in no path.
pub open spec fn arc_ok(g: Graph, j: int) -> bool {
    &&& 0 <= j < g.arcs@.len()
    &&& known(g, g.arcs@[j].node_a_id as int)
    &&& known(g, g.arcs@[j].node_b_id as int)
}

/// The node where the walk `p` (a sequence of arc indices) ends when it
/// starts at `a`.
pub open spec fn end_of(g: Graph, p: Seq<int>, a: int) -> int {
    if p.len() == 0 {
        a
    } else {
        g.arcs@[p.last()].node_b_id as int
    }
}

/// The walk `p` starts at `a` and each arc leaves the node where the
/// previous one arrived; every arc joins known nodes.
pub open spec fn links(g: Graph, p: Seq<int>, a: int) -> bool
    decreases p.len(),
{
    if p.len() == 0 {
        true
    } else {
        &&& links(g, p.drop_last(), a)
        &&& arc_ok(g, p.last())
        &&& g.arcs@[p.last()].node_a_id as int == end_of(g, p.drop_last(), a)
    }
}

/// `p` is a path from `a` to `b`: an empty path only relates a node to
/// itself.
pub open spec fn is_path(g: Graph, p: Seq<int>, a: int, b: int) -> bool {
    links(g, p, a) && end_of(g, p, a) == b
}

/// The total traversal cost of the walk: the sum of its arcs' weights.
pub open spec fn path_cost(g: Graph, p: Seq<int>) -> int
    decreases p.len(),
{
    if p.len() == 0 {
        0
    } else {
        path_cost(g, p.drop_last()) + g.arcs@[p.last()].weight as int
    }
}

/// `r` is the shortest distance from `a` to `b`: no path is cheaper, and
/// unless `r` is the unreachable sentinel some path costs exactly `r`.
pub open spec fn is_shortest(g: Graph, a: int, b: int, r: int) -> bool {
    &&& 0 <= r <= unreachable_cost()
    &&& forall|p: Seq<int>| is_path(g, p, a, b) ==> path_cost(g, p) >= r
    &&& r < unreachable_cost() ==> exists|p: Seq<int>|
        is_path(g, p, a, b) && path_cost(g, p) == r
}

/// A walk stays a walk when cut short.
pub proof fn lemma_links_take(g: Graph, p: Seq<int>, a: int, i: int)
    requires
        links(g, p, a),
        0 <= i <= p.len(),
    ensures
        links(g, p.take(i), a),
    decreases p.len(),
{
    if i < p.len() {
        assert(p.drop_last().take(i) =~= p.take(i));
        lemma_links_take(g, p.drop_last(), a, i);
    } else {
        assert(p.take(i) =~= p);
    }
}

/// Appending one arc that leaves the walk's end extends the walk, and adds
/// the arc's weight to the cost.
pub proof fn lemma_path_extend(g: Graph, p: Seq<int>, a: int, j: int)
    requires
        links(g, p, a),
        arc_ok(g, j),
        g.arcs@[j].node_a_id as int == end_of(g, p, a),
    ensures
        links(g, p.push(j), a),
        end_of(g, p.push(j), a) == g.arcs@[j].node_b_id as int,
        path_cost(g, p.push(j)) == path_cost(g, p) + g.arcs@[j].weight as int,
{
    assert(p.push(j).drop_last() =~= p);
}

/// A walk splits at any point into two walks whose costs add up.
pub proof fn lemma_path_split(g: Graph, p: Seq<int>, a: int, i: int)
    requires
        links(g, p, a),
        0 <= i <= p.len(),
    ensures
        links(g, p.take(i), a),
        links(g, p.skip(i), end_of(g, p.take(i), a)),
        end_of(g, p.skip(i), end_of(g, p.take(i), a)) == end_of(g, p, a),
        path_cost(g, p) == path_cost(g, p.take(i)) + path_cost(g, p.skip(i)),
    decreases p.len(),
{
    lemma_links_take(g, p, a, i);
    if i == p.len() {
        assert(p.take(i) =~= p);
        assert(p.skip(i) =~= Seq::<int>::empty());
    } else {
        let q = p.drop_last();
        let j = p.last();
        lemma_path_split(g, q, a, i);
        assert(q.take(i) =~= p.take(i));
        let m = end_of(g, p.take(i), a);
        assert(p.skip(i).drop_last() =~= q.skip(i));
        assert(p.skip(i).last() == j);
        lemma_path_extend(g, q.skip(i), m, j);
        assert(q.skip(i).push(j) =~= p.skip(i));
    }
}

/// With non-negative weights, no walk has negative cost.
pub proof fn lemma_cost_nonneg(g: Graph, p: Seq<int>, a: int)
    requires
        nonneg_weights(g),
        links(g, p, a),
    ensures
        path_cost(g, p) >= 0,
    decreases p.len(),
{
    if p.len() > 0 {
        lemma_cost_nonneg(g, p.drop_last(), a);
    }
}

/// A non-empty walk starts and ends at known nodes.
pub proof fn lemma_path_endpoints_known(g: Graph, p: Seq<int>, a: int)
    requires
        links(g, p, a),
        p.len() >= 1,
    ensures
        known(g, a),
        known(g, end_of(g, p, a)),
    decreases p.len(),
{
    if p.len() == 1 {
        assert(g.arcs@[p.last()].node_a_id as int == a);
    } else {
        lemma_path_endpoints_known(g, p.drop_last(), a);
    }
}

/// Two shortest distances between the same pair coincide: the uniform-cost
/// and the heuristic-guided strategy therefore return the same cost, since
/// both ensure `is_shortest`.
pub proof fn lemma_shortest_unique(g: Graph, a: int, b: int, r1: int, r2: int)
    requires
        is_shortest(g, a, b, r1),
        is_shortest(g, a, b, r2),
    ensures
        r1 == r2,
{
    if r1 < r2 {
        let p = choose|p: Seq<int>| is_path(g, p, a, b) && path_cost(g, p) == r1;
        assert(path_cost(g, p) >= r2);
    }
    if r2 < r1 {
        let p = choose|p: Seq<int>| is_path(g, p, a, b) && path_cost(g, p) == r2;
        assert(path_cost(g, p) >= r1);
    }
}

} // verus!
