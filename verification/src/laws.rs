//! The laws the routing graph obeys, stated over the path model and proved
//! once and for all: symmetry of undirected distances, zero self-distance,
//! the sentinel on unreachable pairs, agreement of the two strategies, the
//! triangle inequality, and monotonicity under weight increase.

use vstd::prelude::*;

use crate::graph::{arc_partner, arcs_paired, known, nonneg_weights, pair_ok, reverse_arc_of, Graph};
use crate::paths::{
    arc_ok, end_of, is_path, is_shortest, links, path_cost, unreachable_cost, lemma_cost_nonneg,
    lemma_path_extend, lemma_path_split, lemma_shortest_unique,
};

verus! {

/// Gluing two walks end to start gives a walk whose cost is the sum.
pub proof fn lemma_path_concat(g: Graph, p1: Seq<int>, p2: Seq<int>, a: int)
    requires
        links(g, p1, a),
        links(g, p2, end_of(g, p1, a)),
    ensures
        links(g, p1 + p2, a),
        end_of(g, p1 + p2, a) == end_of(g, p2, end_of(g, p1, a)),
        path_cost(g, p1 + p2) == path_cost(g, p1) + path_cost(g, p2),
    decreases p2.len(),
{
    if p2.len() == 0 {
        assert(p1 + p2 =~= p1);
    } else {
        lemma_path_concat(g, p1, p2.drop_last(), a);
        assert((p1 + p2).drop_last() =~= p1 + p2.drop_last());
        assert((p1 + p2).last() == p2.last());
    }
}

/// The same walk taken backwards: each arc replaced by its reverse
/// companion, in the opposite order.
pub open spec fn rev_walk(p: Seq<int>) -> Seq<int>
    decreases p.len(),
{
    if p.len() == 0 {
        Seq::<int>::empty()
    } else {
        rev_walk(p.skip(1)).push(arc_partner(p[0]))
    }
}

/// In a graph whose arcs come in forward/reverse pairs, every walk can be
/// taken backwards at the same cost.
pub proof fn lemma_rev_walk(g: Graph, p: Seq<int>, a: int)
    requires
        arcs_paired(g.arcs@),
        links(g, p, a),
    ensures
        links(g, rev_walk(p), end_of(g, p, a)),
        end_of(g, rev_walk(p), end_of(g, p, a)) == a,
        path_cost(g, rev_walk(p)) == path_cost(g, p),
    decreases p.len(),
{
    if p.len() > 0 {
        let j = p[0];
        let z = end_of(g, p, a);
        lemma_path_split(g, p, a, 1);
        let head = p.take(1);
        assert(head.len() == 1);
        assert(head.drop_last() =~= Seq::<int>::empty());
        assert(head.last() == j);
        assert(path_cost(g, Seq::<int>::empty()) == 0);
        assert(path_cost(g, head) == path_cost(g, head.drop_last()) + g.arcs@[head.last()].weight
            as int);
        let m = end_of(g, head, a);
        assert(m == g.arcs@[j].node_b_id as int);
        assert(g.arcs@[j].node_a_id as int == a);
        assert(path_cost(g, head) == g.arcs@[j].weight as int);
        assert(end_of(g, p.skip(1), m) == z);
        lemma_rev_walk(g, p.skip(1), m);
        let jr = arc_partner(j);
        assert(pair_ok(g.arcs@, j));
        assert(reverse_arc_of(g.arcs@[j], g.arcs@[jr]));
        assert(arc_ok(g, jr));
        lemma_path_extend(g, rev_walk(p.skip(1)), z, jr);
    }
}

/// Undirected symmetry: since every edge is inserted as a forward/reverse
/// pair, the shortest distance from `a` to `b` is also the shortest
/// distance from `b` to `a`.
pub proof fn lemma_symmetry(g: Graph, a: int, b: int, r: int)
    requires
        arcs_paired(g.arcs@),
        is_shortest(g, a, b, r),
    ensures
        is_shortest(g, b, a, r),
{
    assert forall|q: Seq<int>| is_path(g, q, b, a) implies path_cost(g, q) >= r by {
        lemma_rev_walk(g, q, b);
        assert(is_path(g, rev_walk(q), a, b));
    }
    if r < unreachable_cost() {
        let p = choose|p: Seq<int>| is_path(g, p, a, b) && path_cost(g, p) == r;
        lemma_rev_walk(g, p, a);
        assert(is_path(g, rev_walk(p), b, a) && path_cost(g, rev_walk(p)) == r);
    }
}

/// The distance from any node to itself is zero: the empty path costs
/// nothing and no path costs less.
pub proof fn lemma_self_distance(g: Graph, a: int, r: int)
    requires
        is_shortest(g, a, a, r),
    ensures
        r == 0,
{
    assert(is_path(g, Seq::<int>::empty(), a, a));
    assert(path_cost(g, Seq::<int>::empty()) == 0);
}

/// With non-negative weights, zero satisfies the self-distance contract.
pub proof fn lemma_self_distance_zero(g: Graph, a: int)
    requires
        nonneg_weights(g),
    ensures
        is_shortest(g, a, a, 0),
{
    assert(is_path(g, Seq::<int>::empty(), a, a) && path_cost(g, Seq::<int>::empty()) == 0);
    assert forall|p: Seq<int>| is_path(g, p, a, a) implies path_cost(g, p) >= 0 by {
        lemma_cost_nonneg(g, p, a);
    }
}

/// Where no path joins `a` to `b`, the query answer is the unreachable
/// sentinel, not a real distance.
pub proof fn lemma_unreachable_sentinel(g: Graph, a: int, b: int, r: int)
    requires
        is_shortest(g, a, b, r),
        forall|p: Seq<int>| !is_path(g, p, a, b),
    ensures
        r == unreachable_cost(),
{
    if r < unreachable_cost() {
        let p = choose|p: Seq<int>| is_path(g, p, a, b) && path_cost(g, p) == r;
        assert(!is_path(g, p, a, b));
    }
}

/// The two strategies agree: both `shortest_path` and
/// `shortest_path_dijkstra` ensure `is_shortest`, and two values meeting
/// that contract for the same pair are equal.
pub proof fn lemma_strategies_agree(g: Graph, a: int, b: int, r1: int, r2: int)
    requires
        is_shortest(g, a, b, r1),
        is_shortest(g, a, b, r2),
    ensures
        r1 == r2,
{
    lemma_shortest_unique(g, a, b, r1, r2);
}

/// Triangle inequality: routing through a waypoint never beats the direct
/// shortest distance.
pub proof fn lemma_triangle_inequality(
    g: Graph,
    a: int,
    b: int,
    c: int,
    r_ab: int,
    r_bc: int,
    r_ac: int,
)
    requires
        is_shortest(g, a, b, r_ab),
        is_shortest(g, b, c, r_bc),
        is_shortest(g, a, c, r_ac),
    ensures
        r_ac <= r_ab + r_bc,
{
    if r_ab < unreachable_cost() && r_bc < unreachable_cost() {
        let p1 = choose|p: Seq<int>| is_path(g, p, a, b) && path_cost(g, p) == r_ab;
        let p2 = choose|p: Seq<int>| is_path(g, p, b, c) && path_cost(g, p) == r_bc;
        lemma_path_concat(g, p1, p2, a);
        assert(is_path(g, p1 + p2, a, c));
        assert(path_cost(g, p1 + p2) == r_ab + r_bc);
    }
}

/// `g2` is `g1` with the same nodes and the same arcs except that weights
/// may have grown.
pub open spec fn same_shape_heavier(g1: Graph, g2: Graph) -> bool {
    &&& g1.nodes@ == g2.nodes@
    &&& g1.arcs@.len() == g2.arcs@.len()
    &&& forall|j: int|
        0 <= j < g1.arcs@.len() ==> (#[trigger] g2.arcs@[j]).node_a_id == (
        #[trigger] g1.arcs@[j]).node_a_id && g2.arcs@[j].node_b_id == g1.arcs@[j].node_b_id
            && g1.arcs@[j].weight <= g2.arcs@[j].weight
}

/// A walk of the lighter graph is a walk of the heavier one and conversely;
/// its cost can only grow with the weights.
pub proof fn lemma_walk_heavier(g1: Graph, g2: Graph, p: Seq<int>, a: int)
    requires
        same_shape_heavier(g1, g2),
        links(g2, p, a),
    ensures
        links(g1, p, a),
        end_of(g1, p, a) == end_of(g2, p, a),
        path_cost(g1, p) <= path_cost(g2, p),
    decreases p.len(),
{
    if p.len() > 0 {
        lemma_walk_heavier(g1, g2, p.drop_last(), a);
    }
}

/// Monotonicity under weight increase: raising edge weights (in particular,
/// raising one edge's weight, which raises its two arcs) never lowers any
/// shortest-path answer.
pub proof fn lemma_weight_increase_monotone(
    g1: Graph,
    g2: Graph,
    a: int,
    b: int,
    r1: int,
    r2: int,
)
    requires
        same_shape_heavier(g1, g2),
        is_shortest(g1, a, b, r1),
        is_shortest(g2, a, b, r2),
    ensures
        r1 <= r2,
{
    if r2 < unreachable_cost() {
        let p = choose|p: Seq<int>| is_path(g2, p, a, b) && path_cost(g2, p) == r2;
        lemma_walk_heavier(g1, g2, p, a);
        assert(is_path(g1, p, a, b));
        assert(path_cost(g1, p) >= r1);
    }
}

} // verus!
