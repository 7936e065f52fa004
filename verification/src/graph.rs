//! The routing graph itself: location nodes with planar coordinates and
//! undirected weighted edges, stored as two directed arcs each.

use vstd::prelude::*;

verus! {

/// A location: a unique integer identifier and planar coordinates.
/// The coordinates are consulted only by the A* heuristic.
#[derive(Clone, Copy, Debug)]
pub struct Node {
    pub id: i32,
    pub x: i32,
    pub y: i32,
}

/// One directed arc from `node_a_id` to `node_b_id` with a traversal cost.
/// An undirected edge is inserted as two such arcs, one per direction.
#[derive(Clone, Copy, Debug)]
pub struct Edge {
    pub node_a_id: i32,
    pub node_b_id: i32,
    pub weight: i32,
}

/// The routing graph: every node ever added (later additions of the same id
/// win on lookup) and the flat list of directed arcs, in insertion order.
#[derive(Debug)]
pub struct Graph {
    pub nodes: Vec<Node>,
    pub arcs: Vec<Edge>,
}

/// The coordinates recorded for `id`, if any; the last node added under an
/// id is the one that counts.
pub open spec fn coords_of(nodes: Seq<Node>, id: int) -> Option<(int, int)>
    decreases nodes.len(),
{
    if nodes.len() == 0 {
        None
    } else if nodes.last().id == id {
        Some((nodes.last().x as int, nodes.last().y as int))
    } else {
        coords_of(nodes.drop_last(), id)
    }
}

/// Whether some node with this id has been added to the graph.
pub open spec fn known(g: Graph, id: int) -> bool {
    coords_of(g.nodes@, id) is Some
}

/// Whether any element of `nodes` carries the identifier `id`.
pub open spec fn has_node_id(nodes: Seq<Node>, id: int) -> bool {
    exists|j: int| 0 <= j < nodes.len() && #[trigger] nodes[j].id as int == id
}

/// An id is known exactly when some node in the sequence carries it.
pub proof fn lemma_known_iff_has_id(nodes: Seq<Node>, id: int)
    ensures
        coords_of(nodes, id) is Some <==> has_node_id(nodes, id),
    decreases nodes.len(),
{
    if nodes.len() > 0 {
        if nodes.last().id == id {
            assert(nodes[nodes.len() - 1].id as int == id);
        } else {
            lemma_known_iff_has_id(nodes.drop_last(), id);
            if has_node_id(nodes.drop_last(), id) {
                let j = choose|j: int|
                    0 <= j < nodes.drop_last().len() && #[trigger] nodes.drop_last()[j].id as int
                        == id;
                assert(nodes[j].id as int == id);
            }
            if has_node_id(nodes, id) {
                let j = choose|j: int| 0 <= j < nodes.len() && #[trigger] nodes[j].id as int == id;
                assert(j < nodes.len() - 1);
                assert(nodes.drop_last()[j].id as int == id);
            }
        }
    }
}

/// Every arc's weight is non-negative. The graph does not enforce this at
/// insertion time; it is the caller contract that shortest-path queries rely
/// on.
pub open spec fn nonneg_weights(g: Graph) -> bool {
    forall|j: int| 0 <= j < g.arcs@.len() ==> (#[trigger] g.arcs@[j]).weight >= 0
}

/// The index of the reverse companion of the arc at index `i`: arcs are
/// inserted in forward/reverse pairs.
pub open spec fn arc_partner(i: int) -> int {
    if i % 2 == 0 {
        i + 1
    } else {
        i - 1
    }
}

/// `b` is `a` with its endpoints swapped and the same weight.
pub open spec fn reverse_arc_of(a: Edge, b: Edge) -> bool {
    b.node_a_id == a.node_b_id && b.node_b_id == a.node_a_id && b.weight == a.weight
}

/// The arc at index `i` has its reverse companion at the partner index.
pub open spec fn pair_ok(arcs: Seq<Edge>, i: int) -> bool {
    0 <= arc_partner(i) < arcs.len() && reverse_arc_of(arcs[i], arcs[arc_partner(i)])
}

/// The arcs come in forward/reverse pairs: traversal is symmetric.
pub open spec fn arcs_paired(arcs: Seq<Edge>) -> bool {
    arcs.len() % 2 == 0 && (forall|i: int| 0 <= i < arcs.len() ==> #[trigger] pair_ok(arcs, i))
}

impl Graph {
    /// An empty graph: no nodes, no arcs.
    pub fn new() -> (g: Graph)
        ensures
            g.nodes@ =~= Seq::<Node>::empty(),
            g.arcs@ =~= Seq::<Edge>::empty(),
    {
        Graph { nodes: Vec::new(), arcs: Vec::new() }
    }

    /// Insert a node; a node added later under the same id silently wins
    /// on every subsequent lookup.
    pub fn add_node(&mut self, node: Node)
        ensures
            final(self).nodes@ == old(self).nodes@.push(node),
            final(self).arcs@ == old(self).arcs@,
    {
        self.nodes.push(node);
    }

    /// Insert an undirected edge: the forward arc and a synthesized reverse
    /// arc with the same weight are appended together. Duplicate edges
    /// between the same endpoints are retained; a query simply prefers the
    /// cheaper one. The weight is not validated.
    pub fn add_edge(&mut self, edge: Edge)
        ensures
            final(self).nodes@ == old(self).nodes@,
            final(self).arcs@.len() == old(self).arcs@.len() + 2,
            final(self).arcs@ == old(self).arcs@.push(edge).push(
                (Edge {
                    node_a_id: edge.node_b_id,
                    node_b_id: edge.node_a_id,
                    weight: edge.weight,
                }),
            ),
            arcs_paired(old(self).arcs@) ==> arcs_paired(final(self).arcs@),
    {
        let reverse_edge = Edge {
            node_a_id: edge.node_b_id,
            node_b_id: edge.node_a_id,
            weight: edge.weight,
        };
        self.arcs.push(edge);
        self.arcs.push(reverse_edge);
        proof {
            if arcs_paired(old(self).arcs@) {
                let n = old(self).arcs@.len() as int;
                assert forall|i: int| 0 <= i < self.arcs@.len() implies #[trigger] pair_ok(
                    self.arcs@,
                    i,
                ) by {
                    if i < n {
                        assert(pair_ok(old(self).arcs@, i));
                        assert(self.arcs@[i] == old(self).arcs@[i]);
                        assert(self.arcs@[arc_partner(i)] == old(self).arcs@[arc_partner(i)]);
                    } else if i == n {
                        assert(arc_partner(i) == n + 1);
                    } else {
                        assert(i == n + 1);
                        assert(arc_partner(i) == n);
                    }
                }
            }
        }
    }

    /// Bulk constructor: add every node, then every edge, in the given
    /// order. The arc list holds the forward and reverse arc of edge `i`
    /// at indices `2*i` and `2*i + 1`.
    pub fn build(node_list: Vec<Node>, edge_list: Vec<Edge>) -> (g: Graph)
        ensures
            g.nodes@ == node_list@,
            g.arcs@.len() == 2 * edge_list@.len(),
            forall|i: int|
                0 <= i < edge_list@.len() ==> g.arcs@[2 * i] == #[trigger] edge_list@[i]
                    && reverse_arc_of(edge_list@[i], g.arcs@[2 * i + 1]),
            arcs_paired(g.arcs@),
    {
        let mut g = Graph::new();
        let mut k: usize = 0;
        while k < node_list.len()
            invariant
                k <= node_list@.len(),
                g.nodes@ == node_list@.take(k as int),
                g.arcs@ =~= Seq::<Edge>::empty(),
            decreases node_list@.len() - k,
        {
            g.add_node(node_list[k]);
            proof {
                assert(node_list@.take(k as int).push(node_list@[k as int]) =~= node_list@.take(
                    k as int + 1,
                ));
            }
            k += 1;
        }
        proof {
            assert(node_list@.take(node_list@.len() as int) =~= node_list@);
        }
        let mut k: usize = 0;
        while k < edge_list.len()
            invariant
                k <= edge_list@.len(),
                g.nodes@ == node_list@,
                g.arcs@.len() == 2 * k,
                forall|i: int|
                    0 <= i < k ==> g.arcs@[2 * i] == #[trigger] edge_list@[i] && reverse_arc_of(
                        edge_list@[i],
                        g.arcs@[2 * i + 1],
                    ),
                arcs_paired(g.arcs@),
            decreases edge_list@.len() - k,
        {
            g.add_edge(edge_list[k]);
            k += 1;
        }
        g
    }
}

} // verus!
