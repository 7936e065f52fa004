use routing_graph::graph::{Edge, Graph, Node};

fn node(id: i32, x: i32, y: i32) -> Node {
    Node { id, x, y }
}

fn edge(a: i32, b: i32, w: i32) -> Edge {
    Edge { node_a_id: a, node_b_id: b, weight: w }
}

/// The four corners of the unit square plus a costly diagonal: the route
/// around the corner beats the direct edge.
fn square() -> Graph {
    let mut g = Graph::new();
    g.add_node(node(1, 0, 0));
    g.add_node(node(2, 1, 0));
    g.add_node(node(3, 1, 1));
    g.add_node(node(4, 0, 1));
    g.add_edge(edge(1, 2, 1));
    g.add_edge(edge(2, 3, 1));
    g.add_edge(edge(3, 4, 1));
    g.add_edge(edge(4, 1, 1));
    g.add_edge(edge(1, 3, 3));
    g
}

#[test]
fn square_prefers_two_hop_route_over_direct_edge() {
    let g = square();
    assert_eq!(g.shortest_path(1, 3), 2);
    assert_eq!(g.shortest_path_dijkstra(1, 3), 2);
}

#[test]
fn isolated_node_is_unreachable() {
    let mut g = square();
    g.add_node(node(5, 7, 7));
    assert_eq!(g.shortest_path(1, 5), i32::MAX);
    assert_eq!(g.shortest_path_dijkstra(1, 5), i32::MAX);
    assert_eq!(g.shortest_path(5, 1), i32::MAX);
}

#[test]
fn parallel_edges_keep_the_cheaper_one() {
    let mut g = Graph::new();
    g.add_node(node(1, 0, 0));
    g.add_node(node(2, 1, 0));
    g.add_edge(edge(1, 2, 5));
    g.add_edge(edge(1, 2, 2));
    assert_eq!(g.shortest_path(1, 2), 2);
    assert_eq!(g.shortest_path_dijkstra(1, 2), 2);
}

#[test]
fn self_distance_is_zero_without_heap_work() {
    let g = square();
    assert_eq!(g.shortest_path(1, 1), 0);
    assert_eq!(g.shortest_path_dijkstra(3, 3), 0);
    // even for an id the graph has never seen
    assert_eq!(g.shortest_path(42, 42), 0);
}

#[test]
fn unknown_endpoint_gives_the_sentinel() {
    let g = square();
    assert_eq!(g.shortest_path(1, 99), i32::MAX);
    assert_eq!(g.shortest_path(99, 1), i32::MAX);
    assert_eq!(g.shortest_path_dijkstra(99, 98), i32::MAX);
}

#[test]
fn distances_are_symmetric() {
    let g = square();
    for a in 1..=4 {
        for b in 1..=4 {
            assert_eq!(g.shortest_path(a, b), g.shortest_path(b, a));
            assert_eq!(g.shortest_path_dijkstra(a, b), g.shortest_path_dijkstra(b, a));
        }
    }
}

#[test]
fn strategies_agree_on_every_pair() {
    let g = square();
    for a in 1..=4 {
        for b in 1..=4 {
            assert_eq!(g.shortest_path(a, b), g.shortest_path_dijkstra(a, b));
        }
    }
}

#[test]
fn triangle_inequality_on_the_square() {
    let g = square();
    for a in 1..=4 {
        for b in 1..=4 {
            for c in 1..=4 {
                let ab = g.shortest_path(a, b) as i64;
                let bc = g.shortest_path(b, c) as i64;
                let ac = g.shortest_path(a, c) as i64;
                assert!(ac <= ab + bc);
            }
        }
    }
}

#[test]
fn raising_a_weight_never_lowers_a_distance() {
    let mut light = Graph::new();
    light.add_node(node(1, 0, 0));
    light.add_node(node(2, 1, 0));
    light.add_node(node(3, 2, 0));
    light.add_edge(edge(1, 2, 1));
    light.add_edge(edge(2, 3, 1));
    let mut heavy = Graph::new();
    heavy.add_node(node(1, 0, 0));
    heavy.add_node(node(2, 1, 0));
    heavy.add_node(node(3, 2, 0));
    heavy.add_edge(edge(1, 2, 1));
    heavy.add_edge(edge(2, 3, 7));
    assert_eq!(light.shortest_path(1, 3), 2);
    assert_eq!(heavy.shortest_path(1, 3), 8);
    for a in 1..=3 {
        for b in 1..=3 {
            assert!(light.shortest_path(a, b) <= heavy.shortest_path(a, b));
        }
    }
}

#[test]
fn bulk_build_matches_incremental_insertion() {
    let nodes = vec![node(1, 0, 0), node(2, 1, 0), node(3, 1, 1), node(4, 0, 1)];
    let edges = vec![edge(1, 2, 1), edge(2, 3, 1), edge(3, 4, 1), edge(4, 1, 1), edge(1, 3, 3)];
    let built = Graph::build(nodes, edges);
    let grown = square();
    for a in 1..=4 {
        for b in 1..=4 {
            assert_eq!(built.shortest_path(a, b), grown.shortest_path(a, b));
        }
    }
}

#[test]
fn re_added_node_id_wins_on_lookup() {
    let mut g = Graph::new();
    g.add_node(node(1, 0, 0));
    g.add_node(node(2, 9, 9));
    g.add_node(node(2, 1, 0)); // the later coordinates count
    g.add_edge(edge(1, 2, 2));
    assert_eq!(g.shortest_path(1, 2), 2);
    assert_eq!(g.shortest_path_dijkstra(1, 2), 2);
}

#[test]
fn costs_at_or_beyond_the_sentinel_read_as_unreachable() {
    let mut g = Graph::new();
    g.add_node(node(1, 0, 0));
    g.add_node(node(2, 1, 0));
    g.add_node(node(3, 2, 0));
    g.add_node(node(4, 3, 0));
    let big = 1_073_741_823; // three of these sum past i32::MAX
    g.add_edge(edge(1, 2, big));
    g.add_edge(edge(2, 3, big));
    g.add_edge(edge(3, 4, big));
    assert_eq!(g.shortest_path_dijkstra(1, 2), big);
    assert_eq!(g.shortest_path_dijkstra(1, 3), 2 * big);
    assert_eq!(g.shortest_path_dijkstra(1, 4), i32::MAX);
    assert_eq!(g.shortest_path(1, 4), i32::MAX);
}

#[test]
fn a_cost_of_exactly_the_sentinel_reads_as_unreachable() {
    let mut g = Graph::new();
    g.add_node(node(1, 0, 0));
    g.add_node(node(2, 1, 0));
    g.add_node(node(3, 2, 0));
    g.add_edge(edge(1, 2, i32::MAX - 1));
    g.add_edge(edge(2, 3, 1));
    assert_eq!(g.shortest_path_dijkstra(1, 2), i32::MAX - 1);
    assert_eq!(g.shortest_path_dijkstra(1, 3), i32::MAX);
}

#[test]
fn two_components_cannot_reach_each_other() {
    let mut g = Graph::new();
    g.add_node(node(1, 0, 0));
    g.add_node(node(2, 1, 0));
    g.add_node(node(10, 5, 5));
    g.add_node(node(11, 6, 5));
    g.add_edge(edge(1, 2, 1));
    g.add_edge(edge(10, 11, 1));
    assert_eq!(g.shortest_path(1, 2), 1);
    assert_eq!(g.shortest_path(10, 11), 1);
    assert_eq!(g.shortest_path(1, 10), i32::MAX);
    assert_eq!(g.shortest_path_dijkstra(2, 11), i32::MAX);
}

#[test]
fn an_edge_to_a_node_never_added_is_inert() {
    let mut g = Graph::new();
    g.add_node(node(1, 0, 0));
    g.add_node(node(3, 2, 0));
    // node 2 is referenced by edges but never added: no path may use it
    g.add_edge(edge(1, 2, 1));
    g.add_edge(edge(2, 3, 1));
    assert_eq!(g.shortest_path_dijkstra(1, 3), i32::MAX);
    assert_eq!(g.shortest_path_dijkstra(1, 2), i32::MAX);
}

#[test]
fn zero_weight_edges_are_allowed() {
    let mut g = Graph::new();
    g.add_node(node(1, 0, 0));
    g.add_node(node(2, 0, 0));
    g.add_node(node(3, 1, 0));
    g.add_edge(edge(1, 2, 0));
    g.add_edge(edge(2, 3, 1));
    assert_eq!(g.shortest_path(1, 2), 0);
    assert_eq!(g.shortest_path(1, 3), 1);
}

#[test]
fn dijkstra_needs_no_grid_contract() {
    // weights far below the coordinate distances: uniform-cost search is
    // still exact
    let mut g = Graph::new();
    g.add_node(node(1, 0, 0));
    g.add_node(node(2, 1000, 1000));
    g.add_node(node(3, -500, 800));
    g.add_edge(edge(1, 2, 4));
    g.add_edge(edge(2, 3, 1));
    g.add_edge(edge(1, 3, 9));
    assert_eq!(g.shortest_path_dijkstra(1, 3), 5);
    assert_eq!(g.shortest_path_dijkstra(3, 1), 5);
}

#[test]
fn larger_grid_with_detours() {
    // a 3x3 grid of unit edges; every distance is the Manhattan distance
    let mut g = Graph::new();
    for r in 0..3 {
        for c in 0..3 {
            g.add_node(node(r * 3 + c + 1, c, r));
        }
    }
    for r in 0..3 {
        for c in 0..3 {
            let id = r * 3 + c + 1;
            if c < 2 {
                g.add_edge(edge(id, id + 1, 1));
            }
            if r < 2 {
                g.add_edge(edge(id, id + 3, 1));
            }
        }
    }
    for a in 1..=9 {
        for b in 1..=9 {
            let (ar, ac): (i32, i32) = ((a - 1) / 3, (a - 1) % 3);
            let (br, bc): (i32, i32) = ((b - 1) / 3, (b - 1) % 3);
            let expected = (ar - br).abs() + (ac - bc).abs();
            assert_eq!(g.shortest_path(a, b), expected);
            assert_eq!(g.shortest_path_dijkstra(a, b), expected);
        }
    }
}
