//! The best-first search shared by both query strategies: a tentative-cost
//! table, a min-priority frontier with deterministic tie-breaking, and the
//! heuristic. Stale frontier entries are re-inserted and skipped on pop
//! instead of decreasing keys in place.

use vstd::prelude::*;

use crate::graph::{coords_of, known, lemma_known_iff_has_id, nonneg_weights, Graph};
use crate::paths::{
    arc_ok, end_of, is_path, is_shortest, links, path_cost, unreachable_cost, lemma_cost_nonneg,
    lemma_path_endpoints_known, lemma_path_extend, lemma_path_split,
};

verus! {

// ------------------------------------------------------------------
// The tentative-cost table: an association list with unique keys.
// ------------------------------------------------------------------

/// The node id stored at index `j` of the table.
pub open spec fn key_at(s: Seq<(i32, i64)>, j: int) -> int {
    s[j].0 as int
}

/// Some entry of the table carries the node id `k`.
pub open spec fn has_key(s: Seq<(i32, i64)>, k: int) -> bool {
    exists|j: int| 0 <= j < s.len() && #[trigger] key_at(s, j) == k
}

/// The index of the entry carrying `k` (unique when `keys_unique` holds).
pub open spec fn idx_of(s: Seq<(i32, i64)>, k: int) -> int {
    choose|j: int| 0 <= j < s.len() && #[trigger] key_at(s, j) == k
}

/// The tentative cost recorded for node id `k`.
pub open spec fn val_of(s: Seq<(i32, i64)>, k: int) -> int {
    s[idx_of(s, k)].1 as int
}

/// No node id appears twice in the table.
pub open spec fn keys_unique(s: Seq<(i32, i64)>) -> bool {
    forall|i: int, j: int| 0 <= i < j < s.len() ==> key_at(s, i) != key_at(s, j)
}

/// The entry at index `j` is the one `val_of` reads for its key.
pub proof fn lemma_val_at(s: Seq<(i32, i64)>, j: int)
    requires
        keys_unique(s),
        0 <= j < s.len(),
    ensures
        has_key(s, key_at(s, j)),
        val_of(s, key_at(s, j)) == s[j].1 as int,
        idx_of(s, key_at(s, j)) == j,
{
    let k = key_at(s, j);
    assert(has_key(s, k));
    let i = idx_of(s, k);
    assert(0 <= i < s.len() && key_at(s, i) == k);
    if i != j {
        if i < j {
            assert(key_at(s, i) != key_at(s, j));
        } else {
            assert(key_at(s, j) != key_at(s, i));
        }
    }
}

/// Overwriting the entry at `i` with the same key changes exactly that
/// key's recorded cost.
pub proof fn lemma_update_view(s: Seq<(i32, i64)>, i: int, v: i64)
    requires
        keys_unique(s),
        0 <= i < s.len(),
    ensures
        keys_unique(s.update(i, (s[i].0, v))),
        forall|n: int| #[trigger] has_key(s.update(i, (s[i].0, v)), n) ==> has_key(s, n),
        forall|n: int| #[trigger] has_key(s, n) ==> has_key(s.update(i, (s[i].0, v)), n),
        val_of(s.update(i, (s[i].0, v)), key_at(s, i)) == v as int,
        forall|n: int|
            #[trigger] has_key(s, n) && n != key_at(s, i) ==> val_of(s.update(i, (s[i].0, v)), n)
                == val_of(s, n),
{
    let s2 = s.update(i, (s[i].0, v));
    assert(forall|j: int| 0 <= j < s.len() ==> key_at(s2, j) == #[trigger] key_at(s, j));
    assert forall|i2: int, j2: int| 0 <= i2 < j2 < s2.len() implies key_at(s2, i2) != key_at(
        s2,
        j2,
    ) by {
        assert(key_at(s2, i2) == key_at(s, i2));
        assert(key_at(s2, j2) == key_at(s, j2));
    }
    assert forall|n: int| has_key(s2, n) <==> #[trigger] has_key(s, n) by {
        if has_key(s2, n) {
            let j = choose|j: int| 0 <= j < s2.len() && #[trigger] key_at(s2, j) == n;
            assert(key_at(s, j) == n);
        }
        if has_key(s, n) {
            let j = choose|j: int| 0 <= j < s.len() && #[trigger] key_at(s, j) == n;
            assert(key_at(s2, j) == n);
        }
    }
    lemma_val_at(s, i);
    lemma_val_at(s2, i);
    assert forall|n: int| #[trigger] has_key(s, n) && n != key_at(s, i) implies val_of(s2, n)
        == val_of(s, n) by {
        let j = choose|j: int| 0 <= j < s.len() && #[trigger] key_at(s, j) == n;
        lemma_val_at(s, j);
        lemma_val_at(s2, j);
    }
}

/// Appending an entry under a fresh key extends the table by that key.
pub proof fn lemma_push_view(s: Seq<(i32, i64)>, k: i32, v: i64)
    requires
        keys_unique(s),
        !has_key(s, k as int),
    ensures
        keys_unique(s.push((k, v))),
        forall|n: int|
            #[trigger] has_key(s.push((k, v)), n) ==> (has_key(s, n) || n == k as int),
        forall|n: int| #[trigger] has_key(s, n) ==> has_key(s.push((k, v)), n),
        has_key(s.push((k, v)), k as int),
        val_of(s.push((k, v)), k as int) == v as int,
        forall|n: int| #[trigger] has_key(s, n) ==> val_of(s.push((k, v)), n) == val_of(s, n),
{
    let s2 = s.push((k, v));
    assert(forall|j: int| 0 <= j < s.len() ==> key_at(s2, j) == #[trigger] key_at(s, j));
    assert(key_at(s2, s.len() as int) == k as int);
    assert forall|i: int, j: int| 0 <= i < j < s2.len() implies key_at(s2, i) != key_at(
        s2,
        j,
    ) by {
        if j < s.len() {
            assert(key_at(s, i) != key_at(s, j));
        } else {
            assert(key_at(s2, i) == key_at(s, i));
        }
    }
    assert forall|n: int| #[trigger] has_key(s2, n) implies (has_key(s, n) || n == k as int) by {
        let j = choose|j: int| 0 <= j < s2.len() && #[trigger] key_at(s2, j) == n;
        if j < s.len() {
            assert(key_at(s, j) == n);
        }
    }
    assert forall|n: int| #[trigger] has_key(s, n) implies has_key(s2, n) by {
        let j = choose|j: int| 0 <= j < s.len() && #[trigger] key_at(s, j) == n;
        assert(key_at(s2, j) == n);
    }
    lemma_val_at(s2, s.len() as int);
    assert forall|n: int| #[trigger] has_key(s, n) implies val_of(s2, n) == val_of(s, n) by {
        let j = choose|j: int| 0 <= j < s.len() && #[trigger] key_at(s, j) == n;
        lemma_val_at(s, j);
        lemma_val_at(s2, j);
    }
}

/// The sum of all recorded costs; the search's termination measure.
pub open spec fn sum_vals(s: Seq<(i32, i64)>) -> int
    decreases s.len(),
{
    if s.len() == 0 {
        0
    } else {
        sum_vals(s.drop_last()) + s.last().1 as int
    }
}

/// Overwriting one entry moves the sum by the difference of the costs.
pub proof fn lemma_sum_update(s: Seq<(i32, i64)>, i: int, e: (i32, i64))
    requires
        0 <= i < s.len(),
    ensures
        sum_vals(s.update(i, e)) == sum_vals(s) - s[i].1 as int + e.1 as int,
    decreases s.len(),
{
    let s2 = s.update(i, e);
    if i == s.len() - 1 {
        assert(s2.drop_last() =~= s.drop_last());
    } else {
        assert(s2.drop_last() =~= s.drop_last().update(i, e));
        assert(s2.last() == s.last());
        lemma_sum_update(s.drop_last(), i, e);
    }
}

/// A table of non-negative costs has a non-negative sum.
pub proof fn lemma_sum_nonneg(s: Seq<(i32, i64)>)
    requires
        forall|j: int| 0 <= j < s.len() ==> (#[trigger] s[j]).1 as int >= 0,
    ensures
        sum_vals(s) >= 0,
    decreases s.len(),
{
    if s.len() > 0 {
        lemma_sum_nonneg(s.drop_last());
    }
}

/// Find the index at which the table records node id `key`, if any.
fn find_key(table: &Vec<(i32, i64)>, key: i32) -> (r: Option<usize>)
    ensures
        match r {
            Some(i) => i < table@.len() && key_at(table@, i as int) == key as int,
            None => !has_key(table@, key as int),
        },
{
    let mut i: usize = 0;
    while i < table.len()
        invariant
            i <= table@.len(),
            forall|j: int| 0 <= j < i ==> #[trigger] key_at(table@, j) != key as int,
        decreases table@.len() - i,
    {
        if table[i].0 == key {
            return Some(i);
        }
        i += 1;
    }
    None
}

// ------------------------------------------------------------------
// Node lookup.
// ------------------------------------------------------------------

/// Find the coordinates the graph records for `id`: the node added last
/// under that id wins.
fn find_coords(g: &Graph, id: i32) -> (r: Option<(i32, i32)>)
    ensures
        match r {
            Some(c) => coords_of(g.nodes@, id as int) == Some((c.0 as int, c.1 as int)),
            None => coords_of(g.nodes@, id as int) is None,
        },
{
    let mut i: usize = g.nodes.len();
    proof {
        assert(g.nodes@.take(i as int) =~= g.nodes@);
    }
    while i > 0
        invariant
            i <= g.nodes@.len(),
            coords_of(g.nodes@, id as int) == coords_of(g.nodes@.take(i as int), id as int),
        decreases i,
    {
        i -= 1;
        let n = g.nodes[i];
        proof {
            assert(g.nodes@.take(i as int + 1).drop_last() =~= g.nodes@.take(i as int));
            assert(g.nodes@.take(i as int + 1).last() == g.nodes@[i as int]);
        }
        if n.id == id {
            return Some((n.x, n.y));
        }
    }
    proof {
        assert(g.nodes@.take(0) =~= Seq::<crate::graph::Node>::empty());
    }
    None
}

// ------------------------------------------------------------------
// The frontier.
// ------------------------------------------------------------------

/// One frontier entry: the priority `f` (cost so far plus heuristic
/// estimate), the cost so far `g`, and the node it stands for.
#[derive(Clone, Copy, Debug)]
pub(crate) struct State {
    pub(crate) f: i64,
    pub(crate) g: i64,
    pub(crate) node: i32,
}

/// Strict ordering of frontier entries: by priority, then by cost so far,
/// then by node id — a fully deterministic visitation order.
pub(crate) open spec fn state_lt(a: State, b: State) -> bool {
    ||| a.f < b.f
    ||| (a.f == b.f && a.g < b.g)
    ||| (a.f == b.f && a.g == b.g && a.node < b.node)
}

pub(crate) open spec fn state_le(a: State, b: State) -> bool {
    state_lt(a, b) || a == b
}

/// Compare two frontier entries in the deterministic tie-break order.
fn state_lt_exec(a: &State, b: &State) -> (r: bool)
    ensures
        r == state_lt(*a, *b),
{
    if a.f != b.f {
        a.f < b.f
    } else if a.g != b.g {
        a.g < b.g
    } else {
        a.node < b.node
    }
}

/// Remove and return the least frontier entry in the deterministic order.
fn pop_min(fr: &mut Vec<State>) -> (st: State)
    requires
        old(fr)@.len() > 0,
    ensures
        old(fr)@.contains(st),
        final(fr)@.len() == old(fr)@.len() - 1,
        forall|i: int| 0 <= i < final(fr)@.len() ==> old(fr)@.contains(#[trigger] final(fr)@[i]),
        forall|x: State| old(fr)@.contains(x) && x != st ==> final(fr)@.contains(x),
        forall|i: int| 0 <= i < old(fr)@.len() ==> state_le(st, #[trigger] old(fr)@[i]),
{
    let mut best: usize = 0;
    let mut i: usize = 1;
    while i < fr.len()
        invariant
            fr@ == old(fr)@,
            1 <= i <= fr@.len(),
            best < i,
            forall|j: int| 0 <= j < i ==> state_le(fr@[best as int], #[trigger] fr@[j]),
        decreases fr@.len() - i,
    {
        if state_lt_exec(&fr[i], &fr[best]) {
            best = i;
        }
        i += 1;
    }
    let st = fr[best];
    let ghost pre = fr@;
    let ghost b = best as int;
    fr.swap_remove(best);
    proof {
        assert(pre[b] == st);
        assert forall|i2: int| 0 <= i2 < fr@.len() implies pre.contains(#[trigger] fr@[i2]) by {
            if i2 == b {
                assert(fr@[i2] == pre[pre.len() - 1]);
            } else {
                assert(fr@[i2] == pre[i2]);
            }
        }
        assert forall|x: State| pre.contains(x) && x != st implies fr@.contains(x) by {
            let j = choose|j: int| 0 <= j < pre.len() && pre[j] == x;
            assert(j != b);
            if j == pre.len() - 1 {
                assert(b < pre.len() - 1);
                assert(fr@[b] == x);
            } else {
                assert(fr@[j] == x);
            }
        }
    }
    st
}

// ------------------------------------------------------------------
// The heuristic.
// ------------------------------------------------------------------

pub open spec fn abs_val(v: int) -> int {
    if v < 0 {
        -v
    } else {
        v
    }
}

/// Manhattan distance between two coordinate pairs.
pub open spec fn manhattan(p: (int, int), q: (int, int)) -> int {
    abs_val(p.0 - q.0) + abs_val(p.1 - q.1)
}

/// The coordinates recorded for a known node id (immaterial otherwise).
pub open spec fn coord_xy(g: Graph, id: int) -> (int, int) {
    match coords_of(g.nodes@, id) {
        Some(c) => c,
        None => (0, 0),
    }
}

/// The cost estimate from `n` to the destination `dst`: zero under
/// uniform-cost search, the Manhattan distance under A*.
pub open spec fn h_of(g: Graph, astar: bool, dst: int, n: int) -> int {
    if astar && known(g, n) && known(g, dst) {
        manhattan(coord_xy(g, n), coord_xy(g, dst))
    } else {
        0
    }
}

/// The caller contract that makes the Manhattan heuristic admissible and
/// consistent: every arc between known nodes costs at least the Manhattan
/// distance between its endpoints.
pub open spec fn admissible_grid(g: Graph) -> bool {
    forall|j: int|
        0 <= j < g.arcs@.len() && known(g, (#[trigger] g.arcs@[j]).node_a_id as int) && known(
            g,
            g.arcs@[j].node_b_id as int,
        ) ==> g.arcs@[j].weight as int >= manhattan(
            coord_xy(g, g.arcs@[j].node_a_id as int),
            coord_xy(g, g.arcs@[j].node_b_id as int),
        )
}

/// Consistency of the estimate: along any arc between known nodes it drops
/// by at most the arc's weight.
pub open spec fn consistent_h(g: Graph, astar: bool, dst: int) -> bool {
    forall|j: int|
        0 <= j < g.arcs@.len() && known(g, (#[trigger] g.arcs@[j]).node_a_id as int) && known(
            g,
            g.arcs@[j].node_b_id as int,
        ) ==> h_of(g, astar, dst, g.arcs@[j].node_a_id as int) <= g.arcs@[j].weight as int + h_of(
            g,
            astar,
            dst,
            g.arcs@[j].node_b_id as int,
        )
}

/// Both strategies' estimates are consistent, non-negative, and vanish at
/// the destination; A* needs the grid caller contract, uniform-cost search
/// only non-negative weights.
pub proof fn lemma_heuristic_ok(g: Graph, astar: bool, dst: int)
    requires
        nonneg_weights(g),
        astar ==> admissible_grid(g),
    ensures
        consistent_h(g, astar, dst),
        forall|n: int| h_of(g, astar, dst, n) >= 0,
        h_of(g, astar, dst, dst) == 0,
{
    assert forall|j: int|
        0 <= j < g.arcs@.len() && known(g, (#[trigger] g.arcs@[j]).node_a_id as int) && known(
            g,
            g.arcs@[j].node_b_id as int,
        ) implies h_of(g, astar, dst, g.arcs@[j].node_a_id as int) <= g.arcs@[j].weight as int
        + h_of(g, astar, dst, g.arcs@[j].node_b_id as int) by {
        let u = g.arcs@[j].node_a_id as int;
        let v = g.arcs@[j].node_b_id as int;
        if astar && known(g, dst) {
            assert(g.arcs@[j].weight as int >= manhattan(coord_xy(g, u), coord_xy(g, v)));
            assert(manhattan(coord_xy(g, u), coord_xy(g, dst)) <= manhattan(
                coord_xy(g, u),
                coord_xy(g, v),
            ) + manhattan(coord_xy(g, v), coord_xy(g, dst)));
        }
    }
}

/// Compute the estimate for a known node; mirrors `h_of` exactly.
fn h_exec(g: &Graph, astar: bool, dst: i32, n: i32) -> (r: i64)
    requires
        known(*g, n as int),
        known(*g, dst as int),
    ensures
        r as int == h_of(*g, astar, dst as int, n as int),
        0 <= r <= 0x4_0000_0000,
{
    if !astar {
        return 0;
    }
    let nc = find_coords(g, n).unwrap();
    let dc = find_coords(g, dst).unwrap();
    let dx: i64 = nc.0 as i64 - dc.0 as i64;
    let dy: i64 = nc.1 as i64 - dc.1 as i64;
    let adx: i64 = if dx < 0 {
        -dx
    } else {
        dx
    };
    let ady: i64 = if dy < 0 {
        -dy
    } else {
        dy
    };
    adx + ady
}

} // verus!

verus! {

// ------------------------------------------------------------------
// The search invariants.
// ------------------------------------------------------------------

/// The tentative-cost table is well formed: unique keys, exactly the known
/// node ids, and every recorded cost between zero and the sentinel.
pub(crate) open spec fn dist_wf(g: Graph, s: Seq<(i32, i64)>) -> bool {
    &&& keys_unique(s)
    &&& forall|n: int| #[trigger] has_key(s, n) ==> known(g, n)
    &&& forall|n: int| #[trigger] known(g, n) ==> has_key(s, n)
    &&& forall|n: int| #[trigger] has_key(s, n) ==> 0 <= val_of(s, n) <= unreachable_cost()
}

/// A frontier entry is coherent with the table: its node is recorded, at
/// most at the entry's cost, and its priority is cost plus estimate.
pub(crate) open spec fn entry_ok(g: Graph, astar: bool, dst: int, s: Seq<(i32, i64)>, e: State) -> bool {
    &&& has_key(s, e.node as int)
    &&& val_of(s, e.node as int) <= e.g as int
    &&& 0 <= e.g as int
    &&& (e.g as int) < unreachable_cost()
    &&& e.f as int == e.g as int + h_of(g, astar, dst, e.node as int)
}

pub(crate) open spec fn entries_ok(
    g: Graph,
    astar: bool,
    dst: int,
    s: Seq<(i32, i64)>,
    fr: Seq<State>,
) -> bool {
    forall|i: int| 0 <= i < fr.len() ==> entry_ok(g, astar, dst, s, #[trigger] fr[i])
}

/// Every recorded cost below the sentinel is witnessed by an actual path.
pub(crate) open spec fn sound_dist(g: Graph, src: int, s: Seq<(i32, i64)>) -> bool {
    forall|n: int|
        #[trigger] has_key(s, n) && val_of(s, n) < unreachable_cost() ==> exists|p: Seq<int>|
            is_path(g, p, src, n) && path_cost(g, p) == val_of(s, n)
}

/// Every node with a recorded cost below the sentinel that is not settled
/// still has a fresh frontier entry carrying exactly that cost.
pub(crate) open spec fn fresh_ok(s: Seq<(i32, i64)>, fr: Seq<State>, stl: Set<int>) -> bool {
    forall|n: int|
        #[trigger] has_key(s, n) && val_of(s, n) < unreachable_cost() && !stl.contains(n)
            ==> exists|i: int|
            0 <= i < fr.len() && (#[trigger] fr[i]).node as int == n && fr[i].g as int == val_of(
                s,
                n,
            )
}

/// Settled nodes are recorded, fully relaxed along every outgoing arc, and
/// their recorded cost is optimal.
pub(crate) open spec fn settled_ok(g: Graph, src: int, s: Seq<(i32, i64)>, stl: Set<int>) -> bool {
    &&& forall|n: int| #[trigger] stl.contains(n) ==> has_key(s, n)
    &&& forall|n: int, j: int|
        #![trigger stl.contains(n), g.arcs@[j]]
        stl.contains(n) && 0 <= j < g.arcs@.len() && g.arcs@[j].node_a_id as int == n && known(
            g,
            g.arcs@[j].node_b_id as int,
        ) ==> has_key(s, g.arcs@[j].node_b_id as int) && val_of(s, g.arcs@[j].node_b_id as int)
            <= val_of(s, n) + g.arcs@[j].weight as int
    &&& forall|n: int, p: Seq<int>|
        #![trigger stl.contains(n), is_path(g, p, src, n)]
        stl.contains(n) && is_path(g, p, src, n) ==> path_cost(g, p) >= val_of(s, n)
}

/// Walking any path from the source to an unsettled node, the first
/// unsettled node along it (the source itself, or the far end of the first
/// arc leaving settled ground) is recorded at no more than the cost of the
/// prefix reaching it.
proof fn lemma_first_unsettled(
    g: Graph,
    src: int,
    s: Seq<(i32, i64)>,
    stl: Set<int>,
    p: Seq<int>,
    z: int,
)
    requires
        settled_ok(g, src, s, stl),
        has_key(s, src),
        val_of(s, src) == 0,
        is_path(g, p, src, z),
        !stl.contains(z),
    ensures
        exists|i: int|
            0 <= i <= p.len() && !stl.contains(end_of(g, #[trigger] p.take(i), src)) && has_key(
                s,
                end_of(g, p.take(i), src),
            ) && val_of(s, end_of(g, p.take(i), src)) <= path_cost(g, p.take(i)),
    decreases p.len(),
{
    if p.len() == 0 {
        assert(p.take(0) =~= p);
        assert(z == src);
        assert(0 <= 0 <= p.len() && !stl.contains(end_of(g, p.take(0), src)) && has_key(
            s,
            end_of(g, p.take(0), src),
        ) && val_of(s, end_of(g, p.take(0), src)) <= path_cost(g, p.take(0)));
    } else {
        let q = p.drop_last();
        let j = p.last();
        let z2 = end_of(g, q, src);
        if !stl.contains(z2) {
            lemma_first_unsettled(g, src, s, stl, q, z2);
            let i0 = choose|i: int|
                0 <= i <= q.len() && !stl.contains(end_of(g, #[trigger] q.take(i), src))
                    && has_key(s, end_of(g, q.take(i), src)) && val_of(
                    s,
                    end_of(g, q.take(i), src),
                ) <= path_cost(g, q.take(i));
            assert(p.take(i0) =~= q.take(i0));
            assert(0 <= i0 <= p.len() && !stl.contains(end_of(g, p.take(i0), src)) && has_key(
                s,
                end_of(g, p.take(i0), src),
            ) && val_of(s, end_of(g, p.take(i0), src)) <= path_cost(g, p.take(i0)));
        } else {
            assert(is_path(g, q, src, z2));
            assert(path_cost(g, q) >= val_of(s, z2));
            assert(g.arcs@[j].node_a_id as int == z2);
            assert(known(g, g.arcs@[j].node_b_id as int));
            assert(has_key(s, z) && val_of(s, z) <= val_of(s, z2) + g.arcs@[j].weight as int);
            let i0 = p.len() as int;
            assert(p.take(i0) =~= p);
            assert(0 <= i0 <= p.len() && !stl.contains(end_of(g, p.take(i0), src)) && has_key(
                s,
                end_of(g, p.take(i0), src),
            ) && val_of(s, end_of(g, p.take(i0), src)) <= path_cost(g, p.take(i0)));
        }
    }
}

/// Along any walk, the cost is at least the drop of a consistent estimate.
proof fn lemma_cost_ge_h(g: Graph, astar: bool, dst: int, p: Seq<int>, a: int)
    requires
        consistent_h(g, astar, dst),
        links(g, p, a),
    ensures
        path_cost(g, p) >= h_of(g, astar, dst, a) - h_of(g, astar, dst, end_of(g, p, a)),
    decreases p.len(),
{
    if p.len() > 0 {
        let q = p.drop_last();
        let j = p.last();
        lemma_cost_ge_h(g, astar, dst, q, a);
        assert(g.arcs@[j].node_a_id as int == end_of(g, q, a));
        assert(h_of(g, astar, dst, end_of(g, q, a)) <= g.arcs@[j].weight as int + h_of(
            g,
            astar,
            dst,
            end_of(g, p, a),
        ));
    }
}

/// The crux of the search: while the invariants hold, no path from the
/// source to an unsettled node `z` costs less than the least frontier
/// priority minus the estimate at `z` (or the sentinel, whichever is
/// smaller).
proof fn lemma_path_lower_bound(
    g: Graph,
    astar: bool,
    src: int,
    dst: int,
    s: Seq<(i32, i64)>,
    stl: Set<int>,
    fr: Seq<State>,
    fstar: int,
    p: Seq<int>,
    z: int,
)
    requires
        nonneg_weights(g),
        consistent_h(g, astar, dst),
        dist_wf(g, s),
        settled_ok(g, src, s, stl),
        fresh_ok(s, fr, stl),
        entries_ok(g, astar, dst, s, fr),
        has_key(s, src),
        val_of(s, src) == 0,
        is_path(g, p, src, z),
        !stl.contains(z),
        forall|i: int| 0 <= i < fr.len() ==> fstar <= (#[trigger] fr[i]).f as int,
    ensures
        path_cost(g, p) >= fstar - h_of(g, astar, dst, z) || path_cost(g, p)
            >= unreachable_cost(),
{
    lemma_first_unsettled(g, src, s, stl, p, z);
    let i = choose|i: int|
        0 <= i <= p.len() && !stl.contains(end_of(g, #[trigger] p.take(i), src)) && has_key(
            s,
            end_of(g, p.take(i), src),
        ) && val_of(s, end_of(g, p.take(i), src)) <= path_cost(g, p.take(i));
    let m = end_of(g, p.take(i), src);
    lemma_path_split(g, p, src, i);
    if val_of(s, m) < unreachable_cost() {
        let fi = choose|fi: int|
            0 <= fi < fr.len() && (#[trigger] fr[fi]).node as int == m && fr[fi].g as int
                == val_of(s, m);
        assert(entry_ok(g, astar, dst, s, fr[fi]));
        lemma_cost_ge_h(g, astar, dst, p.skip(i), m);
        assert(path_cost(g, p.skip(i)) >= h_of(g, astar, dst, m) - h_of(g, astar, dst, z));
        assert(path_cost(g, p) >= val_of(s, m) + h_of(g, astar, dst, m) - h_of(g, astar, dst, z));
        assert(fstar <= fr[fi].f as int);
        assert(fr[fi].f as int == val_of(s, m) + h_of(g, astar, dst, m));
    } else {
        assert(val_of(s, m) == unreachable_cost());
        lemma_cost_nonneg(g, p.skip(i), m);
        assert(path_cost(g, p) >= unreachable_cost());
    }
}

/// Entries stay coherent when the frontier only loses elements.
proof fn lemma_entries_shrink(
    g: Graph,
    astar: bool,
    dst: int,
    s: Seq<(i32, i64)>,
    fr0: Seq<State>,
    fr1: Seq<State>,
)
    requires
        entries_ok(g, astar, dst, s, fr0),
        forall|i: int| 0 <= i < fr1.len() ==> fr0.contains(#[trigger] fr1[i]),
    ensures
        entries_ok(g, astar, dst, s, fr1),
{
    assert forall|i: int| 0 <= i < fr1.len() implies entry_ok(g, astar, dst, s, #[trigger] fr1[i]) by {
        let x = fr1[i];
        let j = choose|j: int| 0 <= j < fr0.len() && fr0[j] == x;
        assert(entry_ok(g, astar, dst, s, fr0[j]));
    }
}

/// Freshness survives popping an entry that is stale or whose node is
/// settled: the fresh witnesses are other entries.
proof fn lemma_fresh_after_pop(
    s: Seq<(i32, i64)>,
    fr0: Seq<State>,
    fr1: Seq<State>,
    stl: Set<int>,
    st: State,
)
    requires
        fresh_ok(s, fr0, stl),
        forall|x: State| fr0.contains(x) && x != st ==> fr1.contains(x),
        st.g as int > val_of(s, st.node as int) || stl.contains(st.node as int),
    ensures
        fresh_ok(s, fr1, stl),
{
    assert forall|n: int|
        #[trigger] has_key(s, n) && val_of(s, n) < unreachable_cost() && !stl.contains(n) implies exists|i: int|
        0 <= i < fr1.len() && (#[trigger] fr1[i]).node as int == n && fr1[i].g as int == val_of(
            s,
            n,
        ) by {
        let wi = choose|i: int|
            0 <= i < fr0.len() && (#[trigger] fr0[i]).node as int == n && fr0[i].g as int
                == val_of(s, n);
        let w = fr0[wi];
        assert(fr0.contains(w));
        assert(w != st);
        assert(fr1.contains(w));
        let i1 = choose|i: int| 0 <= i < fr1.len() && fr1[i] == w;
        assert(0 <= i1 < fr1.len() && fr1[i1].node as int == n && fr1[i1].g as int == val_of(s, n));
    }
}

/// The table's costs are non-negative entry by entry, hence so is the sum.
proof fn lemma_sum_nonneg_wf(g: Graph, s: Seq<(i32, i64)>)
    requires
        dist_wf(g, s),
    ensures
        sum_vals(s) >= 0,
{
    assert forall|j: int| 0 <= j < s.len() implies (#[trigger] s[j]).1 as int >= 0 by {
        lemma_val_at(s, j);
    }
    lemma_sum_nonneg(s);
}

} // verus!

verus! {

impl Graph {
    /// The shared best-first search. Works outward from the source on the
    /// tentative-cost table (every known node starts at the sentinel, the
    /// source at zero), always expanding the least-priority frontier entry,
    /// skipping entries that a cheaper later push has superseded, and
    /// stopping the moment the destination is popped.
    #[verifier::loop_isolation(false)]
    #[verifier::rlimit(50)]
    fn search(&self, from_id: i32, to_id: i32, astar: bool) -> (r: i32)
        requires
            from_id != to_id,
            known(*self, from_id as int),
            known(*self, to_id as int),
            nonneg_weights(*self),
            consistent_h(*self, astar, to_id as int),
        ensures
            is_shortest(*self, from_id as int, to_id as int, r as int),
    {
        let ghost gg = *self;
        let ghost src = from_id as int;
        let ghost dst = to_id as int;

        // Every known node id starts at the unreachable sentinel.
        let mut dist: Vec<(i32, i64)> = Vec::new();
        let mut k: usize = 0;
        while k < self.nodes.len()
            invariant
                k <= self.nodes@.len(),
                keys_unique(dist@),
                forall|j: int| 0 <= j < dist@.len() ==> (#[trigger] dist@[j]).1 == i32::MAX as i64,
                forall|n: int| #[trigger] has_key(dist@, n) ==> known(gg, n),
                forall|jj: int|
                    0 <= jj < k ==> has_key(dist@, (#[trigger] self.nodes@[jj]).id as int),
            decreases self.nodes@.len() - k,
        {
            let id = self.nodes[k].id;
            let found = find_key(&dist, id);
            if found.is_none() {
                let ghost d0 = dist@;
                dist.push((id, i32::MAX as i64));
                proof {
                    lemma_push_view(d0, id, i32::MAX as i64);
                    lemma_known_iff_has_id(self.nodes@, id as int);
                    assert(self.nodes@[k as int].id as int == id as int);
                }
            }
            k += 1;
        }
        proof {
            assert forall|n: int| #[trigger] known(gg, n) implies has_key(dist@, n) by {
                lemma_known_iff_has_id(self.nodes@, n);
                let jj = choose|j: int|
                    0 <= j < self.nodes@.len() && #[trigger] self.nodes@[j].id as int == n;
                assert(has_key(dist@, self.nodes@[jj].id as int));
            }
            assert forall|n: int| #[trigger] has_key(dist@, n) implies 0 <= val_of(dist@, n)
                <= unreachable_cost() by {
                let j = idx_of(dist@, n);
                assert(dist@[j].1 == i32::MAX as i64);
            }
        }

        // Record the source at cost zero.
        let si_opt = find_key(&dist, from_id);
        proof {
            assert(has_key(dist@, src));
            if si_opt is None {
                assert(false);
            }
        }
        let si = si_opt.unwrap();
        let ghost d1 = dist@;
        dist[si] = (from_id, 0);
        proof {
            assert(d1[si as int].0 == from_id);
            assert(key_at(d1, si as int) == src);
            lemma_update_view(d1, si as int, 0);
            assert(val_of(dist@, src) == 0);
            assert forall|n: int| #[trigger] has_key(dist@, n) implies known(gg, n) && 0 <= val_of(
                dist@,
                n,
            ) <= unreachable_cost() by {
                assert(has_key(d1, n));
                if n != src {
                    assert(val_of(dist@, n) == val_of(d1, n));
                }
            }
            assert forall|n: int| #[trigger] known(gg, n) implies has_key(dist@, n) by {
                assert(has_key(d1, n));
            }
            assert(dist_wf(gg, dist@));
        }

        // Seed the frontier with the source.
        let mut frontier: Vec<State> = Vec::new();
        let hsrc = h_exec(self, astar, to_id, from_id);
        frontier.push(State { f: hsrc, g: 0, node: from_id });
        let ghost mut settled: Set<int> = Set::empty();
        proof {
            assert(is_path(gg, Seq::<int>::empty(), src, src) && path_cost(
                gg,
                Seq::<int>::empty(),
            ) == 0);
            assert forall|n: int|
                #[trigger] has_key(dist@, n) && val_of(dist@, n) < unreachable_cost()
                    && !settled.contains(n) implies exists|i: int|
                0 <= i < frontier@.len() && (#[trigger] frontier@[i]).node as int == n
                    && frontier@[i].g as int == val_of(dist@, n) by {
                if n != src {
                    assert(val_of(dist@, n) == val_of(d1, n));
                    assert(false);
                } else {
                    assert(frontier@[0].node as int == n && frontier@[0].g as int == val_of(
                        dist@,
                        n,
                    ));
                }
            }
            assert(entry_ok(gg, astar, dst, dist@, frontier@[0]));
        }

        loop
            invariant
                dist_wf(gg, dist@),
                has_key(dist@, src),
                val_of(dist@, src) == 0,
                sound_dist(gg, src, dist@),
                entries_ok(gg, astar, dst, dist@, frontier@),
                fresh_ok(dist@, frontier@, settled),
                settled_ok(gg, src, dist@, settled),
                !settled.contains(dst),
            decreases sum_vals(dist@) + frontier@.len(),
        {
            proof {
                lemma_sum_nonneg_wf(gg, dist@);
            }
            if frontier.len() == 0 {
                proof {
                    assert(h_of(gg, astar, dst, dst) == 0);
                    assert forall|p: Seq<int>| is_path(gg, p, src, dst) implies path_cost(gg, p)
                        >= unreachable_cost() by {
                        lemma_path_lower_bound(
                            gg,
                            astar,
                            src,
                            dst,
                            dist@,
                            settled,
                            frontier@,
                            unreachable_cost(),
                            p,
                            dst,
                        );
                    }
                    assert(is_shortest(gg, src, dst, i32::MAX as int));
                }
                return i32::MAX;
            }
            let ghost fr0 = frontier@;
            let st = pop_min(&mut frontier);
            proof {
                let j0 = choose|j: int| 0 <= j < fr0.len() && fr0[j] == st;
                assert(entry_ok(gg, astar, dst, dist@, fr0[j0]));
                lemma_entries_shrink(gg, astar, dst, dist@, fr0, frontier@);
            }
            if st.node == to_id {
                proof {
                    // the popped destination entry cannot be stale: a fresh
                    // one would have had a strictly smaller priority
                    assert(h_of(gg, astar, dst, dst) == 0);
                    assert(val_of(dist@, dst) <= st.g as int);
                    let fi = choose|i: int|
                        0 <= i < fr0.len() && (#[trigger] fr0[i]).node as int == dst
                            && fr0[i].g as int == val_of(dist@, dst);
                    assert(entry_ok(gg, astar, dst, dist@, fr0[fi]));
                    assert(state_le(st, fr0[fi]));
                    assert(st.f as int == st.g as int);
                    assert(fr0[fi].f as int == val_of(dist@, dst));
                    assert(st.g as int == val_of(dist@, dst));
                    assert forall|p: Seq<int>| is_path(gg, p, src, dst) implies path_cost(gg, p)
                        >= st.g as int by {
                        lemma_path_lower_bound(
                            gg,
                            astar,
                            src,
                            dst,
                            dist@,
                            settled,
                            fr0,
                            st.f as int,
                            p,
                            dst,
                        );
                    }
                    assert(is_shortest(gg, src, dst, st.g as int));
                }
                return st.g as i32;
            }
            let di_opt = find_key(&dist, st.node);
            proof {
                assert(has_key(dist@, st.node as int));
                if di_opt is None {
                    assert(false);
                }
            }
            let di = di_opt.unwrap();
            proof {
                lemma_val_at(dist@, di as int);
            }
            let cur: i64 = dist[di].1;
            proof {
                assert(cur as int == val_of(dist@, st.node as int));
            }
            if st.g > cur {
                // a stale entry, superseded by a cheaper later push
                proof {
                    lemma_fresh_after_pop(dist@, fr0, frontier@, settled, st);
                }
                continue;
            }
            // settle the node: its recorded cost is now known optimal
            let nd_i32 = st.node;
            let ghost nd = st.node as int;
            proof {
                assert(st.g as int == val_of(dist@, nd));
                if !settled.contains(nd) {
                    assert forall|p: Seq<int>| is_path(gg, p, src, nd) implies path_cost(gg, p)
                        >= st.g as int by {
                        lemma_path_lower_bound(
                            gg,
                            astar,
                            src,
                            dst,
                            dist@,
                            settled,
                            fr0,
                            st.f as int,
                            p,
                            nd,
                        );
                    }
                } else {
                    assert forall|p: Seq<int>| is_path(gg, p, src, nd) implies path_cost(gg, p)
                        >= st.g as int by {
                        assert(settled.contains(nd) && is_path(gg, p, src, nd));
                    }
                }
            }
            let ghost stl0 = settled;
            proof {
                settled = settled.insert(nd);
                assert forall|n: int|
                    #[trigger] has_key(dist@, n) && val_of(dist@, n) < unreachable_cost()
                        && !settled.contains(n) implies exists|i: int|
                    0 <= i < fr0.len() && (#[trigger] fr0[i]).node as int == n && fr0[i].g as int
                        == val_of(dist@, n) by {
                    assert(!stl0.contains(n));
                }
                lemma_fresh_after_pop(dist@, fr0, frontier@, settled, st);
            }
            let ghost m0 = sum_vals(dist@) + frontier@.len() as int;
            let mut j: usize = 0;
            while j < self.arcs.len()
                invariant
                    j <= self.arcs@.len(),
                    settled == stl0.insert(nd),
                    dist_wf(gg, dist@),
                    has_key(dist@, src),
                    val_of(dist@, src) == 0,
                    sound_dist(gg, src, dist@),
                    entries_ok(gg, astar, dst, dist@, frontier@),
                    fresh_ok(dist@, frontier@, settled),
                    forall|n: int| #[trigger] settled.contains(n) ==> has_key(dist@, n),
                    forall|n: int, jj: int|
                        #![trigger settled.contains(n), gg.arcs@[jj]]
                        settled.contains(n) && n != nd && 0 <= jj < gg.arcs@.len()
                            && gg.arcs@[jj].node_a_id as int == n && known(
                            gg,
                            gg.arcs@[jj].node_b_id as int,
                        ) ==> has_key(dist@, gg.arcs@[jj].node_b_id as int) && val_of(
                            dist@,
                            gg.arcs@[jj].node_b_id as int,
                        ) <= val_of(dist@, n) + gg.arcs@[jj].weight as int,
                    forall|jj: int|
                        0 <= jj < j && (#[trigger] gg.arcs@[jj]).node_a_id as int == nd && known(
                            gg,
                            gg.arcs@[jj].node_b_id as int,
                        ) ==> has_key(dist@, gg.arcs@[jj].node_b_id as int) && val_of(
                            dist@,
                            gg.arcs@[jj].node_b_id as int,
                        ) <= st.g as int + gg.arcs@[jj].weight as int,
                    forall|n: int, p: Seq<int>|
                        #![trigger settled.contains(n), is_path(gg, p, src, n)]
                        settled.contains(n) && is_path(gg, p, src, n) ==> path_cost(gg, p)
                            >= val_of(dist@, n),
                    has_key(dist@, nd),
                    val_of(dist@, nd) == st.g as int,
                    0 <= st.g as int,
                    (st.g as int) < unreachable_cost(),
                    !settled.contains(dst),
                    sum_vals(dist@) + frontier@.len() as int <= m0,
                decreases self.arcs@.len() - j,
            {
                let e = self.arcs[j];
                if e.node_a_id == nd_i32 {
                    let i2_opt = find_key(&dist, e.node_b_id);
                    if let Some(i2) = i2_opt {
                        proof {
                            lemma_val_at(dist@, i2 as int);
                        }
                        let curn: i64 = dist[i2].1;
                        let next_g: i64 = st.g + e.weight as i64;
                        if next_g < curn {
                            let ghost d0 = dist@;
                            let ghost f0 = frontier@;
                            let ghost to = e.node_b_id as int;
                            dist[i2] = (e.node_b_id, next_g);
                            let hn = h_exec(self, astar, to_id, e.node_b_id);
                            frontier.push(State { f: next_g + hn, g: next_g, node: e.node_b_id });
                            proof {
                                assert(d0[i2 as int].0 == e.node_b_id);
                                lemma_update_view(d0, i2 as int, next_g);
                                lemma_sum_update(d0, i2 as int, (e.node_b_id, next_g));
                                assert(val_of(dist@, to) == next_g as int);
                                // a real path that costs next_g: the witness
                                // for the settled node plus this arc
                                assert(val_of(d0, nd) < unreachable_cost());
                                let pw = choose|p: Seq<int>|
                                    is_path(gg, p, src, nd) && path_cost(gg, p) == val_of(d0, nd);
                                assert(arc_ok(gg, j as int));
                                lemma_path_extend(gg, pw, src, j as int);
                                let pw2 = pw.push(j as int);
                                assert(is_path(gg, pw2, src, to) && path_cost(gg, pw2)
                                    == next_g as int);
                                // the improved node is neither settled nor the source
                                assert(!settled.contains(to));
                                assert(to != nd);
                                if to == src {
                                    assert(val_of(d0, src) == 0);
                                    assert(false);
                                }
                                // dist stays well formed
                                assert forall|n: int| #[trigger] has_key(dist@, n) implies 0
                                    <= val_of(dist@, n) <= unreachable_cost() by {
                                    if n != to {
                                        assert(val_of(dist@, n) == val_of(d0, n));
                                    }
                                }
                                assert forall|n: int| #[trigger] known(gg, n) implies has_key(
                                    dist@,
                                    n,
                                ) by {
                                    assert(has_key(d0, n));
                                }
                                // recorded costs keep their witnesses
                                assert forall|n: int|
                                    #[trigger] has_key(dist@, n) && val_of(dist@, n)
                                        < unreachable_cost() implies exists|p: Seq<int>|
                                    is_path(gg, p, src, n) && path_cost(gg, p) == val_of(
                                        dist@,
                                        n,
                                    ) by {
                                    if n == to {
                                        assert(is_path(gg, pw2, src, n) && path_cost(gg, pw2)
                                            == val_of(dist@, n));
                                    } else {
                                        assert(val_of(dist@, n) == val_of(d0, n));
                                        assert(has_key(d0, n));
                                    }
                                }
                                // frontier entries stay coherent
                                assert forall|i: int| 0 <= i < frontier@.len() implies entry_ok(
                                    gg,
                                    astar,
                                    dst,
                                    dist@,
                                    #[trigger] frontier@[i],
                                ) by {
                                    if i < f0.len() {
                                        let e2 = f0[i];
                                        assert(entry_ok(gg, astar, dst, d0, e2));
                                        if e2.node as int != to {
                                            assert(val_of(dist@, e2.node as int) == val_of(
                                                d0,
                                                e2.node as int,
                                            ));
                                        }
                                    } else {
                                        assert(frontier@[i].g == next_g);
                                    }
                                }
                                // freshness: the new push is the witness for
                                // the improved node, old witnesses survive
                                assert forall|n: int|
                                    #[trigger] has_key(dist@, n) && val_of(dist@, n)
                                        < unreachable_cost() && !settled.contains(
                                        n,
                                    ) implies exists|i: int|
                                    0 <= i < frontier@.len() && (#[trigger] frontier@[i]).node
                                        as int == n && frontier@[i].g as int == val_of(
                                        dist@,
                                        n,
                                    ) by {
                                    if n == to {
                                        let iw = f0.len() as int;
                                        assert(0 <= iw < frontier@.len() && frontier@[iw].node
                                            as int == n && frontier@[iw].g as int == val_of(
                                            dist@,
                                            n,
                                        ));
                                    } else {
                                        assert(val_of(dist@, n) == val_of(d0, n));
                                        assert(has_key(d0, n));
                                        let iw = choose|i: int|
                                            0 <= i < f0.len() && (#[trigger] f0[i]).node as int
                                                == n && f0[i].g as int == val_of(d0, n);
                                        assert(frontier@[iw] == f0[iw]);
                                        assert(0 <= iw < frontier@.len() && frontier@[iw].node
                                            as int == n && frontier@[iw].g as int == val_of(
                                            dist@,
                                            n,
                                        ));
                                    }
                                }
                                // settled nodes keep value, relaxation, optimality
                                assert forall|n: int, jj: int|
                                    #![trigger settled.contains(n), gg.arcs@[jj]]
                                    settled.contains(n) && n != nd && 0 <= jj < gg.arcs@.len()
                                        && gg.arcs@[jj].node_a_id as int == n && known(
                                        gg,
                                        gg.arcs@[jj].node_b_id as int,
                                    ) implies has_key(dist@, gg.arcs@[jj].node_b_id as int)
                                    && val_of(dist@, gg.arcs@[jj].node_b_id as int) <= val_of(
                                    dist@,
                                    n,
                                ) + gg.arcs@[jj].weight as int by {
                                    let tgt = gg.arcs@[jj].node_b_id as int;
                                    assert(n != to);
                                    assert(val_of(dist@, n) == val_of(d0, n));
                                    assert(has_key(d0, tgt) && val_of(d0, tgt) <= val_of(d0, n)
                                        + gg.arcs@[jj].weight as int);
                                    if tgt != to {
                                        assert(val_of(dist@, tgt) == val_of(d0, tgt));
                                    }
                                }
                                assert forall|jj: int|
                                    0 <= jj < j + 1 && (#[trigger] gg.arcs@[jj]).node_a_id as int
                                        == nd && known(
                                        gg,
                                        gg.arcs@[jj].node_b_id as int,
                                    ) implies has_key(dist@, gg.arcs@[jj].node_b_id as int)
                                    && val_of(dist@, gg.arcs@[jj].node_b_id as int) <= st.g as int
                                    + gg.arcs@[jj].weight as int by {
                                    let tgt = gg.arcs@[jj].node_b_id as int;
                                    if jj < j {
                                        assert(has_key(d0, tgt) && val_of(d0, tgt) <= st.g as int
                                            + gg.arcs@[jj].weight as int);
                                        if tgt != to {
                                            assert(val_of(dist@, tgt) == val_of(d0, tgt));
                                        }
                                    } else {
                                        assert(tgt == to);
                                    }
                                }
                                assert forall|n: int, p: Seq<int>|
                                    #![trigger settled.contains(n), is_path(gg, p, src, n)]
                                    settled.contains(n) && is_path(gg, p, src, n) implies path_cost(
                                    gg,
                                    p,
                                ) >= val_of(dist@, n) by {
                                    assert(n != to);
                                    assert(val_of(dist@, n) == val_of(d0, n));
                                }
                                assert(val_of(dist@, nd) == st.g as int);
                                assert(val_of(dist@, src) == 0);
                                assert(sum_vals(dist@) + frontier@.len() as int <= m0);
                            }
                        }
                    }
                }
                j += 1;
            }
            proof {
                // the settled node is now fully relaxed: fold it into the
                // settled-set invariant
                assert forall|n: int, j2: int|
                    #![trigger settled.contains(n), gg.arcs@[j2]]
                    settled.contains(n) && 0 <= j2 < gg.arcs@.len() && gg.arcs@[j2].node_a_id
                        as int == n && known(
                        gg,
                        gg.arcs@[j2].node_b_id as int,
                    ) implies has_key(dist@, gg.arcs@[j2].node_b_id as int) && val_of(
                    dist@,
                    gg.arcs@[j2].node_b_id as int,
                ) <= val_of(dist@, n) + gg.arcs@[j2].weight as int by {
                    if n == nd {
                        assert(val_of(dist@, nd) == st.g as int);
                    }
                }
                assert(settled_ok(gg, src, dist@, settled));
                lemma_sum_nonneg_wf(gg, dist@);
            }
        }
    }
}

} // verus!

verus! {

impl Graph {
    /// The trivial cases shared by both strategies: a query from a node to
    /// itself costs zero without any frontier work, and a query touching an
    /// id the graph does not know reports the unreachable sentinel.
    fn query(&self, from_node_id: i32, to_node_id: i32, astar: bool) -> (r: i32)
        requires
            nonneg_weights(*self),
            consistent_h(*self, astar, to_node_id as int),
        ensures
            is_shortest(*self, from_node_id as int, to_node_id as int, r as int),
            from_node_id == to_node_id ==> r == 0,
    {
        let ghost gg = *self;
        let ghost a = from_node_id as int;
        let ghost b = to_node_id as int;
        if from_node_id == to_node_id {
            proof {
                assert(is_path(gg, Seq::<int>::empty(), a, b) && path_cost(
                    gg,
                    Seq::<int>::empty(),
                ) == 0);
                assert forall|p: Seq<int>| is_path(gg, p, a, b) implies path_cost(gg, p) >= 0 by {
                    lemma_cost_nonneg(gg, p, a);
                }
            }
            return 0;
        }
        let fc = find_coords(self, from_node_id);
        let tc = find_coords(self, to_node_id);
        if fc.is_none() || tc.is_none() {
            proof {
                assert forall|p: Seq<int>| is_path(gg, p, a, b) implies path_cost(gg, p)
                    >= unreachable_cost() by {
                    if p.len() == 0 {
                        assert(a == b);
                    } else {
                        lemma_path_endpoints_known(gg, p, a);
                    }
                }
            }
            return i32::MAX;
        }
        self.search(from_node_id, to_node_id, astar)
    }

    /// The shortest distance from `from_node_id` to `to_node_id` under A*
    /// guided by the Manhattan heuristic. Returns the minimum total weight
    /// over all paths, the sentinel `i32::MAX` when no route exists (or
    /// either id is unknown), and `0` when the two ids are equal. The caller
    /// keeps every edge weight non-negative and at least the Manhattan
    /// distance between its endpoints; without that grid contract the
    /// heuristic may overestimate and optimality is lost.
    pub fn shortest_path(&self, from_node_id: i32, to_node_id: i32) -> (r: i32)
        requires
            nonneg_weights(*self),
            admissible_grid(*self),
        ensures
            is_shortest(*self, from_node_id as int, to_node_id as int, r as int),
            from_node_id == to_node_id ==> r == 0,
    {
        proof {
            lemma_heuristic_ok(*self, true, to_node_id as int);
        }
        self.query(from_node_id, to_node_id, true)
    }

    /// The shortest distance from `from_node_id` to `to_node_id` by
    /// uniform-cost search (no heuristic). Same contract as the A* variant
    /// but with no demand on the coordinates: only non-negative weights.
    pub fn shortest_path_dijkstra(&self, from_node_id: i32, to_node_id: i32) -> (r: i32)
        requires
            nonneg_weights(*self),
        ensures
            is_shortest(*self, from_node_id as int, to_node_id as int, r as int),
            from_node_id == to_node_id ==> r == 0,
    {
        proof {
            lemma_heuristic_ok(*self, false, to_node_id as int);
        }
        self.query(from_node_id, to_node_id, false)
    }
}

} // verus!
