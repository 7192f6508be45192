//! Reachability over an edge collection, in both the undirected reading
//! (for component labelling) and the directed reading (for breadth-first
//! distances). Edges live in difference-collection views, so membership is
//! `has_val` on the edge list.

use vstd::prelude::*;
use crate::diff::has_val;
use crate::{Node, Edge};

verus! {

/// An undirected link: either orientation of the edge is recorded.
pub open spec fn has_link(es: Seq<(Edge, i64)>, a: Node, b: Node) -> bool {
    has_val(es, (a, b)) || has_val(es, (b, a))
}

/// `b` can be reached from `a` along at most `n` undirected links.
pub open spec fn reach(es: Seq<(Edge, i64)>, a: Node, b: Node, n: nat) -> bool
    decreases n,
{
    a == b || (n > 0 && exists|m: Node| has_link(es, a, m) && reach(es, m, b, (n - 1) as nat))
}

/// `a` and `b` lie in the same connected component of the undirected graph.
pub open spec fn connected_in(es: Seq<(Edge, i64)>, a: Node, b: Node) -> bool {
    exists|n: nat| reach(es, a, b, n)
}

/// A longer hop budget reaches no less.
pub proof fn lemma_reach_mono(es: Seq<(Edge, i64)>, a: Node, b: Node, n: nat, m: nat)
    requires
        reach(es, a, b, n),
        n <= m,
    ensures
        reach(es, a, b, m),
    decreases n,
{
    if a == b {
    } else {
        let w = choose|w: Node| has_link(es, a, w) && reach(es, w, b, (n - 1) as nat);
        lemma_reach_mono(es, w, b, (n - 1) as nat, (m - 1) as nat);
    }
}

/// Reaches compose end to end.
pub proof fn lemma_reach_trans(es: Seq<(Edge, i64)>, a: Node, b: Node, c: Node, n: nat, m: nat)
    requires
        reach(es, a, b, n),
        reach(es, b, c, m),
    ensures
        reach(es, a, c, n + m),
    decreases n,
{
    if a == b {
        lemma_reach_mono(es, b, c, m, n + m);
    } else {
        let w = choose|w: Node| has_link(es, a, w) && reach(es, w, b, (n - 1) as nat);
        lemma_reach_trans(es, w, b, c, (n - 1) as nat, m);
    }
}

/// A reach can be walked backwards: links carry no direction.
pub proof fn lemma_reach_symm(es: Seq<(Edge, i64)>, a: Node, b: Node, n: nat)
    requires
        reach(es, a, b, n),
    ensures
        reach(es, b, a, n),
    decreases n,
{
    if a == b {
    } else {
        let w = choose|w: Node| has_link(es, a, w) && reach(es, w, b, (n - 1) as nat);
        lemma_reach_symm(es, w, b, (n - 1) as nat);
        assert(reach(es, w, a, 1)) by {
            assert(has_link(es, w, a) && reach(es, a, a, 0nat));
        }
        lemma_reach_trans(es, b, w, a, (n - 1) as nat, 1);
    }
}

/// Connectivity is reflexive, symmetric and transitive, and closed under
/// links: the equivalence generated by the edge relation.
pub proof fn lemma_connected_equiv(es: Seq<(Edge, i64)>, a: Node, b: Node, c: Node)
    ensures
        connected_in(es, a, a),
        connected_in(es, a, b) ==> connected_in(es, b, a),
        connected_in(es, a, b) && connected_in(es, b, c) ==> connected_in(es, a, c),
        has_link(es, a, b) ==> connected_in(es, a, b),
{
    assert(reach(es, a, a, 0nat));
    if connected_in(es, a, b) {
        let n = choose|n: nat| reach(es, a, b, n);
        lemma_reach_symm(es, a, b, n);
        if connected_in(es, b, c) {
            let m = choose|m: nat| reach(es, b, c, m);
            lemma_reach_trans(es, a, b, c, n, m);
        }
    }
    if has_link(es, a, b) {
        assert(reach(es, a, b, 1)) by {
            assert(has_link(es, a, b) && reach(es, b, b, 0nat));
        }
    }
}

/// `v` can be reached from some root along at most `n` directed edges.
pub open spec fn dreach(
    es: Seq<(Edge, i64)>,
    roots: Seq<Node>,
    v: Node,
    n: nat,
) -> bool
    decreases n,
{
    roots.contains(v) || (n > 0 && exists|m: Node|
        dreach(es, roots, m, (n - 1) as nat) && has_val(es, (m, v)))
}

/// A longer hop budget reaches no less, directed.
pub proof fn lemma_dreach_mono(
    es: Seq<(Edge, i64)>,
    roots: Seq<Node>,
    v: Node,
    n: nat,
    m: nat,
)
    requires
        dreach(es, roots, v, n),
        n <= m,
    ensures
        dreach(es, roots, v, m),
    decreases n,
{
    if roots.contains(v) {
    } else {
        let w = choose|w: Node| dreach(es, roots, w, (n - 1) as nat) && has_val(es, (w, v));
        lemma_dreach_mono(es, roots, w, (n - 1) as nat, (m - 1) as nat);
    }
}

/// `v` lies at directed distance exactly `d` from the root set.
pub open spec fn dist_is(es: Seq<(Edge, i64)>, roots: Seq<Node>, v: Node, d: nat) -> bool {
    dreach(es, roots, v, d) && (d == 0 || !dreach(es, roots, v, (d - 1) as nat))
}

/// A node at positive exact distance `d` has a predecessor at exact
/// distance `d - 1`.
pub proof fn lemma_dist_pred(es: Seq<(Edge, i64)>, roots: Seq<Node>, v: Node, d: nat)
    requires
        dist_is(es, roots, v, d),
        d > 0,
    ensures
        exists|u: Node| dist_is(es, roots, u, (d - 1) as nat) && has_val(es, (u, v)),
{
    let u = choose|u: Node| dreach(es, roots, u, (d - 1) as nat) && has_val(es, (u, v));
    if d - 1 > 0 && dreach(es, roots, u, (d - 2) as nat) {
        assert(dreach(es, roots, v, (d - 1) as nat));
        assert(false);
    }
    assert(dist_is(es, roots, u, (d - 1) as nat) && has_val(es, (u, v)));
}

/// A reachable node has an exact distance, no larger than any hop bound
/// that reaches it.
pub proof fn lemma_dist_exists(es: Seq<(Edge, i64)>, roots: Seq<Node>, v: Node, n: nat)
    requires
        dreach(es, roots, v, n),
    ensures
        exists|e: nat| e <= n && dist_is(es, roots, v, e),
    decreases n,
{
    if n == 0 {
        assert(dist_is(es, roots, v, 0));
    } else if dreach(es, roots, v, (n - 1) as nat) {
        lemma_dist_exists(es, roots, v, (n - 1) as nat);
        let e = choose|e: nat| e <= n - 1 && dist_is(es, roots, v, e);
        assert(e <= n && dist_is(es, roots, v, e));
    } else {
        assert(dist_is(es, roots, v, n));
    }
}

/// Below any occupied exact distance, every exact distance is occupied.
pub proof fn lemma_dist_descend(
    es: Seq<(Edge, i64)>,
    roots: Seq<Node>,
    v: Node,
    e: nat,
    e2: nat,
)
    requires
        dist_is(es, roots, v, e),
        e2 <= e,
    ensures
        exists|w: Node| dist_is(es, roots, w, e2),
    decreases e,
{
    if e2 == e {
        assert(dist_is(es, roots, v, e2));
    } else {
        lemma_dist_pred(es, roots, v, e);
        let u = choose|u: Node| dist_is(es, roots, u, (e - 1) as nat) && has_val(es, (u, v));
        lemma_dist_descend(es, roots, u, (e - 1) as nat, e2);
    }
}

/// Exact distances are unique.
pub proof fn lemma_dist_unique(es: Seq<(Edge, i64)>, roots: Seq<Node>, v: Node, d1: nat, d2: nat)
    requires
        dist_is(es, roots, v, d1),
        dist_is(es, roots, v, d2),
    ensures
        d1 == d2,
{
    if d1 < d2 {
        lemma_dreach_mono(es, roots, v, d1, (d2 - 1) as nat);
    }
    if d2 < d1 {
        lemma_dreach_mono(es, roots, v, d2, (d1 - 1) as nat);
    }
}

} // verus!
