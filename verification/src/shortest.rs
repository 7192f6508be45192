//! Shortest paths between goal pairs, with path-DAG reconstruction. For a
//! goal `(s, t)`, distances grow forward from `s` and — over the reversed
//! edges — backward from `t`; the two searches meet, and an edge belongs to
//! the output exactly when its endpoints' two distances add up, with the
//! hop across the edge, to the length of a shortest `s`-to-`t` path. The
//! output is the union of all shortest paths: a DAG that may fork and
//! re-merge.

use vstd::prelude::*;
use crate::collection::Collection;
use crate::diff::{has_val, is_set};
use crate::reach::{dist_is, lemma_dist_unique};
use crate::paths::{bfs_core, dist_lookup, covers};
use crate::{Node, Edge};

verus! {

/// Every edge reversed, diffs kept.
pub open spec fn rev_updates(es: Seq<(Edge, i64)>) -> Seq<(Edge, i64)> {
    Seq::new(es.len(), |i: int| (((es[i].0).1, (es[i].0).0), es[i].1))
}

/// The edge `e` lies on some shortest path from `s` to `t`: it is recorded,
/// and the distance from `s` to its tail, plus the hop, plus the distance
/// from its head to `t` (a distance from `t` over the reversed edges),
/// equals the distance from `s` to `t`.
pub open spec fn shortest_edge(es: Seq<(Edge, i64)>, s: Node, t: Node, e: Edge) -> bool {
    &&& has_val(es, e)
    &&& exists|td: nat, d1: nat, d2: nat|
        #![trigger dist_is(es, seq![s], t, td), dist_is(es, seq![s], e.0, d1), dist_is(rev_updates(es), seq![t], e.1, d2)]
        dist_is(es, seq![s], t, td) && dist_is(es, seq![s], e.0, d1) && dist_is(
            rev_updates(es),
            seq![t],
            e.1,
            d2,
        ) && d1 + 1 + d2 == td
}

/// For each goal pair, the set of edges lying on any of its shortest
/// paths; a goal whose two ends coincide, or that has no path, gets none.
pub fn shortest_paths(edges: &Collection<Edge>, goals: &Collection<(Node, Node)>) -> (r:
    Collection<((Node, Node), Edge)>)
    requires
        is_set(edges@),
        is_set(goals@),
    ensures
        is_set(r@),
        forall|g: (Node, Node), e: Edge|
            has_val(r@, (g, e)) <==> has_val(goals@, g) && g.0 != g.1 && shortest_edge(
                edges@,
                g.0,
                g.1,
                e,
            ),
{
    let ghost es = edges@;
    let ghost esr = rev_updates(es);
    let ne = edges.len();
    let mut ev: Vec<Edge> = Vec::new();
    let mut evr: Vec<Edge> = Vec::new();
    let mut k: usize = 0;
    while k < ne
        invariant
            k <= ne,
            ne == es.len(),
            edges@ == es,
            ev@.len() == k,
            evr@.len() == k,
            forall|j: int| 0 <= j < k ==> ev@[j] == (#[trigger] es[j]).0,
            forall|j: int| 0 <= j < k ==> evr@[j] == ((#[trigger] es[j]).0.1, es[j].0.0),
        decreases ne - k,
    {
        let (u, v) = edges.get(k).0;
        proof {
            assert(es[k as int].0 == (u, v));
        }
        ev.push((u, v));
        evr.push((v, u));
        k += 1;
    }
    proof {
        assert(forall|j: int| 0 <= j < ne ==> evr@[j] == (#[trigger] esr[j]).0);
        assert(esr.len() == ne);
    }

    let mut out: Collection<((Node, Node), Edge)> = Collection::empty();
    let ng = goals.len();
    let mut q: usize = 0;
    while q < ng
        invariant
            q <= ng,
            ng == goals@.len(),
            edges@ == es,
            goals@.len() == ng,
            is_set(goals@),
            is_set(edges@),
            ne == es.len(),
            ev@.len() == ne,
            evr@.len() == ne,
            forall|j: int| 0 <= j < ne ==> ev@[j] == (#[trigger] es[j]).0,
            forall|j: int| 0 <= j < ne ==> evr@[j] == (#[trigger] esr[j]).0,
            esr == rev_updates(es),
            is_set(out@),
            forall|g: (Node, Node), e: Edge|
                #![trigger has_val(out@, (g, e))]
                has_val(out@, (g, e)) <==> exists|j: int|
                    0 <= j < q && (#[trigger] goals@[j]).0 == g && g.0 != g.1 && shortest_edge(
                        es,
                        g.0,
                        g.1,
                        e,
                    ),
        decreases ng - q,
    {
        let (s, t) = goals.get(q).0;
        let ghost g = (s, t);
        proof {
            assert(goals@[q as int].0 == g);
        }
        let ghost out_q = out@;

        if s != t {
            let mut rv_s: Vec<Node> = Vec::new();
            rv_s.push(s);
            proof {
                assert(rv_s@ =~= seq![s]);
            }
            let df = bfs_core(&ev, &rv_s, Ghost(es));
            let mut rv_t: Vec<Node> = Vec::new();
            rv_t.push(t);
            proof {
                assert(rv_t@ =~= seq![t]);
            }
            let dr = bfs_core(&evr, &rv_t, Ghost(esr));

            let od = dist_lookup(&df, t);
            match od {
                None => {
                    proof {
                        // no distance to the target: no shortest path.
                        assert forall|e: Edge| !shortest_edge(es, s, t, e) by {
                            if shortest_edge(es, s, t, e) {
                                let td = choose|td: nat| #[trigger] dist_is(es, seq![s], t, td);
                                assert(covers(df@, t));
                                assert(false);
                            }
                        }
                    }
                },
                Some(total) => {
                    proof {
                        assert(dist_is(es, seq![s], t, total as nat));
                    }
                    let mut k2: usize = 0;
                    while k2 < ev.len()
                        invariant
                            k2 <= ne,
                            ne == es.len(),
                            ev@.len() == ne,
                            evr@.len() == ne,
                            forall|j: int| 0 <= j < ne ==> ev@[j] == (#[trigger] es[j]).0,
                            forall|j: int| 0 <= j < ne ==> evr@[j] == (#[trigger] esr[j]).0,
                            esr == rev_updates(es),
                            is_set(edges@),
                            edges@ == es,
                            is_set(goals@),
                            goals@[q as int].0 == g,
                            g == (s, t),
                            s != t,
                            q < goals@.len(),
                            dist_is(es, seq![s], t, total as nat),
                            forall|i2: int, j2: int|
                                0 <= i2 < j2 < df@.len() ==> (#[trigger] df@[i2]).0 != (
                                #[trigger] df@[j2]).0,
                            forall|v: Node, dd: u64|
                                df@.contains((v, dd)) <==> dist_is(es, seq![s], v, dd as nat),
                            forall|i2: int, j2: int|
                                0 <= i2 < j2 < dr@.len() ==> (#[trigger] dr@[i2]).0 != (
                                #[trigger] dr@[j2]).0,
                            forall|v: Node, dd: u64|
                                dr@.contains((v, dd)) <==> dist_is(esr, seq![t], v, dd as nat),
                            is_set(out@),
                            forall|g2: (Node, Node), e: Edge|
                                #![trigger has_val(out_q, (g2, e))]
                                has_val(out_q, (g2, e)) <==> exists|j: int|
                                    0 <= j < q && (#[trigger] goals@[j]).0 == g2 && g2.0 != g2.1
                                        && shortest_edge(es, g2.0, g2.1, e),
                            forall|p: ((Node, Node), Edge)|
                                #![trigger has_val(out@, p)]
                                #![trigger has_val(out_q, p)]
                                has_val(out@, p) <==> has_val(out_q, p) || (p.0 == g && exists|
                                    j: int,
                                |
                                    0 <= j < k2 && (#[trigger] ev@[j]) == p.1 && shortest_edge(
                                        es,
                                        s,
                                        t,
                                        p.1,
                                    )),
                        decreases ne - k2,
                    {
                        let (u, v) = ev[k2];
                        let o1 = dist_lookup(&df, u);
                        let o2 = dist_lookup(&dr, v);
                        let mut take = false;
                        let mut d1: u64 = 0;
                        let mut d2: u64 = 0;
                        match (o1, o2) {
                            (Some(a), Some(b)) => {
                                take = a < total && b == total - a - 1;
                                d1 = a;
                                d2 = b;
                            },
                            _ => {},
                        }
                        proof {
                            // the arithmetic test decides shortest-path
                            // membership for this edge.
                            assert(ev@[k2 as int] == (u, v));
                            if take {
                                assert(df@.contains((u, d1)));
                                assert(dr@.contains((v, d2)));
                                assert(dist_is(es, seq![s], u, d1 as nat));
                                assert(dist_is(esr, seq![t], v, d2 as nat));
                                assert(has_val(es, (u, v))) by {
                                    assert(es[k2 as int].0 == (u, v));
                                }
                                assert(d1 as nat + 1 + d2 as nat == total as nat);
                                assert(shortest_edge(es, s, t, (u, v)));
                            } else {
                                if shortest_edge(es, s, t, (u, v)) {
                                    let (td, dd1, dd2): (nat, nat, nat) = choose|
                                        td: nat,
                                        dd1: nat,
                                        dd2: nat,
                                    |
                                        #![trigger dist_is(es, seq![s], t, td), dist_is(es, seq![s], u, dd1), dist_is(esr, seq![t], v, dd2)]
                                        dist_is(es, seq![s], t, td) && dist_is(
                                            es,
                                            seq![s],
                                            u,
                                            dd1,
                                        ) && dist_is(esr, seq![t], v, dd2) && dd1 + 1 + dd2 == td;
                                    lemma_dist_unique(es, seq![s], t, td, total as nat);
                                    assert(dd1 <= total as nat && dd2 <= total as nat);
                                    assert(df@.contains((u, dd1 as u64))) by {
                                        assert((dd1 as u64) as nat == dd1);
                                    }
                                    assert(dr@.contains((v, dd2 as u64))) by {
                                        assert((dd2 as u64) as nat == dd2);
                                    }
                                    match o1 {
                                        None => {
                                            let j = choose|j: int|
                                                0 <= j < df@.len() && df@[j] == (u, dd1 as u64);
                                            assert(covers(df@, u)) by {
                                                assert(df@[j].0 == u);
                                            }
                                            assert(false);
                                        },
                                        Some(a) => {
                                            assert(dist_is(es, seq![s], u, a as nat));
                                            lemma_dist_unique(es, seq![s], u, a as nat, dd1);
                                        },
                                    }
                                    match o2 {
                                        None => {
                                            let j = choose|j: int|
                                                0 <= j < dr@.len() && dr@[j] == (v, dd2 as u64);
                                            assert(covers(dr@, v)) by {
                                                assert(dr@[j].0 == v);
                                            }
                                            assert(false);
                                        },
                                        Some(b) => {
                                            assert(dist_is(esr, seq![t], v, b as nat));
                                            lemma_dist_unique(esr, seq![t], v, b as nat, dd2);
                                        },
                                    }
                                    assert(false);
                                }
                            }
                        }
                        let ghost out0 = out@;
                        if take {
                            let pair = ((s, t), (u, v));
                            proof {
                                if has_val(out@, pair) {
                                    if has_val(out_q, pair) {
                                        let j = choose|j: int|
                                            0 <= j < q && (#[trigger] goals@[j]).0 == g && g.0
                                                != g.1 && shortest_edge(es, g.0, g.1, (u, v));
                                        assert(goals@[j].0 == goals@[q as int].0);
                                        assert(false);
                                    } else {
                                        let j = choose|j: int|
                                            0 <= j < k2 && (#[trigger] ev@[j]) == (u, v)
                                                && shortest_edge(es, s, t, (u, v));
                                        assert(es[j].0 == es[k2 as int].0);
                                        assert(false);
                                    }
                                }
                            }
                            out.push(pair, 1i64);
                            proof {
                                assert(out@ =~= out0.push((pair, 1i64)));
                                assert(out@[out@.len() - 1] == (pair, 1i64));
                                assert forall|p: ((Node, Node), Edge)|
                                    has_val(out@, p) <==> has_val(out0, p) || p == pair by {
                                    if has_val(out@, p) {
                                        let j = choose|j: int|
                                            0 <= j < out@.len() && (#[trigger] out@[j]).0 == p;
                                        if j < out@.len() - 1 {
                                            assert(out0[j].0 == p);
                                        }
                                    }
                                    if has_val(out0, p) {
                                        let j = choose|j: int|
                                            0 <= j < out0.len() && (#[trigger] out0[j]).0 == p;
                                        assert(out@[j].0 == p);
                                    }
                                    if p == pair {
                                        assert(out@[out@.len() - 1].0 == p);
                                    }
                                }
                                assert forall|i2: int, j2: int|
                                    0 <= i2 < j2 < out@.len() implies (#[trigger] out@[i2]).0 != (
                                #[trigger] out@[j2]).0 by {
                                    if j2 == out@.len() - 1 {
                                        if out@[i2].0 == pair {
                                            assert(has_val(out0, pair)) by {
                                                assert(out0[i2].0 == pair);
                                            }
                                        }
                                    }
                                }
                            }
                        }
                        proof {
                            assert forall|p: ((Node, Node), Edge)|
                                #![trigger has_val(out@, p)]
                                #![trigger has_val(out_q, p)]
                                has_val(out@, p) <==> has_val(out_q, p) || (p.0 == g && exists|
                                    j: int,
                                |
                                    0 <= j < k2 + 1 && (#[trigger] ev@[j]) == p.1 && shortest_edge(
                                        es,
                                        s,
                                        t,
                                        p.1,
                                    )) by {
                                if has_val(out@, p) && !has_val(out0, p) {
                                    assert(take && p == ((s, t), (u, v)));
                                    assert(ev@[k2 as int] == p.1 && shortest_edge(es, s, t, p.1));
                                }
                                if has_val(out0, p) && !has_val(out_q, p) {
                                    assert(p.0 == g && exists|j: int|
                                        0 <= j < k2 && (#[trigger] ev@[j]) == p.1 && shortest_edge(
                                            es,
                                            s,
                                            t,
                                            p.1,
                                        ));
                                    let j = choose|j: int|
                                        0 <= j < k2 && (#[trigger] ev@[j]) == p.1 && shortest_edge(
                                            es,
                                            s,
                                            t,
                                            p.1,
                                        );
                                    assert(0 <= j < k2 + 1 && (#[trigger] ev@[j]) == p.1
                                        && shortest_edge(es, s, t, p.1));
                                    assert(has_val(out@, p));
                                }
                                if p.0 == g && exists|j: int|
                                    0 <= j < k2 + 1 && (#[trigger] ev@[j]) == p.1 && shortest_edge(
                                        es,
                                        s,
                                        t,
                                        p.1,
                                    ) {
                                    let j = choose|j: int|
                                        0 <= j < k2 + 1 && (#[trigger] ev@[j]) == p.1
                                            && shortest_edge(es, s, t, p.1);
                                    if j == k2 {
                                        assert(p.1 == (u, v));
                                        assert(take);
                                        assert(has_val(out@, p));
                                    } else {
                                        assert(0 <= j < k2 && (#[trigger] ev@[j]) == p.1
                                            && shortest_edge(es, s, t, p.1));
                                        assert(exists|j2: int|
                                            0 <= j2 < k2 && (#[trigger] ev@[j2]) == p.1
                                                && shortest_edge(es, s, t, p.1));
                                        assert(has_val(out0, p));
                                        assert(has_val(out@, p));
                                    }
                                }
                            }
                        }
                        k2 += 1;
                    }
                },
            }
        }

        proof {
            // Fold this goal into the running characterisation.
            assert forall|g2: (Node, Node), e: Edge|
                #![trigger has_val(out@, (g2, e))]
                has_val(out@, (g2, e)) <==> exists|j: int|
                    0 <= j < q + 1 && (#[trigger] goals@[j]).0 == g2 && g2.0 != g2.1
                        && shortest_edge(es, g2.0, g2.1, e) by {
                if has_val(out@, (g2, e)) {
                    if has_val(out_q, (g2, e)) {
                        let j = choose|j: int|
                            0 <= j < q && (#[trigger] goals@[j]).0 == g2 && g2.0 != g2.1
                                && shortest_edge(es, g2.0, g2.1, e);
                        assert(0 <= j < q + 1 && (#[trigger] goals@[j]).0 == g2 && g2.0 != g2.1
                            && shortest_edge(es, g2.0, g2.1, e));
                    } else {
                        assert(g2 == g && shortest_edge(es, s, t, e));
                        assert((#[trigger] goals@[q as int]).0 == g2 && g2.0 != g2.1
                            && shortest_edge(es, g2.0, g2.1, e));
                    }
                }
                if exists|j: int|
                    0 <= j < q + 1 && (#[trigger] goals@[j]).0 == g2 && g2.0 != g2.1
                        && shortest_edge(es, g2.0, g2.1, e) {
                    let j = choose|j: int|
                        0 <= j < q + 1 && (#[trigger] goals@[j]).0 == g2 && g2.0 != g2.1
                            && shortest_edge(es, g2.0, g2.1, e);
                    if j == q {
                        assert(g2 == g && s != t);
                        assert(shortest_edge(es, s, t, e));
                        assert(has_val(es, e));
                        let j2 = choose|j2: int| 0 <= j2 < es.len() && (#[trigger] es[j2]).0 == e;
                        assert(0 <= j2 < es.len() && ev@[j2] == e && shortest_edge(es, s, t, e));
                        assert(exists|j3: int|
                            0 <= j3 < es.len() && (#[trigger] ev@[j3]) == e && shortest_edge(
                                es,
                                s,
                                t,
                                e,
                            ));
                        assert(has_val(out@, (g, e)));
                    } else {
                        assert(has_val(out_q, (g2, e)));
                    }
                }
            }
        }
        q += 1;
    }

    proof {
        assert forall|g2: (Node, Node), e: Edge|
            has_val(out@, (g2, e)) <==> has_val(goals@, g2) && g2.0 != g2.1 && shortest_edge(
                edges@,
                g2.0,
                g2.1,
                e,
            ) by {
            if has_val(out@, (g2, e)) {
                let j = choose|j: int|
                    0 <= j < goals@.len() && (#[trigger] goals@[j]).0 == g2 && g2.0 != g2.1
                        && shortest_edge(es, g2.0, g2.1, e);
                assert(has_val(goals@, g2));
            }
            if has_val(goals@, g2) && g2.0 != g2.1 && shortest_edge(edges@, g2.0, g2.1, e) {
                let j = choose|j: int| 0 <= j < goals@.len() && (#[trigger] goals@[j]).0 == g2;
            }
        }
    }
    out
}

} // verus!
