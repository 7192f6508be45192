//! Bounded neighbourhoods: for each `(root, steps)` query, every node the
//! root reaches along directed edges in at most `steps` hops.

use vstd::prelude::*;
use crate::collection::Collection;
use crate::diff::{has_val, is_set};
use crate::reach::dreach;
use crate::paths::{vec_has_node, push_if_new};
use crate::{Node, Edge, Iter};

verus! {

/// All nodes within `steps` directed hops of each queried root. One
/// `(root, destination)` pair per reached node, each pair once.
pub fn neighborhoods(edges: &Collection<Edge>, sources: &Collection<(Node, Iter)>) -> (r:
    Collection<(Node, Node)>)
    requires
        is_set(edges@),
        is_set(sources@),
    ensures
        is_set(r@),
        forall|root: Node, dst: Node|
            has_val(r@, (root, dst)) <==> exists|s: Iter|
                #[trigger] has_val(sources@, (root, s)) && dreach(edges@, seq![root], dst, s as nat),
{
    let ghost es = edges@;
    let ne = edges.len();
    let mut ev: Vec<Edge> = Vec::new();
    let mut k: usize = 0;
    while k < ne
        invariant
            k <= ne,
            ne == es.len(),
            edges@ == es,
            ev@.len() == k,
            forall|j: int| 0 <= j < k ==> ev@[j] == (#[trigger] es[j]).0,
        decreases ne - k,
    {
        ev.push(edges.get(k).0);
        k += 1;
    }

    let mut out: Collection<(Node, Node)> = Collection::empty();
    let nq = sources.len();
    let mut q: usize = 0;
    while q < nq
        invariant
            nq == sources@.len(),
            q <= nq,
            ne == es.len(),
            edges@ == es,
            sources@.len() == nq,
            is_set(sources@),
            ev@.len() == ne,
            forall|j: int| 0 <= j < ne ==> ev@[j] == (#[trigger] es[j]).0,
            is_set(out@),
            forall|root: Node, dst: Node|
                has_val(out@, (root, dst)) <==> exists|j: int|
                    0 <= j < q && (#[trigger] sources@[j]).0.0 == root && dreach(
                        es,
                        seq![root],
                        dst,
                        sources@[j].0.1 as nat,
                    ),
        decreases nq - q,
    {
        let (root, steps) = sources.get(q).0;
        proof {
            assert(sources@[q as int].0 == (root, steps));
        }

        // Grow the ball around the root one hop per round.
        let mut acc: Vec<Node> = Vec::new();
        acc.push(root);
        proof {
            assert(acc@[0] == root);
            assert forall|w: Node| acc@.contains(w) <==> dreach(es, seq![root], w, 0nat) by {
                assert(seq![root][0] == root);
                if acc@.contains(w) {
                    let j = choose|j: int| 0 <= j < acc@.len() && acc@[j] == w;
                    assert(w == root);
                    assert(seq![root].contains(root));
                }
                if dreach(es, seq![root], w, 0nat) {
                    let j = choose|j: int| 0 <= j < seq![root].len() && seq![root][j] == w;
                    assert(w == root);
                    assert(acc@[0] == w);
                }
            }
        }
        let mut r: Iter = 0;
        while r < steps
            invariant
                r <= steps,
                ne == es.len(),
                ev@.len() == ne,
                forall|j: int| 0 <= j < ne ==> ev@[j] == (#[trigger] es[j]).0,
                forall|i2: int, j2: int| 0 <= i2 < j2 < acc@.len() ==> acc@[i2] != acc@[j2],
                forall|w: Node| acc@.contains(w) <==> dreach(es, seq![root], w, r as nat),
            decreases steps - r,
        {
            let mut acc2: Vec<Node> = Vec::new();
            acc2.push(root);
            proof {
                assert(acc2@[0] == root);
                assert forall|w: Node| acc2@.contains(w) implies w == root by {
                    let j = choose|j: int| 0 <= j < acc2@.len() && acc2@[j] == w;
                }
            }
            let mut k2: usize = 0;
            while k2 < ev.len()
                invariant
                    k2 <= ne,
                    ne == es.len(),
                    ev@.len() == ne,
                    forall|j: int| 0 <= j < ne ==> ev@[j] == (#[trigger] es[j]).0,
                    forall|i2: int, j2: int| 0 <= i2 < j2 < acc@.len() ==> acc@[i2] != acc@[j2],
                    forall|w: Node| acc@.contains(w) <==> dreach(es, seq![root], w, r as nat),
                    forall|i2: int, j2: int| 0 <= i2 < j2 < acc2@.len() ==> acc2@[i2] != acc2@[j2],
                    forall|w: Node|
                        acc2@.contains(w) <==> w == root || exists|j: int|
                            0 <= j < k2 && acc@.contains((#[trigger] ev@[j]).0) && ev@[j].1 == w,
                decreases ne - k2,
            {
                let (u, v) = ev[k2];
                let au = vec_has_node(&acc, u);
                let ghost acc20 = acc2@;
                if au {
                    push_if_new(&mut acc2, v);
                }
                proof {
                    assert forall|w: Node|
                        acc2@.contains(w) <==> w == root || exists|j: int|
                            0 <= j < k2 + 1 && acc@.contains((#[trigger] ev@[j]).0) && ev@[j].1
                                == w by {
                        if acc2@.contains(w) && !(w == root) && !acc20.contains(w) {
                            assert(w == v && au);
                            assert(acc@.contains((#[trigger] ev@[k2 as int]).0) && ev@[k2 as int].1
                                == w);
                        }
                        if acc20.contains(w) && !(w == root) {
                            let j = choose|j: int|
                                0 <= j < k2 && acc@.contains((#[trigger] ev@[j]).0) && ev@[j].1
                                    == w;
                            assert(acc@.contains((#[trigger] ev@[j]).0) && ev@[j].1 == w);
                        }
                        if exists|j: int|
                            0 <= j < k2 + 1 && acc@.contains((#[trigger] ev@[j]).0) && ev@[j].1
                                == w {
                            let j = choose|j: int|
                                0 <= j < k2 + 1 && acc@.contains((#[trigger] ev@[j]).0) && ev@[j].1
                                    == w;
                            if j == k2 {
                                assert(au);
                                assert(acc2@.contains(w));
                            } else {
                                assert(acc20.contains(w) || w == root);
                            }
                        }
                    }
                }
                k2 += 1;
            }
            proof {
                // One more hop of the ball is exactly one more round of
                // reachability.
                assert forall|w: Node|
                    acc2@.contains(w) <==> dreach(es, seq![root], w, (r + 1) as nat) by {
                    assert(seq![root][0] == root);
                    if acc2@.contains(w) {
                        if w == root {
                            assert(seq![root].contains(w));
                        } else {
                            let j = choose|j: int|
                                0 <= j < ne && acc@.contains((#[trigger] ev@[j]).0) && ev@[j].1
                                    == w;
                            let m = ev@[j].0;
                            assert(dreach(es, seq![root], m, r as nat));
                            assert(has_val(es, (m, w))) by {
                                assert(es[j].0 == (m, w));
                            }
                        }
                    }
                    if dreach(es, seq![root], w, (r + 1) as nat) {
                        if seq![root].contains(w) {
                            let j = choose|j: int| 0 <= j < seq![root].len() && seq![root][j] == w;
                            assert(w == root);
                            assert(acc2@.contains(w));
                        } else {
                            let m = choose|m: Node|
                                dreach(es, seq![root], m, r as nat) && has_val(es, (m, w));
                            let j = choose|j: int| 0 <= j < es.len() && (#[trigger] es[j]).0 == (m, w);
                            assert(acc@.contains(ev@[j].0) && ev@[j].1 == w);
                        }
                    }
                }
            }
            acc = acc2;
            r = r + 1;
        }

        // Record the ball, each pair once.
        let ghost out_q = out@;
        let mut a: usize = 0;
        while a < acc.len()
            invariant
                a <= acc@.len(),
                forall|i2: int, j2: int| 0 <= i2 < j2 < acc@.len() ==> acc@[i2] != acc@[j2],
                forall|w: Node| acc@.contains(w) <==> dreach(es, seq![root], w, steps as nat),
                is_set(out@),
                forall|p: (Node, Node)| has_val(out_q, p) ==> has_val(out@, p),
                forall|p: (Node, Node)|
                    has_val(out@, p) ==> has_val(out_q, p) || (p.0 == root && acc@.contains(p.1)),
                forall|j: int| 0 <= j < a ==> has_val(out@, (root, #[trigger] acc@[j])),
            decreases acc@.len() - a,
        {
            let dst = acc[a];
            let pair = (root, dst);
            let ghost out0 = out@;
            if !out.has(&pair) {
                out.push(pair, 1i64);
                proof {
                    assert(out@ =~= out0.push((pair, 1i64)));
                    assert(out@[out@.len() - 1] == (pair, 1i64));
                    assert forall|p: (Node, Node)|
                        has_val(out@, p) <==> has_val(out0, p) || p == pair by {
                        if has_val(out@, p) {
                            let j = choose|j: int| 0 <= j < out@.len() && (#[trigger] out@[j]).0 == p;
                            if j < out@.len() - 1 {
                                assert(out0[j].0 == p);
                            }
                        }
                        if has_val(out0, p) {
                            let j = choose|j: int| 0 <= j < out0.len() && (#[trigger] out0[j]).0 == p;
                            assert(out@[j].0 == p);
                        }
                        if p == pair {
                            assert(out@[out@.len() - 1].0 == p);
                        }
                    }
                    assert forall|i2: int, j2: int|
                        0 <= i2 < j2 < out@.len() implies (#[trigger] out@[i2]).0 != (
                    #[trigger] out@[j2]).0 by {
                        if j2 == out@.len() - 1 {
                            if out@[i2].0 == pair {
                                assert(has_val(out0, pair)) by {
                                    assert(out0[i2].0 == pair);
                                }
                            }
                        }
                    }
                }
            }
            proof {
                assert(acc@[a as int] == dst);
                assert(acc@.contains(dst));
                assert(has_val(out@, pair));
                assert(forall|p: (Node, Node)|
                    has_val(out@, p) <==> has_val(out0, p) || p == pair);
            }
            a += 1;
        }

        proof {
            assert forall|root2: Node, dst: Node|
                has_val(out@, (root2, dst)) <==> exists|j: int|
                    0 <= j < q + 1 && (#[trigger] sources@[j]).0.0 == root2 && dreach(
                        es,
                        seq![root2],
                        dst,
                        sources@[j].0.1 as nat,
                    ) by {
                if has_val(out@, (root2, dst)) {
                    if has_val(out_q, (root2, dst)) {
                        let j = choose|j: int|
                            0 <= j < q && (#[trigger] sources@[j]).0.0 == root2 && dreach(
                                es,
                                seq![root2],
                                dst,
                                sources@[j].0.1 as nat,
                            );
                        assert(0 <= j < q + 1 && (#[trigger] sources@[j]).0.0 == root2 && dreach(
                            es,
                            seq![root2],
                            dst,
                            sources@[j].0.1 as nat,
                        ));
                    } else {
                        assert(root2 == root && acc@.contains(dst));
                        assert((#[trigger] sources@[q as int]).0.0 == root2 && dreach(
                            es,
                            seq![root2],
                            dst,
                            sources@[q as int].0.1 as nat,
                        ));
                    }
                }
                if exists|j: int|
                    0 <= j < q + 1 && (#[trigger] sources@[j]).0.0 == root2 && dreach(
                        es,
                        seq![root2],
                        dst,
                        sources@[j].0.1 as nat,
                    ) {
                    let j = choose|j: int|
                        0 <= j < q + 1 && (#[trigger] sources@[j]).0.0 == root2 && dreach(
                            es,
                            seq![root2],
                            dst,
                            sources@[j].0.1 as nat,
                        );
                    if j == q {
                        assert(acc@.contains(dst));
                        let j2 = choose|j2: int| 0 <= j2 < acc@.len() && acc@[j2] == dst;
                        assert(has_val(out@, (root, acc@[j2])));
                        assert(root2 == root);
                        assert(has_val(out@, (root2, dst)));
                    } else {
                        assert(has_val(out_q, (root2, dst)));
                    }
                }
            }
        }
        q += 1;
    }

    proof {
        assert forall|root: Node, dst: Node|
            has_val(out@, (root, dst)) <==> exists|s: Iter|
                #[trigger] has_val(sources@, (root, s)) && dreach(
                    edges@,
                    seq![root],
                    dst,
                    s as nat,
                ) by {
            if has_val(out@, (root, dst)) {
                let j = choose|j: int|
                    0 <= j < sources@.len() && (#[trigger] sources@[j]).0.0 == root && dreach(
                        es,
                        seq![root],
                        dst,
                        sources@[j].0.1 as nat,
                    );
                let s = sources@[j].0.1;
                assert(has_val(sources@, (root, s))) by {
                    assert(sources@[j].0 == (root, s));
                }
            }
            if exists|s: Iter|
                #[trigger] has_val(sources@, (root, s)) && dreach(
                    edges@,
                    seq![root],
                    dst,
                    s as nat,
                ) {
                let s = choose|s: Iter|
                    #[trigger] has_val(sources@, (root, s)) && dreach(
                        edges@,
                        seq![root],
                        dst,
                        s as nat,
                    );
                let j = choose|j: int|
                    0 <= j < sources@.len() && (#[trigger] sources@[j]).0 == (root, s);
                assert(sources@[j].0.0 == root && dreach(
                    es,
                    seq![root],
                    dst,
                    sources@[j].0.1 as nat,
                ));
            }
        }
    }
    out
}

} // verus!
