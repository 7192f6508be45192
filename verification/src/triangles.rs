//! Worker-balanced triangle enumeration. Only forward edges (tail below
//! head) count; for each such edge, the endpoint with the smaller forward
//! degree proposes the third vertex, and each proposal is validated against
//! the edge set. Which side proposes never changes the answer — it only
//! balances the work — and the contract pins the answer: exactly the
//! ordered vertex triples whose three edges are all recorded.

use vstd::prelude::*;
use crate::collection::{Collection, Val};
use crate::diff::{has_val, is_set};
use crate::{Node, Edge};

verus! {

/// A recorded forward edge: tail strictly below head.
pub open spec fn fedge(es: Seq<(Edge, i64)>, a: Node, b: Node) -> bool {
    has_val(es, (a, b)) && a < b
}

/// Membership scan for an edge list.
pub(crate) fn vec_has_edge(xs: &Vec<Edge>, e: Edge) -> (r: bool)
    ensures
        r == xs@.contains(e),
{
    let mut i: usize = 0;
    while i < xs.len()
        invariant
            i <= xs@.len(),
            forall|j: int| 0 <= j < i ==> xs@[j] != e,
        decreases xs@.len() - i,
    {
        if xs[i].same(&e) {
            assert(xs@[i as int] == e);
            return true;
        }
        i += 1;
    }
    false
}

/// The forward out-degree of `x` in the edge list: how many recorded
/// forward edges leave it. Only the balance decision reads it.
fn forward_degree(fv: &Vec<Edge>, x: Node) -> (r: usize)
{
    let mut count: usize = 0;
    let mut i: usize = 0;
    while i < fv.len()
        invariant
            i <= fv@.len(),
            count <= i,
        decreases fv@.len() - i,
    {
        if fv[i].0 == x {
            count += 1;
        }
        i += 1;
    }
    count
}

/// Enumerates each triangle once, as the ordered triple `(a, b, c)` with
/// `a < b < c`, from the forward reading of the edge set.
pub fn triangles(edges: &Collection<Edge>) -> (r: Collection<(Node, Node, Node)>)
    requires
        is_set(edges@),
    ensures
        is_set(r@),
        forall|a: Node, b: Node, c: Node|
            has_val(r@, (a, b, c)) <==> fedge(edges@, a, b) && fedge(edges@, a, c) && fedge(
                edges@,
                b,
                c,
            ),
{
    let ghost es = edges@;
    let n = edges.len();

    // The forward edges, as plain values.
    let mut fv: Vec<Edge> = Vec::new();
    let mut i: usize = 0;
    while i < n
        invariant
            i <= n,
            n == es.len(),
            edges@ == es,
            is_set(es),
            forall|i2: int, j2: int| 0 <= i2 < j2 < fv@.len() ==> fv@[i2] != fv@[j2],
            forall|e: Edge|
                fv@.contains(e) <==> exists|j: int|
                    0 <= j < i && (#[trigger] es[j]).0 == e && e.0 < e.1,
        decreases n - i,
    {
        let (a, b) = edges.get(i).0;
        proof {
            assert(es[i as int].0 == (a, b));
        }
        let ghost fv0 = fv@;
        if a < b {
            fv.push((a, b));
            proof {
                assert(fv@ =~= fv0.push((a, b)));
                assert(fv@[fv@.len() - 1] == (a, b));
                assert forall|e: Edge| fv@.contains(e) implies fv0.contains(e) || e == (a, b) by {
                    let j = choose|j: int| 0 <= j < fv@.len() && fv@[j] == e;
                    if j < fv@.len() - 1 {
                        assert(fv0[j] == e);
                    }
                }
                assert forall|e: Edge| fv0.contains(e) implies fv@.contains(e) by {
                    let j = choose|j: int| 0 <= j < fv0.len() && fv0[j] == e;
                    assert(fv@[j] == e);
                }
                assert forall|i2: int, j2: int|
                    0 <= i2 < j2 < fv@.len() implies fv@[i2] != fv@[j2] by {
                    if j2 == fv@.len() - 1 {
                        if fv@[i2] == (a, b) {
                            assert(fv0.contains((a, b))) by {
                                assert(fv0[i2] == (a, b));
                            }
                            let j = choose|j: int|
                                0 <= j < i && (#[trigger] es[j]).0 == (a, b) && a < b;
                            assert(es[j].0 == es[i as int].0);
                            assert(false);
                        }
                    }
                }
            }
        }
        proof {
            assert forall|e: Edge|
                fv@.contains(e) <==> exists|j: int|
                    0 <= j < i + 1 && (#[trigger] es[j]).0 == e && e.0 < e.1 by {
                if fv@.contains(e) && !fv0.contains(e) {
                    assert((#[trigger] es[i as int]).0 == e && e.0 < e.1);
                }
                if fv0.contains(e) {
                    let j = choose|j: int| 0 <= j < i && (#[trigger] es[j]).0 == e && e.0 < e.1;
                    assert(0 <= j < i + 1 && (#[trigger] es[j]).0 == e && e.0 < e.1);
                }
                if exists|j: int| 0 <= j < i + 1 && (#[trigger] es[j]).0 == e && e.0 < e.1 {
                    let j = choose|j: int|
                        0 <= j < i + 1 && (#[trigger] es[j]).0 == e && e.0 < e.1;
                    if j == i {
                        assert(e == (a, b) && a < b);
                        assert(fv@.contains(e));
                    } else {
                        assert(fv0.contains(e));
                    }
                }
            }
        }
        i += 1;
    }
    proof {
        assert forall|e: Edge| fv@.contains(e) <==> fedge(es, e.0, e.1) by {
            if fv@.contains(e) {
                let j = choose|j: int| 0 <= j < n && (#[trigger] es[j]).0 == e && e.0 < e.1;
                assert(has_val(es, e));
            }
            if fedge(es, e.0, e.1) {
                let j = choose|j: int| 0 <= j < es.len() && (#[trigger] es[j]).0 == e;
                assert(e == (e.0, e.1));
            }
        }
    }

    let nf = fv.len();
    let mut out: Collection<(Node, Node, Node)> = Collection::empty();
    let mut k: usize = 0;
    while k < nf
        invariant
            k <= nf,
            nf == fv@.len(),
            forall|i2: int, j2: int| 0 <= i2 < j2 < fv@.len() ==> fv@[i2] != fv@[j2],
            forall|e: Edge| fv@.contains(e) <==> fedge(es, e.0, e.1),
            is_set(out@),
            forall|t: (Node, Node, Node)|
                #![trigger has_val(out@, t)]
                has_val(out@, t) <==> exists|j: int|
                    0 <= j < k && (#[trigger] fv@[j]) == (t.0, t.1) && fv@.contains((t.0, t.2))
                        && fv@.contains((t.1, t.2)),
        decreases nf - k,
    {
        let (a, b) = fv[k];
        proof {
            assert(fv@[k as int] == (a, b));
        }
        let ghost out_k = out@;

        // The side with fewer forward edges proposes the third vertex; the
        // other side's edge is validated against the edge set.
        let d1 = forward_degree(&fv, a);
        let d2 = forward_degree(&fv, b);
        let px = if d1 <= d2 { a } else { b };
        let po = if d1 <= d2 { b } else { a };
        proof {
            assert((px == a && po == b) || (px == b && po == a));
        }

        let mut m: usize = 0;
        while m < nf
            invariant
                m <= nf,
                nf == fv@.len(),
                forall|i2: int, j2: int| 0 <= i2 < j2 < fv@.len() ==> fv@[i2] != fv@[j2],
                forall|e: Edge| fv@.contains(e) <==> fedge(es, e.0, e.1),
                fv@[k as int] == (a, b),
                k < nf,
                (px == a && po == b) || (px == b && po == a),
                is_set(out@),
                forall|t: (Node, Node, Node)|
                    #![trigger has_val(out_k, t)]
                    has_val(out_k, t) <==> exists|j: int|
                        0 <= j < k && (#[trigger] fv@[j]) == (t.0, t.1) && fv@.contains((t.0, t.2))
                            && fv@.contains((t.1, t.2)),
                forall|t: (Node, Node, Node)|
                    #![trigger has_val(out@, t)]
                    has_val(out@, t) <==> has_val(out_k, t) || ((t.0, t.1) == (a, b) && exists|
                        j: int,
                    |
                        0 <= j < m && (#[trigger] fv@[j]) == (px, t.2) && fv@.contains((t.0, t.2))
                            && fv@.contains((t.1, t.2))),
            decreases nf - m,
        {
            let (x, c) = fv[m];
            proof {
                assert(fv@[m as int] == (x, c));
            }
            let ghost out0 = out@;
            let push = x == px && vec_has_edge(&fv, (po, c));
            if push {
                proof {
                    assert(fv@.contains((px, c))) by {
                        assert(fv@[m as int] == (px, c));
                    }
                    assert(fv@.contains((a, c)) && fv@.contains((b, c)));
                    if has_val(out@, (a, b, c)) {
                        if has_val(out_k, (a, b, c)) {
                            let j = choose|j: int|
                                0 <= j < k && (#[trigger] fv@[j]) == (a, b) && fv@.contains((a, c))
                                    && fv@.contains((b, c));
                            assert(fv@[j] == fv@[k as int]);
                            assert(false);
                        } else {
                            let j = choose|j: int|
                                0 <= j < m && (#[trigger] fv@[j]) == (px, c) && fv@.contains((a, c))
                                    && fv@.contains((b, c));
                            assert(fv@[j] == fv@[m as int]);
                            assert(false);
                        }
                    }
                }
                out.push((a, b, c), 1i64);
                proof {
                    assert(out@ =~= out0.push(((a, b, c), 1i64)));
                    assert(out@[out@.len() - 1] == ((a, b, c), 1i64));
                    assert forall|t: (Node, Node, Node)|
                        has_val(out@, t) <==> has_val(out0, t) || t == (a, b, c) by {
                        if has_val(out@, t) {
                            let j = choose|j: int| 0 <= j < out@.len() && (#[trigger] out@[j]).0 == t;
                            if j < out@.len() - 1 {
                                assert(out0[j].0 == t);
                            }
                        }
                        if has_val(out0, t) {
                            let j = choose|j: int| 0 <= j < out0.len() && (#[trigger] out0[j]).0 == t;
                            assert(out@[j].0 == t);
                        }
                        if t == (a, b, c) {
                            assert(out@[out@.len() - 1].0 == t);
                        }
                    }
                    assert forall|i2: int, j2: int|
                        0 <= i2 < j2 < out@.len() implies (#[trigger] out@[i2]).0 != (
                    #[trigger] out@[j2]).0 by {
                        if j2 == out@.len() - 1 {
                            if out@[i2].0 == (a, b, c) {
                                assert(has_val(out0, (a, b, c))) by {
                                    assert(out0[i2].0 == (a, b, c));
                                }
                            }
                        }
                    }
                }
            }
            proof {
                assert forall|t: (Node, Node, Node)|
                    #![trigger has_val(out@, t)]
                    has_val(out@, t) <==> has_val(out_k, t) || ((t.0, t.1) == (a, b) && exists|
                        j: int,
                    |
                        0 <= j < m + 1 && (#[trigger] fv@[j]) == (px, t.2) && fv@.contains(
                            (t.0, t.2),
                        ) && fv@.contains((t.1, t.2))) by {
                    if has_val(out@, t) && !has_val(out0, t) {
                        assert(push && t == (a, b, c));
                        assert((#[trigger] fv@[m as int]) == (px, t.2) && fv@.contains((t.0, t.2))
                            && fv@.contains((t.1, t.2)));
                    }
                    if has_val(out_k, t) {
                        assert(has_val(out0, t));
                        assert(has_val(out@, t));
                    }
                    if has_val(out0, t) && !has_val(out_k, t) {
                        let j = choose|j: int|
                            0 <= j < m && (#[trigger] fv@[j]) == (px, t.2) && fv@.contains(
                                (t.0, t.2),
                            ) && fv@.contains((t.1, t.2));
                        assert(0 <= j < m + 1 && (#[trigger] fv@[j]) == (px, t.2) && fv@.contains(
                            (t.0, t.2),
                        ) && fv@.contains((t.1, t.2)));
                        assert(has_val(out@, t));
                    }
                    if (t.0, t.1) == (a, b) && exists|j: int|
                        0 <= j < m + 1 && (#[trigger] fv@[j]) == (px, t.2) && fv@.contains(
                            (t.0, t.2),
                        ) && fv@.contains((t.1, t.2)) {
                        let j = choose|j: int|
                            0 <= j < m + 1 && (#[trigger] fv@[j]) == (px, t.2) && fv@.contains(
                                (t.0, t.2),
                            ) && fv@.contains((t.1, t.2));
                        if j == m {
                            assert(x == px && c == t.2);
                            assert(fv@.contains((po, c)));
                            assert(push);
                            assert(t == (a, b, c));
                            assert(has_val(out@, t));
                        } else {
                            assert(has_val(out0, t));
                            assert(has_val(out@, t));
                        }
                    }
                }
            }
            m += 1;
        }

        proof {
            // The per-edge pass found exactly this edge's triangles,
            // whichever side proposed.
            assert forall|t: (Node, Node, Node)|
                #![trigger has_val(out@, t)]
                has_val(out@, t) <==> exists|j: int|
                    0 <= j < k + 1 && (#[trigger] fv@[j]) == (t.0, t.1) && fv@.contains((t.0, t.2))
                        && fv@.contains((t.1, t.2)) by {
                if has_val(out@, t) {
                    if has_val(out_k, t) {
                        let j = choose|j: int|
                            0 <= j < k && (#[trigger] fv@[j]) == (t.0, t.1) && fv@.contains(
                                (t.0, t.2),
                            ) && fv@.contains((t.1, t.2));
                        assert(0 <= j < k + 1 && (#[trigger] fv@[j]) == (t.0, t.1) && fv@.contains(
                            (t.0, t.2),
                        ) && fv@.contains((t.1, t.2)));
                    } else {
                        assert((t.0, t.1) == (a, b));
                        assert((#[trigger] fv@[k as int]) == (t.0, t.1) && fv@.contains((t.0, t.2))
                            && fv@.contains((t.1, t.2)));
                    }
                }
                if exists|j: int|
                    0 <= j < k + 1 && (#[trigger] fv@[j]) == (t.0, t.1) && fv@.contains((t.0, t.2))
                        && fv@.contains((t.1, t.2)) {
                    let j = choose|j: int|
                        0 <= j < k + 1 && (#[trigger] fv@[j]) == (t.0, t.1) && fv@.contains(
                            (t.0, t.2),
                        ) && fv@.contains((t.1, t.2));
                    if j == k {
                        assert((t.0, t.1) == (a, b));
                        assert(fv@.contains((px, t.2)));
                        let j2 = choose|j2: int|
                            0 <= j2 < fv@.len() && (#[trigger] fv@[j2]) == (px, t.2);
                        assert(has_val(out@, t));
                    } else {
                        assert(has_val(out_k, t));
                        assert(has_val(out@, t));
                    }
                }
            }
        }
        k += 1;
    }

    proof {
        assert forall|a: Node, b: Node, c: Node|
            has_val(out@, (a, b, c)) <==> fedge(es, a, b) && fedge(es, a, c) && fedge(
                es,
                b,
                c,
            ) by {
            if has_val(out@, (a, b, c)) {
                let j = choose|j: int|
                    0 <= j < nf && (#[trigger] fv@[j]) == (a, b) && fv@.contains((a, c))
                        && fv@.contains((b, c));
                assert(fv@.contains((a, b))) by {
                    assert(fv@[j] == (a, b));
                }
            }
            if fedge(es, a, b) && fedge(es, a, c) && fedge(es, b, c) {
                assert(fv@.contains((a, b)) && fv@.contains((a, c)) && fv@.contains((b, c)));
                let j = choose|j: int| 0 <= j < fv@.len() && (#[trigger] fv@[j]) == (a, b);
                assert(has_val(out@, (a, b, c)));
            }
        }
    }
    out
}

} // verus!
