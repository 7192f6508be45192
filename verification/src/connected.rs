//! Connected components by label propagation. Every node starts as its own
//! label; each round every node adopts the least label among itself and its
//! neighbours, until no label changes. At the fixpoint the label of a node
//! is exactly the least node of its component, so two nodes carry the same
//! label precisely when they are connected — the output classes are the
//! connected-components partition.

use vstd::prelude::*;
use crate::collection::Collection;
use crate::diff::{has_val, is_set};
use crate::reach::{connected_in, reach, has_link, lemma_reach_symm, lemma_reach_trans,
    lemma_connected_equiv};
use crate::{Node, Edge};

verus! {

/// Pairwise-distinct entries.
pub open spec fn distinct_seq(ns: Seq<Node>) -> bool {
    forall|i: int, j: int| 0 <= i < j < ns.len() ==> ns[i] != ns[j]
}

/// The position of `v` in `ns` (meaningful when `ns` contains `v` and is
/// distinct).
pub open spec fn idx_of(ns: Seq<Node>, v: Node) -> int {
    choose|i: int| 0 <= i < ns.len() && ns[i] == v
}

/// The label assigned to node `v` by the parallel label list `ls`.
pub open spec fn lab(ns: Seq<Node>, ls: Seq<Node>, v: Node) -> Node {
    ls[idx_of(ns, v)]
}

pub proof fn lemma_idx_self(ns: Seq<Node>, i: int)
    requires
        distinct_seq(ns),
        0 <= i < ns.len(),
    ensures
        idx_of(ns, ns[i]) == i,
{
    let v = ns[i];
    assert(ns.contains(v)) by {
        assert(ns[i] == v);
    }
    assert(exists|j: int| 0 <= j < ns.len() && ns[j] == v);
    let j = idx_of(ns, v);
    assert(0 <= j < ns.len() && ns[j] == v);
    assert(j == i);
}

/// How many entries of `ns` lie strictly below `l`: the rank of a label,
/// the termination measure of one label slot.
spec fn below(ns: Seq<Node>, l: Node) -> nat
    decreases ns.len(),
{
    if ns.len() == 0 {
        0
    } else {
        below(ns.drop_last(), l) + if ns.last() < l {
            1nat
        } else {
            0nat
        }
    }
}

proof fn lemma_below_mono(ns: Seq<Node>, l1: Node, l2: Node)
    requires
        l1 <= l2,
    ensures
        below(ns, l1) <= below(ns, l2),
    decreases ns.len(),
{
    if ns.len() > 0 {
        lemma_below_mono(ns.drop_last(), l1, l2);
    }
}

proof fn lemma_below_strict(ns: Seq<Node>, l1: Node, l2: Node)
    requires
        ns.contains(l1),
        l1 < l2,
    ensures
        below(ns, l1) < below(ns, l2),
    decreases ns.len(),
{
    let i = choose|i: int| 0 <= i < ns.len() && ns[i] == l1;
    if i == ns.len() - 1 {
        assert(ns.last() == l1);
        lemma_below_mono(ns.drop_last(), l1, l2);
    } else {
        assert(ns.drop_last()[i] == l1);
        lemma_below_strict(ns.drop_last(), l1, l2);
    }
}

/// The sum of the ranks of all labels: the round potential.
spec fn pot(ns: Seq<Node>, ls: Seq<Node>) -> nat
    decreases ls.len(),
{
    if ls.len() == 0 {
        0
    } else {
        pot(ns, ls.drop_last()) + below(ns, ls.last())
    }
}

proof fn lemma_pot_le(ns: Seq<Node>, ls1: Seq<Node>, ls2: Seq<Node>)
    requires
        ls1.len() == ls2.len(),
        forall|i: int| 0 <= i < ls1.len() ==> ls2[i] <= ls1[i],
    ensures
        pot(ns, ls2) <= pot(ns, ls1),
    decreases ls1.len(),
{
    if ls1.len() > 0 {
        assert(forall|i: int|
            0 <= i < ls1.len() - 1 ==> #[trigger] ls1.drop_last()[i] == ls1[i]
                && ls2.drop_last()[i] == ls2[i]);
        lemma_pot_le(ns, ls1.drop_last(), ls2.drop_last());
        assert(ls2.last() == ls2[ls1.len() - 1] && ls1.last() == ls1[ls1.len() - 1]);
        lemma_below_mono(ns, ls2.last(), ls1.last());
    }
}

proof fn lemma_pot_strict(ns: Seq<Node>, ls1: Seq<Node>, ls2: Seq<Node>, i: int)
    requires
        ls1.len() == ls2.len(),
        forall|j: int| 0 <= j < ls1.len() ==> ls2[j] <= ls1[j],
        0 <= i < ls1.len(),
        ls2[i] < ls1[i],
        ns.contains(ls2[i]),
    ensures
        pot(ns, ls2) < pot(ns, ls1),
    decreases ls1.len(),
{
    assert(forall|j: int|
        0 <= j < ls1.len() - 1 ==> #[trigger] ls1.drop_last()[j] == ls1[j]
            && ls2.drop_last()[j] == ls2[j]);
    assert(ls2.last() == ls2[ls1.len() - 1] && ls1.last() == ls1[ls1.len() - 1]);
    if i == ls1.len() - 1 {
        lemma_pot_le(ns, ls1.drop_last(), ls2.drop_last());
        lemma_below_strict(ns, ls2.last(), ls1.last());
    } else {
        lemma_pot_strict(ns, ls1.drop_last(), ls2.drop_last(), i);
        lemma_below_mono(ns, ls2.last(), ls1.last());
    }
}

/// At a propagation fixpoint — labels agree across every edge — labels
/// agree along every undirected walk.
proof fn lemma_reach_label_eq(
    es: Seq<(Edge, i64)>,
    ns: Seq<Node>,
    ls: Seq<Node>,
    a: Node,
    b: Node,
    n: nat,
)
    requires
        distinct_seq(ns),
        ls.len() == ns.len(),
        forall|u: Node, v: Node| #[trigger] has_val(es, (u, v)) ==> ns.contains(u) && ns.contains(v),
        forall|u: Node, v: Node| #[trigger]
            has_val(es, (u, v)) ==> lab(ns, ls, u) == lab(ns, ls, v),
        ns.contains(a),
        reach(es, a, b, n),
    ensures
        ns.contains(b),
        lab(ns, ls, a) == lab(ns, ls, b),
    decreases n,
{
    if a == b {
    } else {
        let m = choose|m: Node| has_link(es, a, m) && reach(es, m, b, (n - 1) as nat);
        assert(ns.contains(m) && lab(ns, ls, a) == lab(ns, ls, m));
        lemma_reach_label_eq(es, ns, ls, m, b, (n - 1) as nat);
    }
}

/// A canonical component labelling of the listed nodes: one `(node, label)`
/// pair per node, in order, where the label is a node connected to it and
/// no larger than anything connected to it — the least node of its
/// component.
pub open spec fn canonical_labels(
    es: Seq<(Edge, i64)>,
    nodes: Seq<(Node, i64)>,
    r: Seq<((Node, Node), i64)>,
) -> bool {
    &&& r.len() == nodes.len()
    &&& forall|i: int| 0 <= i < r.len() ==> (#[trigger] r[i]).1 == 1
    &&& forall|i: int| 0 <= i < r.len() ==> (#[trigger] r[i]).0.0 == nodes[i].0
    &&& forall|i: int| 0 <= i < r.len() ==> connected_in(es, (#[trigger] r[i]).0.0, r[i].0.1)
    &&& forall|i: int| 0 <= i < r.len() ==> has_val(nodes, (#[trigger] r[i]).0.1)
    &&& forall|i: int, m: Node|
        0 <= i < r.len() && #[trigger] has_val(nodes, m) && connected_in(
            es,
            (#[trigger] r[i]).0.0,
            m,
        ) ==> r[i].0.1 <= m
}

/// The canonical labelling is unique: any two outputs that satisfy it for
/// the same inputs agree on every pair. Re-running the computation on an
/// unchanged input therefore reproduces its output exactly.
pub proof fn lemma_canonical_labels_unique(
    es: Seq<(Edge, i64)>,
    nodes: Seq<(Node, i64)>,
    r1: Seq<((Node, Node), i64)>,
    r2: Seq<((Node, Node), i64)>,
)
    requires
        canonical_labels(es, nodes, r1),
        canonical_labels(es, nodes, r2),
    ensures
        r1 =~= r2,
{
    assert forall|i: int| 0 <= i < r1.len() implies r1[i] == r2[i] by {
        let l1 = r1[i].0.1;
        let l2 = r2[i].0.1;
        assert(connected_in(es, nodes[i].0, l1));
        assert(connected_in(es, nodes[i].0, l2));
        assert(l2 <= l1);
        assert(l1 <= l2);
    }
}

/// Finds the position of `v` in the distinct list `ns`.
pub(crate) fn find_index(ns: &Vec<Node>, v: Node) -> (r: usize)
    requires
        ns@.contains(v),
        distinct_seq(ns@),
    ensures
        r < ns@.len(),
        ns@[r as int] == v,
        r == idx_of(ns@, v),
{
    let mut i: usize = 0;
    while i < ns.len()
        invariant
            i <= ns@.len(),
            ns@.contains(v),
            distinct_seq(ns@),
            forall|j: int| 0 <= j < i ==> ns@[j] != v,
        decreases ns@.len() - i,
    {
        if ns[i] == v {
            proof {
                lemma_idx_self(ns@, i as int);
            }
            return i;
        }
        i += 1;
    }
    proof {
        let j = choose|j: int| 0 <= j < ns@.len() && ns@[j] == v;
        assert(false);
    }
    0
}

/// Label-propagation connected components. Input: a node set and an edge
/// set over those nodes, read as undirected. Output: a `(node, label)` pair
/// for every node, in input order; two nodes carry the same label exactly
/// when they lie in the same connected component, and each label is the
/// least node of its component.
pub fn connected(nodes: &Collection<Node>, edges: &Collection<Edge>) -> (r: Collection<(Node, Node)>)
    requires
        is_set(nodes@),
        is_set(edges@),
        forall|k: int|
            0 <= k < edges@.len() ==> has_val(nodes@, (#[trigger] edges@[k]).0.0) && has_val(
                nodes@,
                edges@[k].0.1,
            ),
    ensures
        is_set(r@),
        canonical_labels(edges@, nodes@, r@),
        forall|i: int, j: int|
            0 <= i < r@.len() && 0 <= j < r@.len() ==> ((#[trigger] r@[i]).0.1 == (
            #[trigger] r@[j]).0.1 <==> connected_in(edges@, nodes@[i].0, nodes@[j].0)),
{
    let ghost es = edges@;
    let n = nodes.len();

    // Extract the node list; it is distinct because the input is a set.
    let mut ns: Vec<Node> = Vec::new();
    let mut i: usize = 0;
    while i < n
        invariant
            i <= n,
            n == nodes@.len(),
            is_set(nodes@),
            ns@.len() == i,
            forall|j: int| 0 <= j < i ==> ns@[j] == (#[trigger] nodes@[j]).0,
        decreases n - i,
    {
        ns.push(nodes.get(i).0);
        i += 1;
    }
    proof {
        assert forall|a: int, b: int| 0 <= a < b < ns@.len() implies ns@[a] != ns@[b] by {
            assert(nodes@[a].0 != nodes@[b].0);
        }
        assert forall|v: Node| ns@.contains(v) implies has_val(nodes@, v) by {
            let j = choose|j: int| 0 <= j < ns@.len() && ns@[j] == v;
            assert(nodes@[j].0 == v);
        }
        assert forall|v: Node| has_val(nodes@, v) implies ns@.contains(v) by {
            let j = choose|j: int| 0 <= j < nodes@.len() && nodes@[j].0 == v;
            assert(ns@[j] == v);
        }
    }

    // Extract the edge list and resolve each endpoint to its node index.
    let ne = edges.len();
    let mut eix: Vec<(usize, usize)> = Vec::new();
    let mut ev: Vec<Edge> = Vec::new();
    let mut k: usize = 0;
    while k < ne
        invariant
            k <= ne,
            ne == es.len(),
            edges@ == es,
            n == nodes@.len(),
            ns@.len() == n,
            distinct_seq(ns@),
            forall|v: Node| ns@.contains(v) <==> has_val(nodes@, v),
            forall|j: int|
                0 <= j < es.len() ==> has_val(nodes@, (#[trigger] es[j]).0.0) && has_val(
                    nodes@,
                    es[j].0.1,
                ),
            ev@.len() == k,
            eix@.len() == k,
            forall|j: int| 0 <= j < k ==> ev@[j] == (#[trigger] es[j]).0,
            forall|j: int|
                0 <= j < k ==> (#[trigger] eix@[j]).0 < n && eix@[j].1 < n && ns@[eix@[j].0 as int]
                    == es[j].0.0 && ns@[eix@[j].1 as int] == es[j].0.1,
        decreases ne - k,
    {
        let (u, v) = edges.get(k).0;
        proof {
            assert(es[k as int].0 == (u, v));
        }
        let iu = find_index(&ns, u);
        let iv = find_index(&ns, v);
        ev.push((u, v));
        eix.push((iu, iv));
        k += 1;
    }

    // Every node is initially its own label.
    let mut labels: Vec<Node> = Vec::new();
    let mut i2: usize = 0;
    while i2 < n
        invariant
            i2 <= n,
            n == ns@.len(),
            labels@.len() == i2,
            forall|j: int| 0 <= j < i2 ==> labels@[j] == ns@[j],
        decreases n - i2,
    {
        labels.push(ns[i2]);
        i2 += 1;
    }
    proof {
        assert forall|j: int| 0 <= j < n implies connected_in(es, ns@[j], labels@[j]) by {
            lemma_connected_equiv(es, ns@[j], ns@[j], ns@[j]);
        }
    }

    // Propagate least labels until no label changes.
    let mut changed = true;
    while changed
        invariant
            n == ns@.len(),
            n == nodes@.len(),
            edges@ == es,
            ne == es.len(),
            distinct_seq(ns@),
            forall|j: int| 0 <= j < n ==> ns@[j] == (#[trigger] nodes@[j]).0,
            forall|v: Node| ns@.contains(v) <==> has_val(nodes@, v),
            eix@.len() == ne,
            forall|j: int|
                0 <= j < ne ==> (#[trigger] eix@[j]).0 < n && eix@[j].1 < n && ns@[eix@[j].0 as int]
                    == es[j].0.0 && ns@[eix@[j].1 as int] == es[j].0.1,
            labels@.len() == n,
            forall|j: int| 0 <= j < n ==> ns@.contains(#[trigger] labels@[j]),
            forall|j: int| 0 <= j < n ==> connected_in(es, ns@[j], #[trigger] labels@[j]),
            forall|j: int| 0 <= j < n ==> #[trigger] labels@[j] <= ns@[j],
            !changed ==> forall|j: int|
                0 <= j < ne ==> labels@[(#[trigger] eix@[j]).0 as int] == labels@[eix@[j].1 as int],
        decreases pot(ns@, labels@), (if changed { 1int } else { 0int }),
    {
        let ghost ls0 = labels@;
        // Copy the labels; relaxations read the old round, write the new.
        let mut nl: Vec<Node> = Vec::new();
        let mut i3: usize = 0;
        while i3 < n
            invariant
                i3 <= n,
                n == labels@.len(),
                nl@.len() == i3,
                forall|j: int| 0 <= j < i3 ==> nl@[j] == labels@[j],
            decreases n - i3,
        {
            nl.push(labels[i3]);
            i3 += 1;
        }
        let mut did = false;
        let mut k2: usize = 0;
        while k2 < ne
            invariant
                k2 <= ne,
                ne == es.len(),
                n == ns@.len(),
                distinct_seq(ns@),
                eix@.len() == ne,
                forall|j: int|
                    0 <= j < ne ==> (#[trigger] eix@[j]).0 < n && eix@[j].1 < n
                        && ns@[eix@[j].0 as int] == es[j].0.0 && ns@[eix@[j].1 as int] == es[j].0.1,
                labels@ == ls0,
                labels@.len() == n,
                forall|j: int| 0 <= j < n ==> ns@.contains(#[trigger] labels@[j]),
                forall|j: int| 0 <= j < n ==> connected_in(es, ns@[j], #[trigger] labels@[j]),
                forall|j: int| 0 <= j < n ==> #[trigger] labels@[j] <= ns@[j],
                nl@.len() == n,
                forall|j: int| 0 <= j < n ==> #[trigger] nl@[j] <= labels@[j],
                forall|j: int| 0 <= j < n ==> ns@.contains(#[trigger] nl@[j]),
                forall|j: int| 0 <= j < n ==> connected_in(es, ns@[j], #[trigger] nl@[j]),
                !did ==> nl@ == ls0,
                did ==> exists|j: int| 0 <= j < n && #[trigger] nl@[j] < ls0[j],
                forall|j: int|
                    0 <= j < k2 ==> nl@[(#[trigger] eix@[j]).0 as int] <= ls0[eix@[j].1 as int]
                        && nl@[eix@[j].1 as int] <= ls0[eix@[j].0 as int],
            decreases ne - k2,
        {
            let (iu, iv) = eix[k2];
            let lu = labels[iu];
            let lv = labels[iv];
            proof {
                let ghost j0 = k2 as int;
                assert(ns@[eix@[j0].0 as int] == es[j0].0.0);
                assert(has_val(es, (ns@[eix@[j0].0 as int], ns@[eix@[j0].1 as int]))) by {
                    assert(es[j0].0 == (ns@[eix@[j0].0 as int], ns@[eix@[j0].1 as int]));
                }
            }
            let ghost u_node = ns@[iu as int];
            let ghost v_node = ns@[iv as int];
            if lv < nl[iu] {
                nl.set(iu, lv);
                did = true;
                proof {
                    assert(nl@[iu as int] < ls0[iu as int]);
                    // the adopted label lies in the neighbour's component,
                    // which is also this node's component.
                    lemma_connected_equiv(es, u_node, v_node, lv);
                    assert(has_link(es, u_node, v_node));
                    lemma_connected_equiv(es, u_node, v_node, lv);
                    assert(connected_in(es, v_node, lv));
                    assert(connected_in(es, u_node, v_node));
                    let n1 = choose|x: nat| reach(es, u_node, v_node, x);
                    let n2 = choose|x: nat| reach(es, v_node, lv, x);
                    lemma_reach_trans(es, u_node, v_node, lv, n1, n2);
                    assert(connected_in(es, u_node, lv));
                }
            }
            if lu < nl[iv] {
                nl.set(iv, lu);
                did = true;
                proof {
                    assert(nl@[iv as int] < ls0[iv as int]);
                    lemma_connected_equiv(es, v_node, u_node, lu);
                    assert(has_link(es, v_node, u_node));
                    assert(connected_in(es, u_node, lu));
                    let n1 = choose|x: nat| reach(es, v_node, u_node, x);
                    let n2 = choose|x: nat| reach(es, u_node, lu, x);
                    lemma_reach_trans(es, v_node, u_node, lu, n1, n2);
                    assert(connected_in(es, v_node, lu));
                }
            }
            k2 += 1;
        }
        proof {
            if did {
                let j = choose|j: int| 0 <= j < n && #[trigger] nl@[j] < ls0[j];
                lemma_pot_strict(ns@, ls0, nl@, j);
            } else {
                assert(nl@ == ls0);
            }
        }
        labels = nl;
        changed = did;
    }

    // Assemble the output pairs.
    let mut out: Collection<(Node, Node)> = Collection::empty();
    let mut i4: usize = 0;
    while i4 < n
        invariant
            i4 <= n,
            n == ns@.len(),
            labels@.len() == n,
            out@.len() == i4,
            forall|j: int| 0 <= j < i4 ==> (#[trigger] out@[j]) == ((ns@[j], labels@[j]), 1i64),
        decreases n - i4,
    {
        let ghost out0 = out@;
        out.push((ns[i4], labels[i4]), 1i64);
        proof {
            assert(out@ =~= out0.push(((ns@[i4 as int], labels@[i4 as int]), 1i64)));
        }
        i4 += 1;
    }

    proof {
        // The loop's exit fact, re-read over edge values.
        assert forall|u: Node, v: Node| #[trigger]
            has_val(es, (u, v)) implies ns@.contains(u) && ns@.contains(v) by {
            let j = choose|j: int| 0 <= j < es.len() && es[j].0 == (u, v);
            assert(has_val(nodes@, u) && has_val(nodes@, v));
        }
        assert forall|u: Node, v: Node| #[trigger]
            has_val(es, (u, v)) implies lab(ns@, labels@, u) == lab(ns@, labels@, v) by {
            let j = choose|j: int| 0 <= j < es.len() && es[j].0 == (u, v);
            assert(ns@[eix@[j].0 as int] == u && ns@[eix@[j].1 as int] == v);
            lemma_idx_self(ns@, eix@[j].0 as int);
            lemma_idx_self(ns@, eix@[j].1 as int);
            assert(labels@[eix@[j].0 as int] == labels@[eix@[j].1 as int]);
        }

        // Labels agree along walks, so a label is least in its component.
        assert forall|i: int, m: Node|
            0 <= i < out@.len() && #[trigger] has_val(nodes@, m) && connected_in(
                es,
                (#[trigger] out@[i]).0.0,
                m,
            ) implies out@[i].0.1 <= m by {
            let nn = choose|x: nat| reach(es, ns@[i], m, x);
            lemma_idx_self(ns@, i);
            lemma_reach_label_eq(es, ns@, labels@, ns@[i], m, nn);
            let im = idx_of(ns@, m);
            assert(labels@[im] <= ns@[im]);
            assert(lab(ns@, labels@, m) == labels@[im]);
            assert(labels@[i] == labels@[im]);
            assert(ns@[im] == m);
        }

        // Equal labels exactly on connected pairs.
        assert forall|i: int, j: int|
            0 <= i < out@.len() && 0 <= j < out@.len() implies ((#[trigger] out@[i]).0.1 == (
            #[trigger] out@[j]).0.1 <==> connected_in(es, nodes@[i].0, nodes@[j].0)) by {
            lemma_idx_self(ns@, i);
            lemma_idx_self(ns@, j);
            if connected_in(es, ns@[i], ns@[j]) {
                let nn = choose|x: nat| reach(es, ns@[i], ns@[j], x);
                lemma_reach_label_eq(es, ns@, labels@, ns@[i], ns@[j], nn);
                assert(out@[i].0.1 == out@[j].0.1);
            }
            if out@[i].0.1 == out@[j].0.1 {
                let l = labels@[i];
                assert(connected_in(es, ns@[i], l));
                assert(connected_in(es, ns@[j], l));
                let n1 = choose|x: nat| reach(es, ns@[i], l, x);
                let n2 = choose|x: nat| reach(es, ns@[j], l, x);
                lemma_reach_symm(es, ns@[j], l, n2);
                lemma_reach_trans(es, ns@[i], l, ns@[j], n1, n2);
                assert(connected_in(es, ns@[i], ns@[j]));
            }
        }

        // The output is a set: nodes are distinct in the first position.
        assert forall|a: int, b: int| 0 <= a < b < out@.len() implies out@[a].0 != out@[b].0 by {
            assert(ns@[a] != ns@[b]);
        }
        assert(is_set(out@));

        assert forall|i: int| 0 <= i < out@.len() implies has_val(
            nodes@,
            (#[trigger] out@[i]).0.1,
        ) by {
            assert(ns@.contains(labels@[i]));
        }
    }
    out
}

} // verus!
