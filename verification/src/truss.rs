//! Iterative k-truss decomposition by peeling. Every forward edge starts at
//! a provisional maximal level; each round, every triangle is labelled with
//! the least current level among its three edges, and every edge settles at
//! the largest `k` such that at least `k` of its triangles carry a label of
//! at least `k` — walking the labels downward with a running total settles
//! at exactly that point. Levels only ever decrease, and the loop stops at
//! the first round that changes nothing, so the output levels are a
//! fixpoint of the settling rule.

use vstd::prelude::*;
use crate::collection::{Collection, Val};
use crate::diff::{has_val, is_set};
use crate::triangles::{triangles, fedge};
use crate::{Node, Edge};

verus! {

/// An ordered triangle of the forward edge set.
pub open spec fn is_tri(es: Seq<(Edge, i64)>, t: (Node, Node, Node)) -> bool {
    fedge(es, t.0, t.1) && fedge(es, t.0, t.2) && fedge(es, t.1, t.2)
}

/// Whether the triangle has `e` as one of its three edges.
pub open spec fn touches(t: (Node, Node, Node), e: Edge) -> bool {
    (t.0, t.1) == e || (t.0, t.2) == e || (t.1, t.2) == e
}

/// The level an output collection assigns to an edge.
pub open spec fn level_of(r: Seq<((Edge, u64), i64)>, e: Edge) -> u64 {
    choose|l: u64| has_val(r, (e, l))
}

/// The least of three levels.
pub open spec fn min3(a: u64, b: u64, c: u64) -> u64 {
    if a <= b && a <= c {
        a
    } else if b <= c {
        b
    } else {
        c
    }
}

/// The least of three levels never rises when none of them does.
proof fn lemma_min3_mono(a1: u64, b1: u64, c1: u64, a2: u64, b2: u64, c2: u64)
    requires
        a2 <= a1,
        b2 <= b1,
        c2 <= c1,
    ensures
        min3(a2, b2, c2) <= min3(a1, b1, c1),
{
}

/// A triangle's label: the least level among its three edges.
pub open spec fn tri_label(r: Seq<((Edge, u64), i64)>, t: (Node, Node, Node)) -> u64 {
    min3(
        level_of(r, (t.0, t.1)),
        level_of(r, (t.0, t.2)),
        level_of(r, (t.1, t.2)),
    )
}

/// How many listed triangles touch `e` and carry a label of at least `k`.
pub open spec fn count_tris_ge(
    ts: Seq<(Node, Node, Node)>,
    r: Seq<((Edge, u64), i64)>,
    e: Edge,
    k: u64,
) -> int
    decreases ts.len(),
{
    if ts.len() == 0 {
        0
    } else {
        count_tris_ge(ts.drop_last(), r, e, k) + if touches(ts.last(), e) && tri_label(
            r,
            ts.last(),
        ) >= k {
            1int
        } else {
            0int
        }
    }
}

/// The settling rule holds at every recorded edge: its level `l` is the
/// largest value with at least `l` triangles of label at least `l`, over
/// some enumeration of the triangles (any enumeration gives the same
/// counts, so the choice carries no content).
pub open spec fn truss_fixpoint(es: Seq<(Edge, i64)>, r: Seq<((Edge, u64), i64)>) -> bool {
    exists|ts: Seq<(Node, Node, Node)>|
        #[trigger] tri_list_ok(es, ts) && forall|i: int|
            0 <= i < r.len() ==> settled(ts, r, (#[trigger] r[i]).0.0, r[i].0.1)
}

/// A faithful enumeration of the triangles: each exactly once.
pub open spec fn tri_list_ok(es: Seq<(Edge, i64)>, ts: Seq<(Node, Node, Node)>) -> bool {
    &&& forall|i: int, j: int| 0 <= i < j < ts.len() ==> ts[i] != ts[j]
    &&& forall|t: (Node, Node, Node)| ts.contains(t) <==> is_tri(es, t)
}

/// `l` is the h-index of the labels of the triangles on `e`.
pub open spec fn settled(
    ts: Seq<(Node, Node, Node)>,
    r: Seq<((Edge, u64), i64)>,
    e: Edge,
    l: u64,
) -> bool {
    &&& count_tris_ge(ts, r, e, l) >= l
    &&& forall|k: u64| k > l ==> count_tris_ge(ts, r, e, k) < k
}

/// The triangle membership of an edge read off the index triple.
pub open spec fn ti_touch(tix: (usize, usize, usize), i: int) -> bool {
    tix.0 == i || tix.1 == i || tix.2 == i
}

/// Executable counterpart of `count_tris_ge` over index triples and
/// precomputed labels.
pub open spec fn count_ge_ti(
    tixs: Seq<(usize, usize, usize)>,
    tls: Seq<u64>,
    i: int,
    k: u64,
) -> int
    decreases tixs.len(),
{
    if tixs.len() == 0 {
        0
    } else {
        count_ge_ti(tixs.drop_last(), tls.drop_last(), i, k) + if ti_touch(tixs.last(), i)
            && tls.last() >= k {
            1int
        } else {
            0int
        }
    }
}

/// The counts agree when indices and labels mirror the triangle list.
proof fn lemma_count_bridge(
    ts: Seq<(Node, Node, Node)>,
    tixs: Seq<(usize, usize, usize)>,
    tls: Seq<u64>,
    r: Seq<((Edge, u64), i64)>,
    e: Edge,
    i: int,
    k: u64,
)
    requires
        tixs.len() == ts.len(),
        tls.len() == ts.len(),
        forall|j: int|
            0 <= j < ts.len() ==> (touches(#[trigger] ts[j], e) <==> ti_touch(tixs[j], i)),
        forall|j: int| 0 <= j < ts.len() ==> tri_label(r, #[trigger] ts[j]) == tls[j],
    ensures
        count_tris_ge(ts, r, e, k) == count_ge_ti(tixs, tls, i, k),
    decreases ts.len(),
{
    if ts.len() > 0 {
        assert(forall|j: int|
            0 <= j < ts.len() - 1 ==> #[trigger] ts.drop_last()[j] == ts[j]
                && tixs.drop_last()[j] == tixs[j] && tls.drop_last()[j] == tls[j]);
        lemma_count_bridge(ts.drop_last(), tixs.drop_last(), tls.drop_last(), r, e, i, k);
        assert(ts.last() == ts[ts.len() - 1]);
        assert(tixs.last() == tixs[ts.len() - 1]);
        assert(tls.last() == tls[ts.len() - 1]);
    }
}

/// The count never exceeds the number of triangles on the edge.
proof fn lemma_count_le_touched(
    tixs: Seq<(usize, usize, usize)>,
    tls: Seq<u64>,
    i: int,
    k: u64,
)
    requires
        tls.len() == tixs.len(),
    ensures
        0 <= count_ge_ti(tixs, tls, i, k),
        count_ge_ti(tixs, tls, i, k) <= count_touched(tixs, i),
    decreases tixs.len(),
{
    if tixs.len() > 0 {
        lemma_count_le_touched(tixs.drop_last(), tls.drop_last(), i, k);
    }
}

/// How many listed triangles touch edge `i`.
pub open spec fn count_touched(tixs: Seq<(usize, usize, usize)>, i: int) -> int
    decreases tixs.len(),
{
    if tixs.len() == 0 {
        0
    } else {
        count_touched(tixs.drop_last(), i) + if ti_touch(tixs.last(), i) {
            1int
        } else {
            0int
        }
    }
}

/// Labels at most `b` on every triangle of the edge force a count of zero
/// beyond `b`.
proof fn lemma_count_zero_above(
    tixs: Seq<(usize, usize, usize)>,
    tls: Seq<u64>,
    i: int,
    b: u64,
    k: u64,
)
    requires
        tls.len() == tixs.len(),
        forall|j: int| 0 <= j < tixs.len() && ti_touch(#[trigger] tixs[j], i) ==> tls[j] <= b,
        k > b,
    ensures
        count_ge_ti(tixs, tls, i, k) == 0,
    decreases tixs.len(),
{
    if tixs.len() > 0 {
        assert(forall|j: int|
            0 <= j < tixs.len() - 1 ==> #[trigger] tixs.drop_last()[j] == tixs[j]
                && tls.drop_last()[j] == tls[j]);
        lemma_count_zero_above(tixs.drop_last(), tls.drop_last(), i, b, k);
        assert(tixs.last() == tixs[tixs.len() - 1]);
        assert(tls.last() == tls[tixs.len() - 1]);
    }
}


/// Removing one triangle removes exactly its contribution to a count.
proof fn lemma_count_tris_remove(
    ts: Seq<(Node, Node, Node)>,
    r: Seq<((Edge, u64), i64)>,
    e: Edge,
    k: u64,
    i: int,
)
    requires
        0 <= i < ts.len(),
    ensures
        count_tris_ge(ts.remove(i), r, e, k) == count_tris_ge(ts, r, e, k) - (if touches(
            ts[i],
            e,
        ) && tri_label(r, ts[i]) >= k {
            1int
        } else {
            0int
        }),
    decreases ts.len(),
{
    if i == ts.len() - 1 {
        assert(ts.remove(i) =~= ts.drop_last());
    } else {
        assert(ts.remove(i).drop_last() =~= ts.drop_last().remove(i));
        assert(ts.remove(i).last() == ts.last());
        lemma_count_tris_remove(ts.drop_last(), r, e, k, i);
    }
}

/// The counts depend only on which triangles are listed, never on the
/// order of the listing.
proof fn lemma_count_tris_perm(
    ts1: Seq<(Node, Node, Node)>,
    ts2: Seq<(Node, Node, Node)>,
    r: Seq<((Edge, u64), i64)>,
    e: Edge,
    k: u64,
)
    requires
        ts1.to_multiset() == ts2.to_multiset(),
    ensures
        count_tris_ge(ts1, r, e, k) == count_tris_ge(ts2, r, e, k),
    decreases ts1.len(),
{
    ts1.to_multiset_ensures();
    ts2.to_multiset_ensures();
    if ts1.len() == 0 {
        assert(ts2.to_multiset().len() == 0);
        assert(ts2.len() == 0);
    } else {
        let last = ts1.last();
        assert(ts1.contains(last));
        assert(ts1.to_multiset().count(last) > 0);
        assert(ts2.to_multiset().count(last) > 0);
        assert(ts2.contains(last));
        let j = choose|j: int| 0 <= j < ts2.len() && ts2[j] == last;
        assert(ts1.drop_last() =~= ts1.remove(ts1.len() - 1));
        assert(ts1.remove(ts1.len() - 1).to_multiset() =~= ts1.to_multiset().remove(last));
        assert(ts2.remove(j).to_multiset() =~= ts2.to_multiset().remove(last));
        lemma_count_tris_perm(ts1.drop_last(), ts2.remove(j), r, e, k);
        lemma_count_tris_remove(ts2, r, e, k, j);
    }
}

/// Two faithful enumerations of the triangles give the same counts.
proof fn lemma_faithful_same_counts(
    es: Seq<(Edge, i64)>,
    ts1: Seq<(Node, Node, Node)>,
    ts2: Seq<(Node, Node, Node)>,
    r: Seq<((Edge, u64), i64)>,
    e: Edge,
    k: u64,
)
    requires
        tri_list_ok(es, ts1),
        tri_list_ok(es, ts2),
    ensures
        count_tris_ge(ts1, r, e, k) == count_tris_ge(ts2, r, e, k),
{
    assert(ts1.no_duplicates()) by {
        assert forall|i: int, j: int|
            0 <= i < ts1.len() && 0 <= j < ts1.len() && i != j implies ts1[i] != ts1[j] by {
            if i < j {
            } else {
            }
        }
    }
    assert(ts2.no_duplicates()) by {
        assert forall|i: int, j: int|
            0 <= i < ts2.len() && 0 <= j < ts2.len() && i != j implies ts2[i] != ts2[j] by {
            if i < j {
            } else {
            }
        }
    }
    ts1.to_multiset_ensures();
    ts2.to_multiset_ensures();
    ts1.lemma_multiset_has_no_duplicates();
    ts2.lemma_multiset_has_no_duplicates();
    assert forall|t: (Node, Node, Node)|
        ts1.to_multiset().count(t) == ts2.to_multiset().count(t) by {
        if ts1.contains(t) {
            assert(ts2.contains(t));
            assert(ts1.to_multiset().count(t) > 0 && ts2.to_multiset().count(t) > 0);
            assert(ts1.to_multiset().contains(t) && ts2.to_multiset().contains(t));
        } else {
            assert(!ts2.contains(t));
            assert(ts1.to_multiset().count(t) == 0 && ts2.to_multiset().count(t) == 0);
        }
    }
    assert(ts1.to_multiset() =~= ts2.to_multiset());
    lemma_count_tris_perm(ts1, ts2, r, e, k);
}

/// Higher labels can only raise the counts.
proof fn lemma_count_ge_ti_mono(
    tixs: Seq<(usize, usize, usize)>,
    tls1: Seq<u64>,
    tls2: Seq<u64>,
    i: int,
    k: u64,
)
    requires
        tls1.len() == tixs.len(),
        tls2.len() == tixs.len(),
        forall|j: int| 0 <= j < tixs.len() ==> #[trigger] tls2[j] <= tls1[j],
    ensures
        count_ge_ti(tixs, tls2, i, k) <= count_ge_ti(tixs, tls1, i, k),
    decreases tixs.len(),
{
    if tixs.len() > 0 {
        assert(forall|j: int|
            0 <= j < tixs.len() - 1 ==> #[trigger] tls1.drop_last()[j] == tls1[j]
                && tls2.drop_last()[j] == tls2[j]);
        lemma_count_ge_ti_mono(tixs.drop_last(), tls1.drop_last(), tls2.drop_last(), i, k);
        assert(tls1.last() == tls1[tixs.len() - 1] && tls2.last() == tls2[tixs.len() - 1]);
    }
}

/// A well-formed levelling: every recorded edge is a forward edge, every
/// forward edge has exactly one level.
pub open spec fn levels_wf(es: Seq<(Edge, i64)>, r2: Seq<((Edge, u64), i64)>) -> bool {
    &&& forall|e: Edge, l: u64| #[trigger] has_val(r2, (e, l)) ==> fedge(es, e.0, e.1)
    &&& forall|e: Edge| fedge(es, e.0, e.1) ==> exists|l: u64| #[trigger] has_val(r2, (e, l))
    &&& forall|e: Edge, l1: u64, l2: u64|
        has_val(r2, (e, l1)) && has_val(r2, (e, l2)) ==> l1 == l2
}

/// Every forward edge is settled at its recorded level.
pub open spec fn all_settled(
    es: Seq<(Edge, i64)>,
    ts: Seq<(Node, Node, Node)>,
    r2: Seq<((Edge, u64), i64)>,
) -> bool {
    forall|e: Edge| #[trigger] fedge(es, e.0, e.1) ==> settled(ts, r2, e, level_of(r2, e))
}

/// The output dominates every settled levelling: it is the greatest
/// fixpoint of the settling rule, which peeling from above reaches.
pub open spec fn dominates_settled(es: Seq<(Edge, i64)>, r: Seq<((Edge, u64), i64)>) -> bool {
    forall|ts: Seq<(Node, Node, Node)>, r2: Seq<((Edge, u64), i64)>|
        #![trigger tri_list_ok(es, ts), levels_wf(es, r2)]
        tri_list_ok(es, ts) && levels_wf(es, r2) && all_settled(es, ts, r2) ==> forall|
            e: Edge,
            l: u64,
            l2: u64,
        |
            has_val(r, (e, l)) && has_val(r2, (e, l2)) ==> l2 <= l
}

/// The sum of all levels: the peeling potential.
spec fn sum_levels(ls: Seq<u64>) -> nat
    decreases ls.len(),
{
    if ls.len() == 0 {
        0
    } else {
        sum_levels(ls.drop_last()) + ls.last() as nat
    }
}

proof fn lemma_sum_le(ls1: Seq<u64>, ls2: Seq<u64>)
    requires
        ls1.len() == ls2.len(),
        forall|i: int| 0 <= i < ls1.len() ==> ls2[i] <= ls1[i],
    ensures
        sum_levels(ls2) <= sum_levels(ls1),
    decreases ls1.len(),
{
    if ls1.len() > 0 {
        assert(forall|i: int|
            0 <= i < ls1.len() - 1 ==> #[trigger] ls1.drop_last()[i] == ls1[i]
                && ls2.drop_last()[i] == ls2[i]);
        lemma_sum_le(ls1.drop_last(), ls2.drop_last());
        assert(ls1.last() == ls1[ls1.len() - 1] && ls2.last() == ls2[ls1.len() - 1]);
    }
}

proof fn lemma_sum_strict(ls1: Seq<u64>, ls2: Seq<u64>, i: int)
    requires
        ls1.len() == ls2.len(),
        forall|j: int| 0 <= j < ls1.len() ==> ls2[j] <= ls1[j],
        0 <= i < ls1.len(),
        ls2[i] < ls1[i],
    ensures
        sum_levels(ls2) < sum_levels(ls1),
    decreases ls1.len(),
{
    assert(forall|j: int|
        0 <= j < ls1.len() - 1 ==> #[trigger] ls1.drop_last()[j] == ls1[j]
            && ls2.drop_last()[j] == ls2[j]);
    assert(ls1.last() == ls1[ls1.len() - 1] && ls2.last() == ls2[ls1.len() - 1]);
    if i == ls1.len() - 1 {
        lemma_sum_le(ls1.drop_last(), ls2.drop_last());
    } else {
        lemma_sum_strict(ls1.drop_last(), ls2.drop_last(), i);
    }
}

/// Counts the triangles on edge `i`.
fn touched_exec(tix: &Vec<(usize, usize, usize)>, i: usize) -> (r: u64)
    ensures
        r as int == count_touched(tix@, i as int),
{
    let mut c: u64 = 0;
    let mut j: usize = 0;
    while j < tix.len()
        invariant
            j <= tix@.len(),
            c as int == count_touched(tix@.take(j as int), i as int),
            c <= j,
        decreases tix@.len() - j,
    {
        proof {
            assert(tix@.take(j + 1).drop_last() =~= tix@.take(j as int));
            assert(tix@.take(j + 1).last() == tix@[j as int]);
        }
        let (x, y, z) = tix[j];
        if x == i || y == i || z == i {
            c += 1;
        }
        j += 1;
    }
    proof {
        assert(tix@.take(tix@.len() as int) =~= tix@);
    }
    c
}

/// Counts the triangles on edge `i` whose label is at least `k`.
fn count_ge_exec(tix: &Vec<(usize, usize, usize)>, tls: &Vec<u64>, i: usize, k: u64) -> (r: u64)
    requires
        tls@.len() == tix@.len(),
    ensures
        r as int == count_ge_ti(tix@, tls@, i as int, k),
{
    let mut c: u64 = 0;
    let mut j: usize = 0;
    while j < tix.len()
        invariant
            j <= tix@.len(),
            tls@.len() == tix@.len(),
            c as int == count_ge_ti(tix@.take(j as int), tls@.take(j as int), i as int, k),
            c <= j,
        decreases tix@.len() - j,
    {
        proof {
            assert(tix@.take(j + 1).drop_last() =~= tix@.take(j as int));
            assert(tls@.take(j + 1).drop_last() =~= tls@.take(j as int));
            assert(tix@.take(j + 1).last() == tix@[j as int]);
            assert(tls@.take(j + 1).last() == tls@[j as int]);
        }
        let (x, y, z) = tix[j];
        if (x == i || y == i || z == i) && tls[j] >= k {
            c += 1;
        }
        j += 1;
    }
    proof {
        assert(tix@.take(tix@.len() as int) =~= tix@);
        assert(tls@.take(tls@.len() as int) =~= tls@);
    }
    c
}

/// Settles one edge: the largest `k` with at least `k` triangles of label
/// at least `k` on it.
fn settle_edge(tix: &Vec<(usize, usize, usize)>, tls: &Vec<u64>, i: usize) -> (r: u64)
    requires
        tls@.len() == tix@.len(),
    ensures
        count_ge_ti(tix@, tls@, i as int, r) >= r,
        forall|k: u64| k > r ==> count_ge_ti(tix@, tls@, i as int, k) < k,
{
    let start = touched_exec(tix, i);
    proof {
        assert forall|k2: u64| k2 > start implies count_ge_ti(tix@, tls@, i as int, k2)
            < k2 by {
            lemma_count_le_touched(tix@, tls@, i as int, k2);
        }
    }
    let mut k = start;
    loop
        invariant
            k <= start,
            tls@.len() == tix@.len(),
            start as int == count_touched(tix@, i as int),
            forall|k2: u64| k2 > k ==> count_ge_ti(tix@, tls@, i as int, k2) < k2,
        ensures
            count_ge_ti(tix@, tls@, i as int, k) >= k,
            forall|k2: u64| k2 > k ==> count_ge_ti(tix@, tls@, i as int, k2) < k2,
        decreases k,
    {
        let c = count_ge_exec(tix, tls, i, k);
        if c >= k {
            break;
        }
        proof {
            lemma_count_le_touched(tix@, tls@, i as int, 0);
        }
        k -= 1;
    }
    k
}

/// Minimum of three levels, executably.
fn min3_exec(a: u64, b: u64, c: u64) -> (r: u64)
    ensures
        r == min3(a, b, c),
{
    if a <= b && a <= c {
        a
    } else if b <= c {
        b
    } else {
        c
    }
}

/// K-truss decomposition: assigns every forward edge its truss level, the
/// fixpoint of the per-edge settling rule reached by peeling downward from
/// a maximal provisional level.
pub fn truss(edges: &Collection<Edge>) -> (r: Collection<(Edge, u64)>)
    requires
        is_set(edges@),
    ensures
        is_set(r@),
        forall|e: Edge, l: u64| has_val(r@, (e, l)) ==> fedge(edges@, e.0, e.1),
        forall|e: Edge|
            fedge(edges@, e.0, e.1) ==> exists|l: u64| #[trigger] has_val(r@, (e, l)),
        levels_wf(edges@, r@),
        truss_fixpoint(edges@, r@),
        dominates_settled(edges@, r@),
{
    let ghost es = edges@;

    // The forward edges, each once.
    let n = edges.len();
    let mut fv: Vec<Edge> = Vec::new();
    let mut i: usize = 0;
    while i < n
        invariant
            i <= n,
            n == es.len(),
            edges@ == es,
            is_set(es),
            forall|i2: int, j2: int| 0 <= i2 < j2 < fv@.len() ==> fv@[i2] != fv@[j2],
            forall|e: Edge|
                fv@.contains(e) <==> exists|j: int|
                    0 <= j < i && (#[trigger] es[j]).0 == e && e.0 < e.1,
        decreases n - i,
    {
        let (a, b) = edges.get(i).0;
        proof {
            assert(es[i as int].0 == (a, b));
        }
        let ghost fv0 = fv@;
        if a < b {
            fv.push((a, b));
            proof {
                assert(fv@ =~= fv0.push((a, b)));
                assert(fv@[fv@.len() - 1] == (a, b));
                assert forall|e: Edge| fv@.contains(e) implies fv0.contains(e) || e == (a, b) by {
                    let j = choose|j: int| 0 <= j < fv@.len() && fv@[j] == e;
                    if j < fv@.len() - 1 {
                        assert(fv0[j] == e);
                    }
                }
                assert forall|e: Edge| fv0.contains(e) implies fv@.contains(e) by {
                    let j = choose|j: int| 0 <= j < fv0.len() && fv0[j] == e;
                    assert(fv@[j] == e);
                }
                assert forall|i2: int, j2: int|
                    0 <= i2 < j2 < fv@.len() implies fv@[i2] != fv@[j2] by {
                    if j2 == fv@.len() - 1 {
                        if fv@[i2] == (a, b) {
                            assert(fv0.contains((a, b))) by {
                                assert(fv0[i2] == (a, b));
                            }
                            let j = choose|j: int|
                                0 <= j < i && (#[trigger] es[j]).0 == (a, b) && a < b;
                            assert(es[j].0 == es[i as int].0);
                            assert(false);
                        }
                    }
                }
            }
        }
        proof {
            assert forall|e: Edge|
                fv@.contains(e) <==> exists|j: int|
                    0 <= j < i + 1 && (#[trigger] es[j]).0 == e && e.0 < e.1 by {
                if fv@.contains(e) && !fv0.contains(e) {
                    assert((#[trigger] es[i as int]).0 == e && e.0 < e.1);
                }
                if fv0.contains(e) {
                    let j = choose|j: int| 0 <= j < i && (#[trigger] es[j]).0 == e && e.0 < e.1;
                    assert(0 <= j < i + 1 && (#[trigger] es[j]).0 == e && e.0 < e.1);
                }
                if exists|j: int| 0 <= j < i + 1 && (#[trigger] es[j]).0 == e && e.0 < e.1 {
                    let j = choose|j: int|
                        0 <= j < i + 1 && (#[trigger] es[j]).0 == e && e.0 < e.1;
                    if j == i {
                        assert(e == (a, b) && a < b);
                        assert(fv@.contains(e));
                    } else {
                        assert(fv0.contains(e));
                    }
                }
            }
        }
        i += 1;
    }
    proof {
        assert forall|e: Edge| fv@.contains(e) <==> fedge(es, e.0, e.1) by {
            if fv@.contains(e) {
                let j = choose|j: int| 0 <= j < n && (#[trigger] es[j]).0 == e && e.0 < e.1;
                assert(has_val(es, e));
            }
            if fedge(es, e.0, e.1) {
                let j = choose|j: int| 0 <= j < es.len() && (#[trigger] es[j]).0 == e;
                assert(e == (e.0, e.1));
            }
        }
    }
    let nf = fv.len();

    // Every triangle, each once, with its three edge positions resolved.
    let tris = triangles(edges);
    let nt = tris.len();
    let mut tv: Vec<(Node, Node, Node)> = Vec::new();
    let mut tix: Vec<(usize, usize, usize)> = Vec::new();
    let mut j: usize = 0;
    while j < nt
        invariant
            j <= nt,
            nt == tris@.len(),
            is_set(tris@),
            forall|a: Node, b: Node, c: Node|
                has_val(tris@, (a, b, c)) <==> fedge(es, a, b) && fedge(es, a, c) && fedge(
                    es,
                    b,
                    c,
                ),
            nf == fv@.len(),
            forall|i2: int, j2: int| 0 <= i2 < j2 < fv@.len() ==> fv@[i2] != fv@[j2],
            forall|e: Edge| fv@.contains(e) <==> fedge(es, e.0, e.1),
            tv@.len() == j,
            tix@.len() == j,
            forall|j2: int| 0 <= j2 < j ==> tv@[j2] == (#[trigger] tris@[j2]).0,
            forall|j2: int|
                0 <= j2 < j ==> (#[trigger] tix@[j2]).0 < nf && tix@[j2].1 < nf && tix@[j2].2 < nf
                    && fv@[tix@[j2].0 as int] == (tv@[j2].0, tv@[j2].1) && fv@[tix@[j2].1 as int]
                    == (tv@[j2].0, tv@[j2].2) && fv@[tix@[j2].2 as int] == (tv@[j2].1, tv@[j2].2),
        decreases nt - j,
    {
        let (a, b, c) = tris.get(j).0;
        proof {
            assert(tris@[j as int].0 == (a, b, c));
            assert(has_val(tris@, (a, b, c))) by {
                assert(tris@[j as int].0 == (a, b, c));
            }
            assert(fv@.contains((a, b)) && fv@.contains((a, c)) && fv@.contains((b, c)));
        }
        let i1 = find_edge_index(&fv, (a, b));
        let i2 = find_edge_index(&fv, (a, c));
        let i3 = find_edge_index(&fv, (b, c));
        tv.push((a, b, c));
        tix.push((i1, i2, i3));
        j += 1;
    }

    proof {
        // The enumeration is faithful, and the index triples mirror
        // triangle membership.
        assert forall|i2: int, j3: int| 0 <= i2 < j3 < tv@.len() implies tv@[i2] != tv@[j3] by {
            assert(tris@[i2].0 == tv@[i2] && tris@[j3].0 == tv@[j3]);
            assert(tris@[i2].0 != tris@[j3].0);
        }
        assert forall|t: (Node, Node, Node)| tv@.contains(t) <==> is_tri(es, t) by {
            if tv@.contains(t) {
                let j3 = choose|j3: int| 0 <= j3 < tv@.len() && tv@[j3] == t;
                assert(has_val(tris@, t)) by {
                    assert(tris@[j3].0 == t);
                }
            }
            if is_tri(es, t) {
                assert(has_val(tris@, (t.0, t.1, t.2)));
                let j3 = choose|j3: int|
                    0 <= j3 < tris@.len() && (#[trigger] tris@[j3]).0 == (t.0, t.1, t.2);
                assert(tv@[j3] == t);
                assert(tv@.contains(t)) by {
                    assert(tv@[j3] == t);
                }
            }
        }
        assert(tri_list_ok(es, tv@));
        assert forall|j3: int, i5: int|
            0 <= j3 < nt && 0 <= i5 < nf implies (touches(#[trigger] tv@[j3], #[trigger] fv@[i5])
            <==> ti_touch(tix@[j3], i5)) by {
            let t = tv@[j3];
            if ti_touch(tix@[j3], i5) {
                if tix@[j3].0 == i5 {
                    assert(fv@[i5] == (t.0, t.1));
                } else if tix@[j3].1 == i5 {
                    assert(fv@[i5] == (t.0, t.2));
                } else {
                    assert(fv@[i5] == (t.1, t.2));
                }
            }
            if touches(t, fv@[i5]) {
                if fv@[i5] == (t.0, t.1) {
                    assert(fv@[tix@[j3].0 as int] == fv@[i5]);
                    if tix@[j3].0 != i5 {
                        assert(false);
                    }
                } else if fv@[i5] == (t.0, t.2) {
                    assert(fv@[tix@[j3].1 as int] == fv@[i5]);
                    if tix@[j3].1 != i5 {
                        assert(false);
                    }
                } else {
                    assert(fv@[tix@[j3].2 as int] == fv@[i5]);
                    if tix@[j3].2 != i5 {
                        assert(false);
                    }
                }
            }
        }
    }

    // Peel: recompute triangle labels and edge levels until stable.
    let mut levels: Vec<u64> = Vec::new();
    let mut i3: usize = 0;
    while i3 < nf
        invariant
            i3 <= nf,
            levels@.len() == i3,
            forall|j2: int| 0 <= j2 < i3 ==> levels@[j2] == u64::MAX,
        decreases nf - i3,
    {
        levels.push(u64::MAX);
        i3 += 1;
    }
    let mut tlabels: Vec<u64> = Vec::new();
    let mut changed = true;

    while changed
        invariant
            nf == fv@.len(),
            nt == tv@.len(),
            tix@.len() == nt,
            forall|j2: int|
                0 <= j2 < nt ==> (#[trigger] tix@[j2]).0 < nf && tix@[j2].1 < nf && tix@[j2].2 < nf
                    && fv@[tix@[j2].0 as int] == (tv@[j2].0, tv@[j2].1) && fv@[tix@[j2].1 as int]
                    == (tv@[j2].0, tv@[j2].2) && fv@[tix@[j2].2 as int] == (tv@[j2].1, tv@[j2].2),
            forall|i2: int, j2: int| 0 <= i2 < j2 < fv@.len() ==> fv@[i2] != fv@[j2],
            forall|e: Edge| fv@.contains(e) <==> fedge(es, e.0, e.1),
            tri_list_ok(es, tv@),
            forall|j3: int, i5: int|
                0 <= j3 < nt && 0 <= i5 < nf ==> (touches(#[trigger] tv@[j3], #[trigger] fv@[i5])
                    <==> ti_touch(tix@[j3], i5)),
            forall|ts2: Seq<(Node, Node, Node)>, r2: Seq<((Edge, u64), i64)>|
                #![trigger tri_list_ok(es, ts2), levels_wf(es, r2)]
                tri_list_ok(es, ts2) && levels_wf(es, r2) && all_settled(es, ts2, r2) ==> forall|
                    i5: int,
                |
                    0 <= i5 < nf ==> level_of(r2, #[trigger] fv@[i5]) <= levels@[i5],
            levels@.len() == nf,
            !changed ==> tlabels@.len() == nt,
            !changed ==> forall|j2: int|
                0 <= j2 < nt ==> #[trigger] tlabels@[j2] == min3(
                    levels@[tix@[j2].0 as int],
                    levels@[tix@[j2].1 as int],
                    levels@[tix@[j2].2 as int],
                ),
            !changed ==> forall|i2: int|
                0 <= i2 < nf ==> count_ge_ti(tix@, tlabels@, i2, #[trigger] levels@[i2])
                    >= levels@[i2],
            !changed ==> forall|i2: int, k: u64|
                0 <= i2 < nf && k > levels@[i2] ==> count_ge_ti(tix@, tlabels@, i2, k) < k,
        decreases sum_levels(levels@), (if changed { 1int } else { 0int }),
    {
        let ghost ls0 = levels@;

        // Label each triangle with the least level among its edges.
        let mut tl2: Vec<u64> = Vec::new();
        let mut j2: usize = 0;
        while j2 < nt
            invariant
                j2 <= nt,
                nt == tv@.len(),
                tix@.len() == nt,
                levels@.len() == nf,
                forall|j3: int|
                    0 <= j3 < nt ==> (#[trigger] tix@[j3]).0 < nf && tix@[j3].1 < nf
                        && tix@[j3].2 < nf,
                tl2@.len() == j2,
                forall|j3: int|
                    0 <= j3 < j2 ==> #[trigger] tl2@[j3] == min3(
                        levels@[tix@[j3].0 as int],
                        levels@[tix@[j3].1 as int],
                        levels@[tix@[j3].2 as int],
                    ),
            decreases nt - j2,
        {
            let (x, y, z) = tix[j2];
            let m = min3_exec(levels[x], levels[y], levels[z]);
            tl2.push(m);
            j2 += 1;
        }
        tlabels = tl2;

        // Settle each edge against the fresh labels.
        let mut nl: Vec<u64> = Vec::new();
        let mut did = false;
        let mut i4: usize = 0;
        while i4 < nf
            invariant
                i4 <= nf,
                nf == fv@.len(),
                nt == tv@.len(),
                tix@.len() == nt,
                tlabels@.len() == nt,
                levels@.len() == nf,
                levels@ == ls0,
                forall|j3: int|
                    0 <= j3 < nt ==> (#[trigger] tix@[j3]).0 < nf && tix@[j3].1 < nf
                        && tix@[j3].2 < nf && fv@[tix@[j3].0 as int] == (tv@[j3].0, tv@[j3].1)
                        && fv@[tix@[j3].1 as int] == (tv@[j3].0, tv@[j3].2)
                        && fv@[tix@[j3].2 as int] == (tv@[j3].1, tv@[j3].2),
                forall|e: Edge| fv@.contains(e) <==> fedge(es, e.0, e.1),
                tri_list_ok(es, tv@),
                forall|j3: int, i5: int|
                    0 <= j3 < nt && 0 <= i5 < nf ==> (touches(
                        #[trigger] tv@[j3],
                        #[trigger] fv@[i5],
                    ) <==> ti_touch(tix@[j3], i5)),
                forall|ts2: Seq<(Node, Node, Node)>, r2: Seq<((Edge, u64), i64)>|
                    #![trigger tri_list_ok(es, ts2), levels_wf(es, r2)]
                    tri_list_ok(es, ts2) && levels_wf(es, r2) && all_settled(es, ts2, r2)
                        ==> forall|i5: int|
                        0 <= i5 < nf ==> level_of(r2, #[trigger] fv@[i5]) <= levels@[i5],
                forall|ts2: Seq<(Node, Node, Node)>, r2: Seq<((Edge, u64), i64)>|
                    #![trigger tri_list_ok(es, ts2), levels_wf(es, r2)]
                    tri_list_ok(es, ts2) && levels_wf(es, r2) && all_settled(es, ts2, r2)
                        ==> forall|i5: int|
                        0 <= i5 < i4 ==> level_of(r2, #[trigger] fv@[i5]) <= nl@[i5],
                forall|j3: int|
                    0 <= j3 < nt ==> #[trigger] tlabels@[j3] == min3(
                        levels@[tix@[j3].0 as int],
                        levels@[tix@[j3].1 as int],
                        levels@[tix@[j3].2 as int],
                    ),
                nl@.len() == i4,
                forall|i5: int| 0 <= i5 < i4 ==> #[trigger] nl@[i5] <= ls0[i5],
                forall|i5: int|
                    0 <= i5 < i4 ==> count_ge_ti(tix@, tlabels@, i5, #[trigger] nl@[i5])
                        >= nl@[i5],
                forall|i5: int, k: u64|
                    0 <= i5 < i4 && k > nl@[i5] ==> count_ge_ti(tix@, tlabels@, i5, k) < k,
                !did ==> nl@ =~= ls0.take(i4 as int),
                did ==> exists|i5: int| 0 <= i5 < i4 && #[trigger] nl@[i5] < ls0[i5],
            decreases nf - i4,
        {
            let v = settle_edge(&tix, &tlabels, i4);
            proof {
                // a triangle on this edge is labelled no higher than the
                // edge's own level, so the settled value cannot rise.
                assert forall|j3: int|
                    0 <= j3 < nt && ti_touch(#[trigger] tix@[j3], i4 as int) implies tlabels@[j3]
                    <= levels@[i4 as int] by {
                    assert(tlabels@[j3] == min3(
                        levels@[tix@[j3].0 as int],
                        levels@[tix@[j3].1 as int],
                        levels@[tix@[j3].2 as int],
                    ));
                }
                if v > levels@[i4 as int] {
                    lemma_count_zero_above(tix@, tlabels@, i4 as int, levels@[i4 as int], v);
                    assert(false);
                }
            }
            proof {
                // any settled levelling sits at or below the fresh value:
                // its triangle labels sit below ours, so its count at its
                // own level carries over, and the settled value caps it.
                assert forall|ts2: Seq<(Node, Node, Node)>, r2: Seq<((Edge, u64), i64)>|
                    #![trigger tri_list_ok(es, ts2), levels_wf(es, r2)]
                    tri_list_ok(es, ts2) && levels_wf(es, r2) && all_settled(
                        es,
                        ts2,
                        r2,
                    ) implies level_of(r2, fv@[i4 as int]) <= v by {
                    let e = fv@[i4 as int];
                    assert(fv@.contains(e)) by {
                        assert(fv@[i4 as int] == e);
                    }
                    assert(fedge(es, e.0, e.1));
                    let phi = level_of(r2, e);
                    assert(settled(ts2, r2, e, phi));
                    let tlp = Seq::new(nt as nat, |j3: int| tri_label(r2, tv@[j3]));
                    assert forall|j3: int| 0 <= j3 < nt implies #[trigger] tlp[j3]
                        <= tlabels@[j3] by {
                        let t = tv@[j3];
                        assert(tlp[j3] == tri_label(r2, t));
                        assert(fv@[tix@[j3].0 as int] == (t.0, t.1));
                        assert(fv@[tix@[j3].1 as int] == (t.0, t.2));
                        assert(fv@[tix@[j3].2 as int] == (t.1, t.2));
                        assert(level_of(r2, fv@[tix@[j3].0 as int]) <= levels@[tix@[j3].0 as int]);
                        assert(level_of(r2, fv@[tix@[j3].1 as int]) <= levels@[tix@[j3].1 as int]);
                        assert(level_of(r2, fv@[tix@[j3].2 as int]) <= levels@[tix@[j3].2 as int]);
                        lemma_min3_mono(
                            levels@[tix@[j3].0 as int],
                            levels@[tix@[j3].1 as int],
                            levels@[tix@[j3].2 as int],
                            level_of(r2, (t.0, t.1)),
                            level_of(r2, (t.0, t.2)),
                            level_of(r2, (t.1, t.2)),
                        );
                    }
                    lemma_faithful_same_counts(es, ts2, tv@, r2, e, phi);
                    assert forall|j3: int|
                        0 <= j3 < tv@.len() implies (touches(#[trigger] tv@[j3], e) <==> ti_touch(
                        tix@[j3],
                        i4 as int,
                    )) by {
                        assert(touches(tv@[j3], fv@[i4 as int]) <==> ti_touch(tix@[j3], i4 as int));
                    }
                    lemma_count_bridge(tv@, tix@, tlp, r2, e, i4 as int, phi);
                    lemma_count_ge_ti_mono(tix@, tlabels@, tlp, i4 as int, phi);
                    assert(count_ge_ti(tix@, tlabels@, i4 as int, phi) >= phi);
                    if phi > v {
                        assert(count_ge_ti(tix@, tlabels@, i4 as int, phi) < phi);
                        assert(false);
                    }
                }
            }
            let old_v = levels[i4];
            let ghost nl0 = nl@;
            nl.push(v);
            proof {
                assert(nl@.last() == v);
                assert(forall|i5: int| 0 <= i5 < nl0.len() ==> nl0[i5] == #[trigger] nl@[i5]);
                if did {
                    let i5 = choose|i5: int| 0 <= i5 < i4 && #[trigger] nl0[i5] < ls0[i5];
                    assert(nl@[i5] < ls0[i5]);
                }
                if !did && v == old_v {
                    assert(nl@ =~= ls0.take(i4 + 1));
                }
                if v != old_v {
                    assert(v <= old_v);
                    assert(nl@[i4 as int] < ls0[i4 as int]);
                }
                assert forall|ts2: Seq<(Node, Node, Node)>, r2: Seq<((Edge, u64), i64)>|
                    #![trigger tri_list_ok(es, ts2), levels_wf(es, r2)]
                    tri_list_ok(es, ts2) && levels_wf(es, r2) && all_settled(
                        es,
                        ts2,
                        r2,
                    ) implies forall|i5: int|
                    0 <= i5 < i4 + 1 ==> level_of(r2, #[trigger] fv@[i5]) <= nl@[i5] by {
                    assert forall|i5: int|
                        0 <= i5 < i4 + 1 implies level_of(r2, #[trigger] fv@[i5]) <= nl@[i5] by {
                        if i5 < i4 {
                            assert(level_of(r2, fv@[i5]) <= nl0[i5]);
                        } else {
                            assert(level_of(r2, fv@[i4 as int]) <= v);
                            assert(nl@[i4 as int] == v);
                        }
                    }
                }
            }
            if v != old_v {
                did = true;
            }
            i4 += 1;
        }
        proof {
            if did {
                let i5 = choose|i5: int| 0 <= i5 < nf && #[trigger] nl@[i5] < ls0[i5];
                lemma_sum_strict(ls0, nl@, i5);
            } else {
                assert(nl@ =~= ls0.take(nf as int));
                assert(ls0.take(nf as int) =~= ls0);
            }
        }
        levels = nl;
        changed = did;
    }

    // Emit one record per forward edge.
    let mut out: Collection<(Edge, u64)> = Collection::empty();
    let mut i6: usize = 0;
    while i6 < nf
        invariant
            i6 <= nf,
            nf == fv@.len(),
            levels@.len() == nf,
            out@.len() == i6,
            forall|j3: int| 0 <= j3 < i6 ==> (#[trigger] out@[j3]) == ((fv@[j3], levels@[j3]), 1i64),
        decreases nf - i6,
    {
        let ghost out0 = out@;
        out.push((fv[i6], levels[i6]), 1i64);
        proof {
            assert(out@ =~= out0.push(((fv@[i6 as int], levels@[i6 as int]), 1i64)));
        }
        i6 += 1;
    }

    proof {
        // One record per edge; levels read back uniquely.
        assert forall|a2: int, b2: int| 0 <= a2 < b2 < out@.len() implies out@[a2].0 != out@[b2].0 by {
            assert(fv@[a2] != fv@[b2]);
        }
        assert(is_set(out@));
        assert forall|e: Edge, l: u64| has_val(out@, (e, l)) implies fedge(es, e.0, e.1) by {
            let j3 = choose|j3: int| 0 <= j3 < out@.len() && (#[trigger] out@[j3]).0 == (e, l);
            assert(fv@.contains(e)) by {
                assert(fv@[j3] == e);
            }
        }
        assert forall|e: Edge|
            fedge(es, e.0, e.1) implies exists|l: u64| #[trigger] has_val(out@, (e, l)) by {
            assert(fv@.contains(e));
            let j3 = choose|j3: int| 0 <= j3 < fv@.len() && fv@[j3] == e;
            assert(has_val(out@, (e, levels@[j3]))) by {
                assert(out@[j3].0 == (e, levels@[j3]));
            }
        }
        assert forall|i5: int|
            0 <= i5 < nf implies level_of(out@, #[trigger] fv@[i5]) == levels@[i5] by {
            assert(has_val(out@, (fv@[i5], levels@[i5]))) by {
                assert(out@[i5].0 == (fv@[i5], levels@[i5]));
            }
            let l = level_of(out@, fv@[i5]);
            assert(has_val(out@, (fv@[i5], l)));
            let j3 = choose|j3: int| 0 <= j3 < out@.len() && (#[trigger] out@[j3]).0 == (fv@[i5], l);
            if j3 != i5 {
                assert(fv@[j3] == fv@[i5]);
                assert(false);
            }
        }

        // The exec labels are the triangles' labels under the output.
        assert forall|j3: int|
            0 <= j3 < nt implies tri_label(out@, #[trigger] tv@[j3]) == tlabels@[j3] by {
            let t = tv@[j3];
            assert(fv@[tix@[j3].0 as int] == (t.0, t.1));
            assert(fv@[tix@[j3].1 as int] == (t.0, t.2));
            assert(fv@[tix@[j3].2 as int] == (t.1, t.2));
            assert(level_of(out@, fv@[tix@[j3].0 as int]) == levels@[tix@[j3].0 as int]);
            assert(level_of(out@, fv@[tix@[j3].1 as int]) == levels@[tix@[j3].1 as int]);
            assert(level_of(out@, fv@[tix@[j3].2 as int]) == levels@[tix@[j3].2 as int]);
        }

        // Triangle membership mirrors the index triples.
        assert forall|j3: int, i5: int|
            0 <= j3 < nt && 0 <= i5 < nf implies (touches(#[trigger] tv@[j3], #[trigger] fv@[i5])
            <==> ti_touch(tix@[j3], i5)) by {
            let t = tv@[j3];
            if ti_touch(tix@[j3], i5) {
                if tix@[j3].0 == i5 {
                    assert(fv@[i5] == (t.0, t.1));
                } else if tix@[j3].1 == i5 {
                    assert(fv@[i5] == (t.0, t.2));
                } else {
                    assert(fv@[i5] == (t.1, t.2));
                }
            }
            if touches(t, fv@[i5]) {
                if fv@[i5] == (t.0, t.1) {
                    assert(fv@[tix@[j3].0 as int] == fv@[i5]);
                    if tix@[j3].0 != i5 {
                        assert(false);
                    }
                } else if fv@[i5] == (t.0, t.2) {
                    assert(fv@[tix@[j3].1 as int] == fv@[i5]);
                    if tix@[j3].1 != i5 {
                        assert(false);
                    }
                } else {
                    assert(fv@[tix@[j3].2 as int] == fv@[i5]);
                    if tix@[j3].2 != i5 {
                        assert(false);
                    }
                }
            }
        }

        // The triangle list is faithful.
        assert forall|i2: int, j3: int| 0 <= i2 < j3 < tv@.len() implies tv@[i2] != tv@[j3] by {
            assert(tris@[i2].0 == tv@[i2] && tris@[j3].0 == tv@[j3]);
            assert(tris@[i2].0 != tris@[j3].0);
        }
        assert forall|t: (Node, Node, Node)| tv@.contains(t) <==> is_tri(es, t) by {
            if tv@.contains(t) {
                let j3 = choose|j3: int| 0 <= j3 < tv@.len() && tv@[j3] == t;
                assert(has_val(tris@, t)) by {
                    assert(tris@[j3].0 == t);
                }
            }
            if is_tri(es, t) {
                assert(has_val(tris@, (t.0, t.1, t.2)));
                let j3 = choose|j3: int| 0 <= j3 < tris@.len() && (#[trigger] tris@[j3]).0 == (t.0, t.1, t.2);
                assert(tv@[j3] == t);
                assert(tv@.contains(t)) by {
                    assert(tv@[j3] == t);
                }
            }
        }
        assert(tri_list_ok(es, tv@));

        // And every recorded level satisfies the settling rule on it.
        assert forall|i5: int|
            0 <= i5 < out@.len() implies settled(tv@, out@, (#[trigger] out@[i5]).0.0, out@[i5].0.1) by {
            assert(out@[i5].0.0 == fv@[i5] && out@[i5].0.1 == levels@[i5]);
            assert(count_ge_ti(tix@, tlabels@, i5, levels@[i5]) >= levels@[i5]);
            lemma_count_bridge(tv@, tix@, tlabels@, out@, fv@[i5], i5, levels@[i5]);
            assert forall|k: u64| k > out@[i5].0.1 implies count_tris_ge(tv@, out@, fv@[i5], k)
                < k by {
                assert(count_ge_ti(tix@, tlabels@, i5, k) < k);
                lemma_count_bridge(tv@, tix@, tlabels@, out@, fv@[i5], i5, k);
            }
        }
        assert(truss_fixpoint(es, out@));

        // Each edge carries one level, and that level dominates every
        // settled levelling: the greatest fixpoint.
        assert forall|e: Edge, l1: u64, l2: u64|
            has_val(out@, (e, l1)) && has_val(out@, (e, l2)) implies l1 == l2 by {
            let j3 = choose|j3: int| 0 <= j3 < out@.len() && (#[trigger] out@[j3]).0 == (e, l1);
            let j4 = choose|j4: int| 0 <= j4 < out@.len() && (#[trigger] out@[j4]).0 == (e, l2);
            if j3 != j4 {
                assert(fv@[j3] == e && fv@[j4] == e);
                assert(false);
            }
        }
        assert(levels_wf(es, out@));
        assert forall|ts2: Seq<(Node, Node, Node)>, r2: Seq<((Edge, u64), i64)>|
            #![trigger tri_list_ok(es, ts2), levels_wf(es, r2)]
            tri_list_ok(es, ts2) && levels_wf(es, r2) && all_settled(es, ts2, r2) implies forall|
                e: Edge,
                l: u64,
                l2: u64,
            |
                has_val(out@, (e, l)) && has_val(r2, (e, l2)) ==> l2 <= l by {
            assert forall|e: Edge, l: u64, l2: u64|
                has_val(out@, (e, l)) && has_val(r2, (e, l2)) implies l2 <= l by {
                let j3 = choose|j3: int|
                    0 <= j3 < out@.len() && (#[trigger] out@[j3]).0 == (e, l);
                assert(e == fv@[j3] && l == levels@[j3]);
                assert(level_of(r2, fv@[j3]) <= levels@[j3]);
                let lr = level_of(r2, e);
                assert(has_val(r2, (e, lr))) by {
                    assert(has_val(r2, (e, l2)));
                    assert(exists|l3: u64| has_val(r2, (e, l3)));
                }
                assert(lr == l2);
            }
        }
        assert(dominates_settled(es, out@));
    }
    out
}

/// Any two levellings that the contract admits agree on every edge: the
/// settling rule has one greatest fixpoint, so re-running the
/// decomposition on an unchanged input reproduces its levels exactly.
pub proof fn lemma_truss_levels_unique(
    es: Seq<(Edge, i64)>,
    r1: Seq<((Edge, u64), i64)>,
    r2: Seq<((Edge, u64), i64)>,
)
    requires
        levels_wf(es, r1),
        truss_fixpoint(es, r1),
        dominates_settled(es, r1),
        levels_wf(es, r2),
        truss_fixpoint(es, r2),
        dominates_settled(es, r2),
    ensures
        forall|e: Edge, l1: u64, l2: u64|
            has_val(r1, (e, l1)) && has_val(r2, (e, l2)) ==> l1 == l2,
{
    assert forall|e: Edge, l1: u64, l2: u64|
        has_val(r1, (e, l1)) && has_val(r2, (e, l2)) implies l1 == l2 by {
        let ts1 = choose|ts: Seq<(Node, Node, Node)>|
            #[trigger] tri_list_ok(es, ts) && forall|i: int|
                0 <= i < r1.len() ==> settled(ts, r1, (#[trigger] r1[i]).0.0, r1[i].0.1);
        let ts2 = choose|ts: Seq<(Node, Node, Node)>|
            #[trigger] tri_list_ok(es, ts) && forall|i: int|
                0 <= i < r2.len() ==> settled(ts, r2, (#[trigger] r2[i]).0.0, r2[i].0.1);
        lemma_all_settled_from_fixpoint(es, ts1, r1);
        lemma_all_settled_from_fixpoint(es, ts2, r2);
        assert(l2 <= l1);
        assert(l1 <= l2);
    }
}

/// A well-formed fixpoint is settled at every forward edge.
proof fn lemma_all_settled_from_fixpoint(
    es: Seq<(Edge, i64)>,
    ts: Seq<(Node, Node, Node)>,
    r: Seq<((Edge, u64), i64)>,
)
    requires
        levels_wf(es, r),
        tri_list_ok(es, ts),
        forall|i: int| 0 <= i < r.len() ==> settled(ts, r, (#[trigger] r[i]).0.0, r[i].0.1),
    ensures
        all_settled(es, ts, r),
{
    assert forall|e: Edge|
        #[trigger] fedge(es, e.0, e.1) implies settled(ts, r, e, level_of(r, e)) by {
        let l = choose|l: u64| #[trigger] has_val(r, (e, l));
        let i = choose|i: int| 0 <= i < r.len() && (#[trigger] r[i]).0 == (e, l);
        assert(settled(ts, r, e, l));
        let lr = level_of(r, e);
        assert(has_val(r, (e, lr))) by {
            assert(exists|l3: u64| has_val(r, (e, l3)));
        }
        assert(lr == l);
    }
}

/// Finds the position of `e` in the distinct edge list.
fn find_edge_index(fv: &Vec<Edge>, e: Edge) -> (r: usize)
    requires
        fv@.contains(e),
        forall|i: int, j: int| 0 <= i < j < fv@.len() ==> fv@[i] != fv@[j],
    ensures
        r < fv@.len(),
        fv@[r as int] == e,
{
    let mut i: usize = 0;
    while i < fv.len()
        invariant
            i <= fv@.len(),
            fv@.contains(e),
            forall|j: int| 0 <= j < i ==> fv@[j] != e,
        decreases fv@.len() - i,
    {
        if fv[i].same(&e) {
            proof {
                assert(fv@[i as int] == e);
            }
            return i;
        }
        i += 1;
    }
    proof {
        let j = choose|j: int| 0 <= j < fv@.len() && fv@[j] == e;
        assert(false);
    }
    0
}

} // verus!
