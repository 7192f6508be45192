//! Breadth-first distances. A forward frontier grows one hop per round
//! from the root set; a node enters the result the first round it is
//! reached, so its recorded hop count is its exact directed distance.

use vstd::prelude::*;
use crate::collection::Collection;
use crate::diff::{has_val, is_set, vals_of};
use crate::reach::{dreach, dist_is, lemma_dist_pred, lemma_dist_unique, lemma_dist_exists,
    lemma_dist_descend};
use crate::{Node, Edge, Iter};

verus! {

/// Whether the distance list records node `w` (at any distance).
pub open spec fn covers(vs: Seq<(Node, Iter)>, w: Node) -> bool {
    exists|i: int| 0 <= i < vs.len() && vs[i].0 == w
}

/// Membership scan for a node list.
pub(crate) fn vec_has_node(xs: &Vec<Node>, v: Node) -> (r: bool)
    ensures
        r == xs@.contains(v),
{
    let mut i: usize = 0;
    while i < xs.len()
        invariant
            i <= xs@.len(),
            forall|j: int| 0 <= j < i ==> xs@[j] != v,
        decreases xs@.len() - i,
    {
        if xs[i] == v {
            assert(xs@[i as int] == v);
            return true;
        }
        i += 1;
    }
    false
}

/// Membership scan for the node coordinate of a distance list.
pub(crate) fn dist_covers(vs: &Vec<(Node, Iter)>, w: Node) -> (r: bool)
    ensures
        r == covers(vs@, w),
{
    let mut i: usize = 0;
    while i < vs.len()
        invariant
            i <= vs@.len(),
            forall|j: int| 0 <= j < i ==> (#[trigger] vs@[j]).0 != w,
        decreases vs@.len() - i,
    {
        if vs[i].0 == w {
            assert(vs@[i as int].0 == w);
            return true;
        }
        i += 1;
    }
    false
}

/// Looks the node up in a distance list.
pub(crate) fn dist_lookup(vs: &Vec<(Node, Iter)>, w: Node) -> (r: Option<Iter>)
    requires
        forall|i: int, j: int| 0 <= i < j < vs@.len() ==> (#[trigger] vs@[i]).0 != (#[trigger] vs@[j]).0,
    ensures
        match r {
            Some(d) => vs@.contains((w, d)),
            None => !covers(vs@, w),
        },
{
    let mut i: usize = 0;
    while i < vs.len()
        invariant
            i <= vs@.len(),
            forall|j: int| 0 <= j < i ==> (#[trigger] vs@[j]).0 != w,
        decreases vs@.len() - i,
    {
        if vs[i].0 == w {
            assert(vs@[i as int] == (w, vs@[i as int].1));
            return Some(vs[i].1);
        }
        i += 1;
    }
    None
}

/// Appends `w` unless already present, keeping the list distinct.
pub(crate) fn push_if_new(xs: &mut Vec<Node>, w: Node)
    requires
        forall|i: int, j: int| 0 <= i < j < old(xs)@.len() ==> old(xs)@[i] != old(xs)@[j],
    ensures
        forall|i: int, j: int| 0 <= i < j < final(xs)@.len() ==> final(xs)@[i] != final(xs)@[j],
        forall|v: Node| final(xs)@.contains(v) <==> old(xs)@.contains(v) || v == w,
        final(xs)@.len() <= old(xs)@.len() + 1,
{
    if !vec_has_node(xs, w) {
        let ghost xs0 = xs@;
        xs.push(w);
        proof {
            assert(xs@ =~= xs0.push(w));
            assert(xs@[xs@.len() - 1] == w);
            assert forall|v: Node| xs@.contains(v) <==> xs0.contains(v) || v == w by {
                if xs@.contains(v) {
                    let j = choose|j: int| 0 <= j < xs@.len() && xs@[j] == v;
                    if j < xs@.len() - 1 {
                        assert(xs0[j] == v);
                    }
                }
                if xs0.contains(v) {
                    let j = choose|j: int| 0 <= j < xs0.len() && xs0[j] == v;
                    assert(xs@[j] == v);
                }
                if v == w {
                    assert(xs@[xs@.len() - 1] == v);
                }
            }
            assert forall|i: int, j: int|
                0 <= i < j < xs@.len() implies xs@[i] != xs@[j] by {
                if j == xs@.len() - 1 {
                    assert(!xs0.contains(w));
                    if xs@[i] == w {
                        assert(xs0[i] == w);
                        assert(xs0.contains(w));
                    }
                }
            }
        }
    }
}

/// Breadth-first search over the recorded edge values from the recorded
/// root values: returns one `(node, hops)` entry for every reachable node,
/// with its exact directed distance from the root set.
#[verifier::loop_isolation(false)]
pub(crate) fn bfs_core(ev: &Vec<Edge>, rv: &Vec<Node>, Ghost(es): Ghost<Seq<(Edge, i64)>>) -> (r: Vec<
    (Node, Iter),
>)
    requires
        ev@.len() == es.len(),
        forall|k: int| 0 <= k < es.len() ==> ev@[k] == (#[trigger] es[k]).0,
        forall|i: int, j: int| 0 <= i < j < rv@.len() ==> rv@[i] != rv@[j],
    ensures
        forall|i: int, j: int| 0 <= i < j < r@.len() ==> (#[trigger] r@[i]).0 != (#[trigger] r@[j]).0,
        forall|v: Node, dd: Iter| r@.contains((v, dd)) <==> dist_is(es, rv@, v, dd as nat),
        forall|v: Node| covers(r@, v) <==> exists|e: nat| dist_is(es, rv@, v, e),
{
    let ghost rs = rv@;

    // The node universe: roots and edge endpoints, deduplicated.
    let mut uv: Vec<Node> = Vec::new();
    let mut i: usize = 0;
    while i < rv.len()
        invariant
            i <= rv@.len(),
            forall|i2: int, j2: int| 0 <= i2 < j2 < uv@.len() ==> uv@[i2] != uv@[j2],
            forall|j: int| 0 <= j < i ==> uv@.contains(#[trigger] rv@[j]),
        decreases rv@.len() - i,
    {
        push_if_new(&mut uv, rv[i]);
        i += 1;
    }
    let mut k: usize = 0;
    while k < ev.len()
        invariant
            k <= ev@.len(),
            forall|i2: int, j2: int| 0 <= i2 < j2 < uv@.len() ==> uv@[i2] != uv@[j2],
            forall|j: int| 0 <= j < rv@.len() ==> uv@.contains(#[trigger] rv@[j]),
            forall|j: int| 0 <= j < k ==> uv@.contains((#[trigger] ev@[j]).0) && uv@.contains(
                ev@[j].1,
            ),
        decreases ev@.len() - k,
    {
        let (a, b) = ev[k];
        push_if_new(&mut uv, a);
        push_if_new(&mut uv, b);
        k += 1;
    }

    // Roots sit at distance zero.
    let mut visited: Vec<(Node, Iter)> = Vec::new();
    let mut frontier: Vec<Node> = Vec::new();
    let mut i3: usize = 0;
    while i3 < rv.len()
        invariant
            i3 <= rv@.len(),
            visited@.len() == i3,
            frontier@.len() == i3,
            forall|j: int| 0 <= j < i3 ==> visited@[j] == (rv@[j], 0u64),
            forall|j: int| 0 <= j < i3 ==> frontier@[j] == rv@[j],
        decreases rv@.len() - i3,
    {
        visited.push((rv[i3], 0u64));
        frontier.push(rv[i3]);
        i3 += 1;
    }

    // What is not yet visited, for termination.
    let mut remaining: Vec<Node> = Vec::new();
    let mut i4: usize = 0;
    while i4 < uv.len()
        invariant
            i4 <= uv@.len(),
            forall|i2: int, j2: int| 0 <= i2 < j2 < uv@.len() ==> uv@[i2] != uv@[j2],
            forall|i2: int, j2: int| 0 <= i2 < j2 < remaining@.len() ==> remaining@[i2]
                != remaining@[j2],
            remaining@.len() <= i4,
            forall|w: Node| remaining@.contains(w) ==> uv@.contains(w) && !rv@.contains(w),
            forall|j: int|
                0 <= j < i4 && !rs.contains(#[trigger] uv@[j]) ==> remaining@.contains(uv@[j]),
        decreases uv@.len() - i4,
    {
        let w = uv[i4];
        if !vec_has_node(&rv, w) {
            let ghost rem0 = remaining@;
            push_if_new(&mut remaining, w);
            proof {
                assert(uv@.contains(w)) by {
                    assert(uv@[i4 as int] == w);
                }
            }
        }
        i4 += 1;
    }

    proof {
        // The invariants at round zero: the roots are exactly the nodes at
        // distance zero, visited and unvisited split the universe.
        assert forall|w: Node| covers(visited@, w) <==> rs.contains(w) by {
            if covers(visited@, w) {
                let j = choose|j: int| 0 <= j < visited@.len() && (#[trigger] visited@[j]).0 == w;
                assert(rv@[j] == w);
            }
            if rs.contains(w) {
                let j = choose|j: int| 0 <= j < rv@.len() && rv@[j] == w;
                assert(visited@[j].0 == w);
            }
        }
        assert forall|w: Node| frontier@.contains(w) <==> rs.contains(w) by {
            if frontier@.contains(w) {
                let j = choose|j: int| 0 <= j < frontier@.len() && frontier@[j] == w;
                assert(rv@[j] == w);
            }
            if rs.contains(w) {
                let j = choose|j: int| 0 <= j < rv@.len() && rv@[j] == w;
                assert(frontier@[j] == w);
            }
        }
        assert forall|v: Node, e: nat|
            e <= 0 && #[trigger] dist_is(es, rs, v, e) implies visited@.contains(
            (v, e as Iter),
        ) by {
            assert(rs.contains(v));
            let j = choose|j: int| 0 <= j < rv@.len() && rv@[j] == v;
            assert(visited@[j] == (v, 0u64));
        }
        assert forall|i2: int|
            0 <= i2 < visited@.len() implies (#[trigger] visited@[i2]).1 <= 0 && dist_is(
            es,
            rs,
            visited@[i2].0,
            visited@[i2].1 as nat,
        ) by {
            assert(visited@[i2] == (rv@[i2], 0u64));
            assert(rs.contains(rv@[i2])) by {
                assert(rs[i2] == rv@[i2]);
            }
        }
        assert forall|i2: int, j2: int|
            0 <= i2 < j2 < visited@.len() implies (#[trigger] visited@[i2]).0 != (
        #[trigger] visited@[j2]).0 by {
            assert(visited@[i2].0 == rv@[i2] && visited@[j2].0 == rv@[j2]);
        }
    }

    let mut d: Iter = 0;
    let un: usize = uv.len();

    #[verifier::loop_isolation(true)]
    loop
        invariant
            ev@.len() == es.len(),
            forall|k2: int| 0 <= k2 < es.len() ==> ev@[k2] == (#[trigger] es[k2]).0,
            un as int == uv@.len(),
            forall|j: int|
                0 <= j < ev@.len() ==> uv@.contains((#[trigger] ev@[j]).0) && uv@.contains(
                    ev@[j].1,
                ),
            d as int + remaining@.len() <= un as int,
            forall|i2: int, j2: int| 0 <= i2 < j2 < remaining@.len() ==> remaining@[i2]
                != remaining@[j2],
            forall|w: Node| remaining@.contains(w) ==> !covers(visited@, w),
            forall|w: Node|
                uv@.contains(w) && !covers(visited@, w) ==> remaining@.contains(w),
            forall|i2: int, j2: int| 0 <= i2 < j2 < visited@.len() ==> (#[trigger] visited@[i2]).0
                != (#[trigger] visited@[j2]).0,
            forall|i2: int| 0 <= i2 < visited@.len() ==> (#[trigger] visited@[i2]).1 <= d
                && dist_is(es, rs, visited@[i2].0, visited@[i2].1 as nat),
            forall|v: Node, e: nat|
                e <= d as nat && #[trigger] dist_is(es, rs, v, e) ==> visited@.contains(
                    (v, e as Iter),
                ),
            forall|w: Node| frontier@.contains(w) <==> dist_is(es, rs, w, d as nat),
        ensures
            forall|i2: int, j2: int| 0 <= i2 < j2 < visited@.len() ==> (#[trigger] visited@[i2]).0
                != (#[trigger] visited@[j2]).0,
            forall|i2: int| 0 <= i2 < visited@.len() ==> (#[trigger] visited@[i2]).1 <= d
                && dist_is(es, rs, visited@[i2].0, visited@[i2].1 as nat),
            forall|v: Node, e: nat|
                e <= d as nat && #[trigger] dist_is(es, rs, v, e) ==> visited@.contains(
                    (v, e as Iter),
                ),
            forall|w: Node| !(#[trigger] dist_is(es, rs, w, (d + 1) as nat)),
        decreases remaining@.len(),
    {
        // One hop: every unvisited successor of the frontier.
        let mut next: Vec<Node> = Vec::new();
        let mut k2: usize = 0;
        while k2 < ev.len()
            invariant
                k2 <= ev@.len(),
                forall|i2: int, j2: int| 0 <= i2 < j2 < next@.len() ==> next@[i2] != next@[j2],
                forall|w: Node|
                    next@.contains(w) <==> exists|j: int|
                        0 <= j < k2 && frontier@.contains((#[trigger] ev@[j]).0) && ev@[j].1 == w
                            && !covers(visited@, w),
            decreases ev@.len() - k2,
        {
            let (u, v) = ev[k2];
            let fu = vec_has_node(&frontier, u);
            let cv = dist_covers(&visited, v);
            let nv = vec_has_node(&next, v);
            let ghost next0 = next@;
            if fu && !cv && !nv {
                next.push(v);
                proof {
                    assert(next@ =~= next0.push(v));
                    assert(next@[next@.len() - 1] == v);
                    assert(forall|j: int| 0 <= j < next0.len() ==> next0[j] == #[trigger] next@[j]);
                    assert forall|w2: Node| next@.contains(w2) implies next0.contains(w2) || w2
                        == v by {
                        let j = choose|j: int| 0 <= j < next@.len() && next@[j] == w2;
                        if j < next@.len() - 1 {
                            assert(next0[j] == w2);
                        }
                    }
                    assert forall|w2: Node| next0.contains(w2) implies next@.contains(w2) by {
                        let j = choose|j: int| 0 <= j < next0.len() && next0[j] == w2;
                        assert(next@[j] == w2);
                    }
                    assert(ev@[k2 as int].1 == v);
                }
            }
            proof {
                assert forall|w: Node|
                    next@.contains(w) <==> exists|j: int|
                        0 <= j < k2 + 1 && frontier@.contains((#[trigger] ev@[j]).0) && ev@[j].1
                            == w && !covers(visited@, w) by {
                    if next@.contains(w) {
                        if next0.contains(w) {
                            let j = choose|j: int|
                                0 <= j < k2 && frontier@.contains((#[trigger] ev@[j]).0)
                                    && ev@[j].1 == w && !covers(visited@, w);
                            assert(0 <= j < k2 + 1 && frontier@.contains((#[trigger] ev@[j]).0)
                                && ev@[j].1 == w && !covers(visited@, w));
                        } else {
                            assert(w == v);
                            assert(frontier@.contains((#[trigger] ev@[k2 as int]).0)
                                && ev@[k2 as int].1 == w && !covers(visited@, w));
                        }
                    }
                    if exists|j: int|
                        0 <= j < k2 + 1 && frontier@.contains((#[trigger] ev@[j]).0) && ev@[j].1
                            == w && !covers(visited@, w) {
                        let j = choose|j: int|
                            0 <= j < k2 + 1 && frontier@.contains((#[trigger] ev@[j]).0) && ev@[j].1
                                == w && !covers(visited@, w);
                        if j == k2 {
                            assert(fu && !cv);
                            if nv {
                                assert(next0.contains(v));
                            }
                            assert(next@.contains(w));
                        } else {
                            assert(next0.contains(w));
                        }
                    }
                }
            }
            k2 += 1;
        }

        // The next frontier is exactly the set at distance `d + 1`.
        proof {
            assert forall|w: Node|
                next@.contains(w) <==> dist_is(es, rs, w, (d + 1) as nat) by {
                if next@.contains(w) {
                    let j = choose|j: int|
                        0 <= j < ev@.len() && frontier@.contains((#[trigger] ev@[j]).0) && ev@[j].1
                            == w && !covers(visited@, w);
                    let u = ev@[j].0;
                    assert(dist_is(es, rs, u, d as nat));
                    assert(has_val(es, (u, w))) by {
                        assert(es[j].0 == (u, w));
                    }
                    assert(dreach(es, rs, w, (d + 1) as nat));
                    if dreach(es, rs, w, d as nat) {
                        lemma_dist_exists(es, rs, w, d as nat);
                        let e = choose|e: nat| e <= d as nat && dist_is(es, rs, w, e);
                        assert(visited@.contains((w, e as Iter)));
                        assert(covers(visited@, w)) by {
                            let i2 = choose|i2: int|
                                0 <= i2 < visited@.len() && visited@[i2] == (w, e as Iter);
                            assert(visited@[i2].0 == w);
                        }
                        assert(false);
                    }
                }
                if dist_is(es, rs, w, (d + 1) as nat) {
                    lemma_dist_pred(es, rs, w, (d + 1) as nat);
                    let u = choose|u: Node|
                        dist_is(es, rs, u, d as nat) && has_val(es, (u, w));
                    assert(frontier@.contains(u));
                    let j = choose|j: int| 0 <= j < es.len() && (#[trigger] es[j]).0 == (u, w);
                    assert(ev@[j] == (u, w));
                    if covers(visited@, w) {
                        let i2 = choose|i2: int|
                            0 <= i2 < visited@.len() && (#[trigger] visited@[i2]).0 == w;
                        let e0 = visited@[i2].1;
                        lemma_dist_unique(es, rs, w, e0 as nat, (d + 1) as nat);
                        assert(false);
                    }
                    assert(frontier@.contains((ev@[j]).0) && ev@[j].1 == w);
                }
            }
        }

        if next.len() == 0 {
            proof {
                assert forall|w: Node| !(#[trigger] dist_is(es, rs, w, (d + 1) as nat)) by {
                    if dist_is(es, rs, w, (d + 1) as nat) {
                        assert(next@.contains(w));
                    }
                }
            }
            break;
        }

        // Record the newly reached nodes and retire them from `remaining`.
        proof {
            assert forall|w: Node| next@.contains(w) implies remaining@.contains(w) by {
                let j = choose|j: int|
                    0 <= j < ev@.len() && frontier@.contains((#[trigger] ev@[j]).0) && ev@[j].1 == w
                        && !covers(visited@, w);
                assert(uv@.contains(ev@[j].1));
            }
        }
        proof {
            assert(remaining@.contains(next@[0])) by {
                assert(next@.contains(next@[0]));
            }
            assert(remaining@.len() >= 1);
        }
        d = d + 1;
        let ghost visited0 = visited@;
        let mut i5: usize = 0;
        while i5 < next.len()
            invariant
                i5 <= next@.len(),
                visited@.len() == visited0.len() + i5,
                forall|j: int| 0 <= j < visited0.len() ==> #[trigger] visited@[j] == visited0[j],
                forall|j: int|
                    0 <= j < i5 ==> #[trigger] visited@[visited0.len() + j] == (next@[j], d),
            decreases next@.len() - i5,
        {
            visited.push((next[i5], d));
            i5 += 1;
        }
        proof {
            // Distinctness and exactness of the grown distance list.
            assert forall|i2: int, j2: int|
                0 <= i2 < j2 < visited@.len() implies (#[trigger] visited@[i2]).0 != (
            #[trigger] visited@[j2]).0 by {
                if j2 >= visited0.len() {
                    assert(visited@[visited0.len() + (j2 - visited0.len())] == (next@[j2
                        - visited0.len()], d));
                    let w = visited@[j2].0;
                    assert(w == next@[j2 - visited0.len()]);
                    assert(next@.contains(w));
                    if i2 < visited0.len() {
                        assert(!covers(visited0, w));
                        if visited@[i2].0 == w {
                            assert(covers(visited0, w)) by {
                                assert(visited0[i2].0 == w);
                            }
                        }
                    } else {
                        assert(visited@[visited0.len() + (i2 - visited0.len())] == (next@[i2
                            - visited0.len()], d));
                        assert(visited@[i2].0 == next@[i2 - visited0.len()]);
                    }
                }
            }
            assert forall|i2: int|
                0 <= i2 < visited@.len() implies (#[trigger] visited@[i2]).1 <= d && dist_is(
                es,
                rs,
                visited@[i2].0,
                visited@[i2].1 as nat,
            ) by {
                if i2 >= visited0.len() {
                    assert(visited@[visited0.len() + (i2 - visited0.len())] == (next@[i2
                        - visited0.len()], d));
                    assert(visited@[i2] == (next@[i2 - visited0.len()], d));
                    assert(next@.contains(next@[i2 - visited0.len()]));
                }
            }
            assert forall|v: Node, e: nat|
                e <= d as nat && #[trigger] dist_is(es, rs, v, e) implies visited@.contains(
                (v, e as Iter),
            ) by {
                if e < d as nat {
                    assert(visited0.contains((v, e as Iter)));
                    let j = choose|j: int| 0 <= j < visited0.len() && visited0[j] == (v, e as Iter);
                    assert(visited@[j] == (v, e as Iter));
                } else {
                    assert(next@.contains(v));
                    let j = choose|j: int| 0 <= j < next@.len() && next@[j] == v;
                    assert(visited@[visited0.len() + j] == (v, d));
                }
            }
        }

        let mut rem2: Vec<Node> = Vec::new();
        let mut i6: usize = 0;
        while i6 < remaining.len()
            invariant
                i6 <= remaining@.len(),
                rem2@.len() <= i6,
                forall|i2: int, j2: int| 0 <= i2 < j2 < rem2@.len() ==> rem2@[i2] != rem2@[j2],
                forall|i2: int, j2: int| 0 <= i2 < j2 < remaining@.len() ==> remaining@[i2]
                    != remaining@[j2],
                forall|w: Node|
                    rem2@.contains(w) ==> remaining@.contains(w) && !next@.contains(w),
                forall|j: int|
                    0 <= j < i6 && !next@.contains(#[trigger] remaining@[j]) ==> rem2@.contains(
                        remaining@[j],
                    ),
            decreases remaining@.len() - i6,
        {
            let w = remaining[i6];
            if !vec_has_node(&next, w) {
                push_if_new(&mut rem2, w);
                proof {
                    assert(remaining@.contains(w)) by {
                        assert(remaining@[i6 as int] == w);
                    }
                }
            }
            i6 += 1;
        }

        // Strictly fewer nodes remain: some next node was in `remaining`.
        proof {
            let w0 = next@[0];
            assert(next@.contains(w0));
            assert(remaining@.contains(w0));
            assert(!rem2@.contains(w0));
            lemma_remove_all_shrinks(remaining@, rem2@, next@, w0);
        }
        remaining = rem2;
        frontier = next;
        proof {
            assert forall|w: Node| remaining@.contains(w) implies !covers(visited@, w) by {
                assert(!covers(visited0, w));
                if covers(visited@, w) {
                    let i2 = choose|i2: int|
                        0 <= i2 < visited@.len() && (#[trigger] visited@[i2]).0 == w;
                    if i2 < visited0.len() {
                        assert(visited0[i2].0 == w);
                    } else {
                        assert(next@.contains(visited@[i2].0));
                    }
                }
            }
            assert forall|w: Node|
                uv@.contains(w) && !covers(visited@, w) implies remaining@.contains(w) by {
                assert(!covers(visited0, w)) by {
                    if covers(visited0, w) {
                        let i2 = choose|i2: int|
                            0 <= i2 < visited0.len() && (#[trigger] visited0[i2]).0 == w;
                        assert(visited@[i2].0 == w);
                    }
                }
                assert(!next@.contains(w)) by {
                    if next@.contains(w) {
                        let j = choose|j: int| 0 <= j < next@.len() && next@[j] == w;
                        assert(visited@[visited0.len() + j] == (w, d));
                        assert(covers(visited@, w)) by {
                            assert(visited@[visited0.len() + j].0 == w);
                        }
                    }
                }
            }
        }
    }

    proof {
        assert forall|v: Node, dd: Iter|
            visited@.contains((v, dd)) <==> dist_is(es, rs, v, dd as nat) by {
            if visited@.contains((v, dd)) {
                let i2 = choose|i2: int| 0 <= i2 < visited@.len() && visited@[i2] == (v, dd);
                assert(visited@[i2].0 == v && visited@[i2].1 == dd);
            }
            if dist_is(es, rs, v, dd as nat) {
                if dd as nat > d as nat {
                    lemma_dist_descend(es, rs, v, dd as nat, (d + 1) as nat);
                    let w = choose|w: Node| #[trigger] dist_is(es, rs, w, (d + 1) as nat);
                    assert(false);
                }
            }
        }
        assert forall|v: Node| covers(visited@, v) <==> exists|e: nat|
            #[trigger] dist_is(es, rs, v, e) by {
            if covers(visited@, v) {
                let i2 = choose|i2: int|
                    0 <= i2 < visited@.len() && (#[trigger] visited@[i2]).0 == v;
                assert(dist_is(es, rs, v, visited@[i2].1 as nat));
            }
            if exists|e: nat| #[trigger] dist_is(es, rs, v, e) {
                let e = choose|e: nat| #[trigger] dist_is(es, rs, v, e);
                if e > d as nat {
                    lemma_dist_descend(es, rs, v, e, (d + 1) as nat);
                    let w = choose|w: Node| #[trigger] dist_is(es, rs, w, (d + 1) as nat);
                    assert(false);
                }
                assert(visited@.contains((v, e as Iter)));
                let i2 = choose|i2: int| 0 <= i2 < visited@.len() && visited@[i2] == (v, e as Iter);
                assert(visited@[i2].0 == v);
            }
        }
    }
    visited
}

/// Removing the members of `next` from a distinct list that contains `w0`
/// (a member of `next`) strictly shrinks it.
proof fn lemma_remove_all_shrinks(from: Seq<Node>, kept: Seq<Node>, dropped: Seq<Node>, w0: Node)
    requires
        forall|i: int, j: int| 0 <= i < j < from.len() ==> from[i] != from[j],
        forall|i: int, j: int| 0 <= i < j < kept.len() ==> kept[i] != kept[j],
        forall|w: Node| kept.contains(w) ==> from.contains(w),
        from.contains(w0),
        !kept.contains(w0),
    ensures
        kept.len() < from.len(),
    decreases from.len(),
{
    let i = choose|i: int| 0 <= i < from.len() && from[i] == w0;
    let from2 = from.remove(i);
    assert forall|a: int, b: int| 0 <= a < b < from2.len() implies from2[a] != from2[b] by {
        assert(from2[a] == if a < i {
            from[a]
        } else {
            from[a + 1]
        });
        assert(from2[b] == if b < i {
            from[b]
        } else {
            from[b + 1]
        });
    }
    assert forall|w: Node| kept.contains(w) implies from2.contains(w) by {
        let j = choose|j: int| 0 <= j < from.len() && from[j] == w;
        assert(w != w0);
        assert(j != i);
        if j < i {
            assert(from2[j] == w);
        } else {
            assert(from2[j - 1] == w);
        }
    }
    lemma_distinct_subset_len(kept, from2);
}

/// A distinct list that embeds into another distinct list is no longer.
proof fn lemma_distinct_subset_len(sub: Seq<Node>, sup: Seq<Node>)
    requires
        forall|i: int, j: int| 0 <= i < j < sub.len() ==> sub[i] != sub[j],
        forall|i: int, j: int| 0 <= i < j < sup.len() ==> sup[i] != sup[j],
        forall|w: Node| sub.contains(w) ==> sup.contains(w),
    ensures
        sub.len() <= sup.len(),
    decreases sub.len(),
{
    if sub.len() > 0 {
        let w = sub.last();
        assert(sub.contains(w)) by {
            assert(sub[sub.len() - 1] == w);
        }
        let i = choose|i: int| 0 <= i < sup.len() && sup[i] == w;
        let sub2 = sub.drop_last();
        let sup2 = sup.remove(i);
        assert forall|a: int, b: int| 0 <= a < b < sup2.len() implies sup2[a] != sup2[b] by {
            assert(sup2[a] == if a < i {
                sup[a]
            } else {
                sup[a + 1]
            });
            assert(sup2[b] == if b < i {
                sup[b]
            } else {
                sup[b + 1]
            });
        }
        assert forall|w2: Node| sub2.contains(w2) implies sup2.contains(w2) by {
            let a = choose|a: int| 0 <= a < sub2.len() && sub2[a] == w2;
            assert(sub[a] == w2);
            assert(w2 != w);
            assert(sub.contains(w2)) by {
                assert(sub[a] == w2);
            }
            let b = choose|b: int| 0 <= b < sup.len() && sup[b] == w2;
            assert(b != i);
            if b < i {
                assert(sup2[b] == w2);
            } else {
                assert(sup2[b - 1] == w2);
            }
        }
        lemma_distinct_subset_len(sub2, sup2);
    }
}

/// Breadth-first distances from a root set: one `(node, hops)` record for
/// every node reachable from some root along directed edges, carrying its
/// exact least hop count.
pub fn bfs(edges: &Collection<Edge>, roots: &Collection<Node>) -> (r: Collection<(Node, Iter)>)
    requires
        is_set(edges@),
        is_set(roots@),
    ensures
        is_set(r@),
        forall|v: Node, dd: Iter|
            has_val(r@, (v, dd)) <==> dist_is(edges@, vals_of(roots@), v, dd as nat),
{
    let ghost es = edges@;
    let ne = edges.len();
    let mut ev: Vec<Edge> = Vec::new();
    let mut k: usize = 0;
    while k < ne
        invariant
            k <= ne,
            ne == es.len(),
            edges@ == es,
            ev@.len() == k,
            forall|j: int| 0 <= j < k ==> ev@[j] == (#[trigger] es[j]).0,
        decreases ne - k,
    {
        ev.push(edges.get(k).0);
        k += 1;
    }
    let nr = roots.len();
    let mut rv: Vec<Node> = Vec::new();
    let mut i: usize = 0;
    while i < nr
        invariant
            i <= nr,
            nr == roots@.len(),
            is_set(roots@),
            rv@.len() == i,
            forall|j: int| 0 <= j < i ==> rv@[j] == (#[trigger] roots@[j]).0,
        decreases nr - i,
    {
        rv.push(roots.get(i).0);
        i += 1;
    }
    proof {
        assert forall|a: int, b: int| 0 <= a < b < rv@.len() implies rv@[a] != rv@[b] by {
            assert(roots@[a].0 != roots@[b].0);
        }
        assert(rv@ =~= vals_of(roots@));
    }
    let dists = bfs_core(&ev, &rv, Ghost(es));
    let mut out: Collection<(Node, Iter)> = Collection::empty();
    let mut i2: usize = 0;
    while i2 < dists.len()
        invariant
            i2 <= dists@.len(),
            out@.len() == i2,
            forall|j: int| 0 <= j < i2 ==> (#[trigger] out@[j]) == (dists@[j], 1i64),
        decreases dists@.len() - i2,
    {
        let ghost out0 = out@;
        out.push(dists[i2], 1i64);
        proof {
            assert(out@ =~= out0.push((dists@[i2 as int], 1i64)));
        }
        i2 += 1;
    }
    proof {
        assert forall|a: int, b: int| 0 <= a < b < out@.len() implies out@[a].0 != out@[b].0 by {
            assert(dists@[a].0 != dists@[b].0);
            if out@[a].0 == out@[b].0 {
                assert(dists@[a] == dists@[b]);
            }
        }
        assert(is_set(out@));
        assert forall|v: Node, dd: Iter|
            has_val(out@, (v, dd)) <==> dist_is(es, rv@, v, dd as nat) by {
            if has_val(out@, (v, dd)) {
                let j = choose|j: int| 0 <= j < out@.len() && out@[j].0 == (v, dd);
                assert(dists@.contains((v, dd))) by {
                    assert(dists@[j] == (v, dd));
                }
            }
            if dist_is(es, rv@, v, dd as nat) {
                assert(dists@.contains((v, dd)));
                let j = choose|j: int| 0 <= j < dists@.len() && dists@[j] == (v, dd);
                assert(out@[j].0 == (v, dd));
            }
        }
    }
    out
}

} // verus!
