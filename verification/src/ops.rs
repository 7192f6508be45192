//! The keyed half of the operator algebra: equi-join, semijoin, antijoin
//! and per-key counting, together with record-wise map and filter. Each
//! operator's contract is stated over accumulated counts: the count of an
//! output value is an arithmetic function of the counts of the input
//! values, never of the order the updates arrived in.

use vstd::prelude::*;
use crate::collection::{Collection, Val};
use crate::diff::{count_of, has_val, diffs_bounded, consolidated, is_set, MAX_LEN, MAX_DIFF,
    lemma_count_distinct, lemma_count_absent};

verus! {

/// The soft per-value count bound under which joined counts cannot
/// overflow: two factors within it multiply to well under the diff type's
/// range.
pub const MAX_COUNT: i64 = 0x7fff_ffff;

/// Every accumulated count lies within `-MAX_COUNT ..= MAX_COUNT`.
pub open spec fn counts_bounded<V>(s: Seq<(V, i64)>) -> bool {
    forall|v: V| -MAX_COUNT <= #[trigger] count_of(s, v) <= MAX_COUNT
}

/// Semijoin: keeps the keyed records whose key has a positive accumulated
/// count in the key collection, with their own counts; the key
/// collection's values and diffs carry no further weight.
pub fn semijoin<K: Val + Copy, A: Val + Copy>(
    l: &Collection<(K, A)>,
    keys: &Collection<K>,
) -> (r: Collection<(K, A)>)
    requires
        l@.len() <= MAX_LEN,
        keys@.len() <= MAX_LEN,
        diffs_bounded(l@, MAX_DIFF as int),
        diffs_bounded(keys@, MAX_DIFF as int),
    ensures
        forall|k: K, a: A|
            count_of(r@, (k, a)) == if count_of(keys@, k) > 0 {
                count_of(l@, (k, a))
            } else {
                0int
            },
        consolidated(r@),
{
    let cl = l.consolidate();
    let mut out: Collection<(K, A)> = Collection::empty();
    let n = cl.len();
    let mut i: usize = 0;
    while i < n
        invariant
            i <= n,
            n == cl@.len(),
            consolidated(cl@),
            forall|v: (K, A)| count_of(cl@, v) == count_of(l@, v),
            keys@.len() <= MAX_LEN,
            diffs_bounded(keys@, MAX_DIFF as int),
            consolidated(out@),
            forall|j: int|
                0 <= j < out@.len() ==> exists|j2: int|
                    0 <= j2 < i && (#[trigger] out@[j]).0 == (#[trigger] cl@[j2]).0,
            forall|j: int|
                0 <= j < i ==> count_of(out@, (#[trigger] cl@[j]).0) == (if count_of(
                    keys@,
                    cl@[j].0.0,
                ) > 0 {
                    count_of(l@, cl@[j].0)
                } else {
                    0int
                }),
        decreases n - i,
    {
        let ((k, a), d1) = cl.get(i);
        proof {
            assert(cl@[i as int] == ((k, a), d1));
            lemma_count_distinct(cl@, i as int);
        }
        let d2 = keys.count(&k);
        let ghost out0 = out@;
        if d2 > 0 {
            proof {
                if has_val(out@, (k, a)) {
                    let j = choose|j: int| 0 <= j < out@.len() && (#[trigger] out@[j]).0 == (k, a);
                    let j2 = choose|j2: int|
                        0 <= j2 < i && (#[trigger] out@[j]).0 == (#[trigger] cl@[j2]).0;
                    assert(cl@[j2].0 == cl@[i as int].0);
                    assert(false);
                }
            }
            out.push((k, a), d1);
            proof {
                assert(out@ =~= out0.push(((k, a), d1)));
                assert(out@[out@.len() - 1] == ((k, a), d1));
                assert forall|j: int, j2: int|
                    0 <= j < j2 < out@.len() implies (#[trigger] out@[j]).0 != (
                #[trigger] out@[j2]).0 by {
                    if j2 == out@.len() - 1 {
                        if out@[j].0 == (k, a) {
                            assert(has_val(out0, (k, a))) by {
                                assert(out0[j].0 == (k, a));
                            }
                        }
                    }
                }
            }
        }
        proof {
            assert forall|j: int|
                0 <= j < i + 1 implies count_of(out@, (#[trigger] cl@[j]).0) == (if count_of(
                keys@,
                cl@[j].0.0,
            ) > 0 {
                count_of(l@, cl@[j].0)
            } else {
                0int
            }) by {
                if j < i {
                    if d2 > 0 {
                        crate::diff::lemma_count_push(out0, ((k, a), d1), cl@[j].0);
                        assert(cl@[j].0 != (k, a)) by {
                            assert(cl@[j] != cl@[i as int]);
                        }
                    }
                } else {
                    if d2 > 0 {
                        lemma_count_distinct(out@, out@.len() - 1);
                    } else {
                        if has_val(out@, (k, a)) {
                            let j3 = choose|j3: int|
                                0 <= j3 < out@.len() && (#[trigger] out@[j3]).0 == (k, a);
                            let j4 = choose|j4: int|
                                0 <= j4 < i && (#[trigger] out@[j3]).0 == (#[trigger] cl@[j4]).0;
                            assert(cl@[j4].0 == cl@[i as int].0);
                            assert(false);
                        }
                        lemma_count_absent(out@, (k, a));
                    }
                }
            }
            assert forall|j: int|
                0 <= j < out@.len() implies exists|j2: int|
                    0 <= j2 < i + 1 && (#[trigger] out@[j]).0 == (#[trigger] cl@[j2]).0 by {
                if j < out0.len() {
                    assert(out0[j] == out@[j]);
                    let j2 = choose|j2: int|
                        0 <= j2 < i && (#[trigger] out0[j]).0 == (#[trigger] cl@[j2]).0;
                    assert(0 <= j2 < i + 1 && (#[trigger] out@[j]).0 == (#[trigger] cl@[j2]).0);
                } else {
                    assert((#[trigger] out@[j]).0 == (#[trigger] cl@[i as int]).0);
                }
            }
        }
        i += 1;
    }
    proof {
        assert forall|k: K, a: A|
            count_of(out@, (k, a)) == (if count_of(keys@, k) > 0 {
                count_of(l@, (k, a))
            } else {
                0int
            }) by {
            if has_val(cl@, (k, a)) {
                let j = choose|j: int| 0 <= j < cl@.len() && (#[trigger] cl@[j]).0 == (k, a);
            } else {
                lemma_count_absent(cl@, (k, a));
                assert(count_of(l@, (k, a)) == 0);
                if has_val(out@, (k, a)) {
                    let j = choose|j: int| 0 <= j < out@.len() && (#[trigger] out@[j]).0 == (k, a);
                    let j2 = choose|j2: int|
                        0 <= j2 < n && (#[trigger] out@[j]).0 == (#[trigger] cl@[j2]).0;
                    assert(cl@[j2].0 == (k, a));
                }
                lemma_count_absent(out@, (k, a));
            }
        }
    }
    out
}

/// Equi-join: matches keyed records of the two inputs by key; an output
/// count is the product of the two matched records' counts.
pub fn join<K: Val + Copy, A: Val + Copy, B: Val + Copy>(
    l: &Collection<(K, A)>,
    rr: &Collection<(K, B)>,
) -> (r: Collection<(K, (A, B))>)
    requires
        l@.len() <= MAX_LEN,
        rr@.len() <= MAX_LEN,
        diffs_bounded(l@, MAX_DIFF as int),
        diffs_bounded(rr@, MAX_DIFF as int),
        counts_bounded(l@),
        counts_bounded(rr@),
    ensures
        forall|k: K, a: A, b: B|
            count_of(r@, (k, (a, b))) == count_of(l@, (k, a)) * count_of(rr@, (k, b)),
{
    let cl = l.consolidate();
    let cr = rr.consolidate();
    let mut out: Collection<(K, (A, B))> = Collection::empty();
    let n = cl.len();
    let m = cr.len();
    let mut i: usize = 0;
    while i < n
        invariant
            i <= n,
            n == cl@.len(),
            m == cr@.len(),
            consolidated(cl@),
            consolidated(cr@),
            forall|v: (K, A)| count_of(cl@, v) == count_of(l@, v),
            forall|v: (K, B)| count_of(cr@, v) == count_of(rr@, v),
            counts_bounded(l@),
            counts_bounded(rr@),
            forall|k: K, a: A, b: B|
                #![trigger count_of(out@, (k, (a, b)))]
                count_of(out@, (k, (a, b))) == (if exists|j3: int|
                    0 <= j3 < i && (#[trigger] cl@[j3]).0 == (k, a) {
                    count_of(l@, (k, a)) * count_of(rr@, (k, b))
                } else {
                    0int
                }),
        decreases n - i,
    {
        let ((k, a), d1) = cl.get(i);
        proof {
            assert(cl@[i as int] == ((k, a), d1));
            lemma_count_distinct(cl@, i as int);
            assert(count_of(l@, (k, a)) == d1 as int);
            assert(-MAX_COUNT <= d1 <= MAX_COUNT);
        }
        let ghost out_i = out@;
        let mut j: usize = 0;
        while j < m
            invariant
                j <= m,
                n == cl@.len(),
                m == cr@.len(),
                consolidated(cl@),
                consolidated(cr@),
                forall|v: (K, A)| count_of(cl@, v) == count_of(l@, v),
                forall|v: (K, B)| count_of(cr@, v) == count_of(rr@, v),
                counts_bounded(l@),
                counts_bounded(rr@),
                i < n,
                cl@[i as int] == ((k, a), d1),
                count_of(l@, (k, a)) == d1 as int,
                -MAX_COUNT <= d1 <= MAX_COUNT,
                forall|k2: K, a2: A, b: B|
                    #![trigger count_of(out_i, (k2, (a2, b)))]
                    count_of(out_i, (k2, (a2, b))) == (if exists|j3: int|
                        0 <= j3 < i && (#[trigger] cl@[j3]).0 == (k2, a2) {
                        count_of(l@, (k2, a2)) * count_of(rr@, (k2, b))
                    } else {
                        0int
                    }),
                forall|k2: K, a2: A, b: B|
                    #![trigger count_of(out@, (k2, (a2, b)))]
                    count_of(out@, (k2, (a2, b))) == count_of(out_i, (k2, (a2, b))) + (if (k2, a2)
                        == (k, a) && exists|j3: int|
                        0 <= j3 < j && (#[trigger] cr@[j3]).0 == (k2, b) {
                        count_of(l@, (k, a)) * count_of(rr@, (k2, b))
                    } else {
                        0int
                    }),
            decreases m - j,
        {
            let ((k2, b), d2) = cr.get(j);
            proof {
                assert(cr@[j as int] == ((k2, b), d2));
                lemma_count_distinct(cr@, j as int);
                assert(count_of(rr@, (k2, b)) == d2 as int);
                assert(-MAX_COUNT <= d2 <= MAX_COUNT);
                assert(-0x3fff_ffff_0000_0001 <= (d1 as int) * (d2 as int)
                    <= 0x3fff_ffff_0000_0001) by (nonlinear_arith)
                    requires -MAX_COUNT <= d1 <= MAX_COUNT, -MAX_COUNT <= d2 <= MAX_COUNT;
            }
            let ghost out0 = out@;
            let matched = k2.same(&k);
            if matched {
                out.push((k, (a, b)), d1 * d2);
            }
            proof {
                assert forall|k3: K, a3: A, b3: B|
                    #![trigger count_of(out@, (k3, (a3, b3)))]
                    count_of(out@, (k3, (a3, b3))) == count_of(out_i, (k3, (a3, b3))) + (if (
                    k3,
                    a3,
                ) == (k, a) && exists|j3: int|
                    0 <= j3 < j + 1 && (#[trigger] cr@[j3]).0 == (k3, b3) {
                    count_of(l@, (k, a)) * count_of(rr@, (k3, b3))
                } else {
                    0int
                }) by {
                    if matched {
                        crate::diff::lemma_count_push(out0, ((k, (a, b)), (d1 * d2) as i64), (
                            k3,
                            (a3, b3),
                        ));
                    }
                    if (k3, a3) == (k, a) && exists|j3: int|
                        0 <= j3 < j + 1 && (#[trigger] cr@[j3]).0 == (k3, b3) {
                        let j3 = choose|j3: int|
                            0 <= j3 < j + 1 && (#[trigger] cr@[j3]).0 == (k3, b3);
                        if j3 == j {
                            // this row's record: matched exactly when keys agree.
                            assert(k2 == k3 && b == b3);
                            assert(matched);
                            assert((k3, (a3, b3)) == (k, (a, b)));
                            if exists|j4: int| 0 <= j4 < j && (#[trigger] cr@[j4]).0 == (k3, b3) {
                                let j4 = choose|j4: int|
                                    0 <= j4 < j && (#[trigger] cr@[j4]).0 == (k3, b3);
                                assert(cr@[j4].0 == cr@[j as int].0);
                                assert(false);
                            }
                            assert(count_of(rr@, (k3, b3)) == d2 as int);
                        } else {
                            assert(exists|j4: int|
                                0 <= j4 < j && (#[trigger] cr@[j4]).0 == (k3, b3));
                            if matched && (k3, (a3, b3)) == (k, (a, b)) {
                                let j4 = choose|j4: int|
                                    0 <= j4 < j && (#[trigger] cr@[j4]).0 == (k3, b3);
                                assert(cr@[j4].0 == cr@[j as int].0);
                                assert(false);
                            }
                        }
                    } else {
                        if matched && (k3, (a3, b3)) == (k, (a, b)) {
                            assert(cr@[j as int].0 == (k3, b3));
                            assert(exists|j3: int|
                                0 <= j3 < j + 1 && (#[trigger] cr@[j3]).0 == (k3, b3));
                            assert(false);
                        }
                    }
                }
            }
            j += 1;
        }
        proof {
            // fold the finished row into the outer characterisation.
            assert forall|k2: K, a2: A, b: B|
                #![trigger count_of(out@, (k2, (a2, b)))]
                count_of(out@, (k2, (a2, b))) == (if exists|j3: int|
                    0 <= j3 < i + 1 && (#[trigger] cl@[j3]).0 == (k2, a2) {
                    count_of(l@, (k2, a2)) * count_of(rr@, (k2, b))
                } else {
                    0int
                }) by {
                if exists|j3: int| 0 <= j3 < i + 1 && (#[trigger] cl@[j3]).0 == (k2, a2) {
                    let j3 = choose|j3: int|
                        0 <= j3 < i + 1 && (#[trigger] cl@[j3]).0 == (k2, a2);
                    if j3 == i {
                        assert((k2, a2) == (k, a));
                        if exists|j4: int| 0 <= j4 < i && (#[trigger] cl@[j4]).0 == (k2, a2) {
                            let j4 = choose|j4: int|
                                0 <= j4 < i && (#[trigger] cl@[j4]).0 == (k2, a2);
                            assert(cl@[j4].0 == cl@[i as int].0);
                            assert(false);
                        }
                        if exists|j4: int| 0 <= j4 < m && (#[trigger] cr@[j4]).0 == (k2, b) {
                            let j4 = choose|j4: int|
                                0 <= j4 < m && (#[trigger] cr@[j4]).0 == (k2, b);
                        } else {
                            assert(!has_val(cr@, (k2, b)));
                            lemma_count_absent(cr@, (k2, b));
                            assert(count_of(l@, (k, a)) * count_of(rr@, (k2, b)) == 0)
                                by (nonlinear_arith)
                                requires count_of(rr@, (k2, b)) == 0;
                        }
                    } else {
                        if (k2, a2) == (k, a) {
                            assert(cl@[j3].0 == cl@[i as int].0);
                            assert(false);
                        }
                    }
                } else {
                    if (k2, a2) == (k, a) {
                        assert(cl@[i as int].0 == (k2, a2));
                        assert(exists|j3: int|
                            0 <= j3 < i + 1 && (#[trigger] cl@[j3]).0 == (k2, a2));
                        assert(false);
                    }
                }
            }
        }
        i += 1;
    }
    proof {
        assert forall|k: K, a: A, b: B|
            count_of(out@, (k, (a, b))) == count_of(l@, (k, a)) * count_of(rr@, (k, b)) by {
            if exists|j3: int| 0 <= j3 < n && (#[trigger] cl@[j3]).0 == (k, a) {
            } else {
                assert(!has_val(cl@, (k, a)));
                lemma_count_absent(cl@, (k, a));
                assert(count_of(l@, (k, a)) * count_of(rr@, (k, b)) == 0) by (nonlinear_arith)
                    requires count_of(l@, (k, a)) == 0;
            }
        }
    }
    out
}

/// Antijoin: keeps the keyed records whose key has no positive accumulated
/// count in the key collection; kept records keep their counts.
pub fn antijoin<K: Val + Copy, A: Val + Copy>(
    l: &Collection<(K, A)>,
    keys: &Collection<K>,
) -> (r: Collection<(K, A)>)
    requires
        l@.len() <= MAX_LEN,
        keys@.len() <= MAX_LEN,
        diffs_bounded(l@, MAX_DIFF as int),
        diffs_bounded(keys@, MAX_DIFF as int),
    ensures
        forall|k: K, a: A|
            count_of(r@, (k, a)) == if count_of(keys@, k) > 0 {
                0int
            } else {
                count_of(l@, (k, a))
            },
        consolidated(r@),
{
    let cl = l.consolidate();
    let mut out: Collection<(K, A)> = Collection::empty();
    let n = cl.len();
    let mut i: usize = 0;
    while i < n
        invariant
            i <= n,
            n == cl@.len(),
            consolidated(cl@),
            forall|v: (K, A)| count_of(cl@, v) == count_of(l@, v),
            keys@.len() <= MAX_LEN,
            diffs_bounded(keys@, MAX_DIFF as int),
            consolidated(out@),
            forall|j: int|
                0 <= j < out@.len() ==> exists|j2: int|
                    0 <= j2 < i && (#[trigger] out@[j]).0 == (#[trigger] cl@[j2]).0,
            forall|j: int|
                0 <= j < i ==> count_of(out@, (#[trigger] cl@[j]).0) == (if count_of(
                    keys@,
                    cl@[j].0.0,
                ) > 0 {
                    0int
                } else {
                    count_of(l@, cl@[j].0)
                }),
        decreases n - i,
    {
        let ((k, a), d1) = cl.get(i);
        proof {
            assert(cl@[i as int] == ((k, a), d1));
            lemma_count_distinct(cl@, i as int);
        }
        let d2 = keys.count(&k);
        let ghost out0 = out@;
        if d2 <= 0 {
            proof {
                if has_val(out@, (k, a)) {
                    let j = choose|j: int| 0 <= j < out@.len() && (#[trigger] out@[j]).0 == (k, a);
                    let j2 = choose|j2: int|
                        0 <= j2 < i && (#[trigger] out@[j]).0 == (#[trigger] cl@[j2]).0;
                    assert(cl@[j2].0 == cl@[i as int].0);
                    assert(false);
                }
            }
            out.push((k, a), d1);
            proof {
                assert(out@ =~= out0.push(((k, a), d1)));
                assert(out@[out@.len() - 1] == ((k, a), d1));
                assert forall|j: int, j2: int|
                    0 <= j < j2 < out@.len() implies (#[trigger] out@[j]).0 != (
                #[trigger] out@[j2]).0 by {
                    if j2 == out@.len() - 1 {
                        if out@[j].0 == (k, a) {
                            assert(has_val(out0, (k, a))) by {
                                assert(out0[j].0 == (k, a));
                            }
                        }
                    }
                }
            }
        }
        proof {
            assert forall|j: int|
                0 <= j < i + 1 implies count_of(out@, (#[trigger] cl@[j]).0) == (if count_of(
                keys@,
                cl@[j].0.0,
            ) > 0 {
                0int
            } else {
                count_of(l@, cl@[j].0)
            }) by {
                if j < i {
                    if d2 <= 0 {
                        crate::diff::lemma_count_push(out0, ((k, a), d1), cl@[j].0);
                        assert(cl@[j].0 != (k, a)) by {
                            assert(cl@[j] != cl@[i as int]);
                        }
                    }
                } else {
                    if d2 <= 0 {
                        lemma_count_distinct(out@, out@.len() - 1);
                    } else {
                        if has_val(out@, (k, a)) {
                            let j3 = choose|j3: int|
                                0 <= j3 < out@.len() && (#[trigger] out@[j3]).0 == (k, a);
                            let j4 = choose|j4: int|
                                0 <= j4 < i && (#[trigger] out@[j3]).0 == (#[trigger] cl@[j4]).0;
                            assert(cl@[j4].0 == cl@[i as int].0);
                            assert(false);
                        }
                        lemma_count_absent(out@, (k, a));
                    }
                }
            }
            assert forall|j: int|
                0 <= j < out@.len() implies exists|j2: int|
                    0 <= j2 < i + 1 && (#[trigger] out@[j]).0 == (#[trigger] cl@[j2]).0 by {
                if j < out0.len() {
                    assert(out0[j] == out@[j]);
                    let j2 = choose|j2: int|
                        0 <= j2 < i && (#[trigger] out0[j]).0 == (#[trigger] cl@[j2]).0;
                    assert(0 <= j2 < i + 1 && (#[trigger] out@[j]).0 == (#[trigger] cl@[j2]).0);
                } else {
                    assert((#[trigger] out@[j]).0 == (#[trigger] cl@[i as int]).0);
                }
            }
        }
        i += 1;
    }
    proof {
        assert forall|k: K, a: A|
            count_of(out@, (k, a)) == (if count_of(keys@, k) > 0 {
                0int
            } else {
                count_of(l@, (k, a))
            }) by {
            if has_val(cl@, (k, a)) {
                let j = choose|j: int| 0 <= j < cl@.len() && (#[trigger] cl@[j]).0 == (k, a);
            } else {
                lemma_count_absent(cl@, (k, a));
                assert(count_of(l@, (k, a)) == 0);
                if has_val(out@, (k, a)) {
                    let j = choose|j: int| 0 <= j < out@.len() && (#[trigger] out@[j]).0 == (k, a);
                    let j2 = choose|j2: int|
                        0 <= j2 < n && (#[trigger] out@[j]).0 == (#[trigger] cl@[j2]).0;
                    assert(cl@[j2].0 == (k, a));
                }
                lemma_count_absent(out@, (k, a));
            }
        }
    }
    out
}

/// Per-key counting: one record `(key, count)` with multiplicity one for
/// every key whose accumulated count is not zero.
pub fn count_values<K: Val + Copy>(c: &Collection<K>) -> (r: Collection<(K, i64)>)
    requires
        c@.len() <= MAX_LEN,
        diffs_bounded(c@, MAX_DIFF as int),
    ensures
        is_set(r@),
        forall|k: K, n: i64|
            has_val(r@, (k, n)) <==> count_of(c@, k) == n && n != 0,
{
    let cc = c.consolidate();
    let mut out: Collection<(K, i64)> = Collection::empty();
    let n = cc.len();
    let mut i: usize = 0;
    while i < n
        invariant
            i <= n,
            n == cc@.len(),
            consolidated(cc@),
            forall|v: K| count_of(cc@, v) == count_of(c@, v),
            is_set(out@),
            forall|k: K, cnt: i64|
                has_val(out@, (k, cnt)) <==> exists|j: int|
                    0 <= j < i && (#[trigger] cc@[j]) == (k, cnt),
        decreases n - i,
    {
        let (k, d) = cc.get(i);
        proof {
            assert(cc@[i as int] == (k, d));
        }
        let ghost out0 = out@;
        proof {
            if has_val(out@, (k, d)) {
                let j = choose|j: int| 0 <= j < i && (#[trigger] cc@[j]) == (k, d);
                assert(cc@[j].0 == cc@[i as int].0);
                assert(false);
            }
        }
        out.push((k, d), 1i64);
        proof {
            assert(out@ =~= out0.push(((k, d), 1i64)));
            assert(out@[out@.len() - 1] == ((k, d), 1i64));
            assert forall|j: int, j2: int|
                0 <= j < j2 < out@.len() implies (#[trigger] out@[j]).0 != (
            #[trigger] out@[j2]).0 by {
                if j2 == out@.len() - 1 {
                    if out@[j].0 == (k, d) {
                        assert(has_val(out0, (k, d))) by {
                            assert(out0[j].0 == (k, d));
                        }
                    }
                }
            }
            assert forall|k2: K, cnt: i64|
                has_val(out@, (k2, cnt)) <==> exists|j: int|
                    0 <= j < i + 1 && (#[trigger] cc@[j]) == (k2, cnt) by {
                if has_val(out@, (k2, cnt)) {
                    let j = choose|j: int|
                        0 <= j < out@.len() && (#[trigger] out@[j]).0 == (k2, cnt);
                    if j < out@.len() - 1 {
                        assert(has_val(out0, (k2, cnt))) by {
                            assert(out0[j].0 == (k2, cnt));
                        }
                        let j2 = choose|j2: int|
                            0 <= j2 < i && (#[trigger] cc@[j2]) == (k2, cnt);
                        assert(0 <= j2 < i + 1 && (#[trigger] cc@[j2]) == (k2, cnt));
                    } else {
                        assert((#[trigger] cc@[i as int]) == (k2, cnt));
                    }
                }
                if exists|j: int| 0 <= j < i + 1 && (#[trigger] cc@[j]) == (k2, cnt) {
                    let j = choose|j: int| 0 <= j < i + 1 && (#[trigger] cc@[j]) == (k2, cnt);
                    if j == i {
                        assert(out@[out@.len() - 1].0 == (k2, cnt));
                    } else {
                        assert(has_val(out0, (k2, cnt)));
                        let j3 = choose|j3: int|
                            0 <= j3 < out0.len() && (#[trigger] out0[j3]).0 == (k2, cnt);
                        assert(out@[j3].0 == (k2, cnt));
                    }
                }
            }
        }
        i += 1;
    }
    proof {
        assert forall|k: K, cnt: i64|
            has_val(out@, (k, cnt)) <==> count_of(c@, k) == cnt && cnt != 0 by {
            if has_val(out@, (k, cnt)) {
                let j = choose|j: int| 0 <= j < n && (#[trigger] cc@[j]) == (k, cnt);
                lemma_count_distinct(cc@, j);
            }
            if count_of(c@, k) == cnt && cnt != 0 {
                assert(count_of(cc@, k) == cnt);
                if !has_val(cc@, k) {
                    lemma_count_absent(cc@, k);
                }
                let j = choose|j: int| 0 <= j < cc@.len() && (#[trigger] cc@[j]).0 == k;
                lemma_count_distinct(cc@, j);
                assert((#[trigger] cc@[j]) == (k, cnt));
            }
        }
    }
    out
}

/// Record-wise map: applies the function to every recorded value, keeping
/// its diff. What the output holds follows from the function's own
/// contract, record by record.
pub fn map<A: Val + Copy, B: Val + Copy, F: Fn(A) -> B>(c: &Collection<A>, f: F) -> (r: Collection<
    B,
>)
    requires
        forall|a: A| #[trigger] call_requires(f, (a,)),
    ensures
        r@.len() == c@.len(),
        forall|i: int|
            0 <= i < c@.len() ==> call_ensures(f, ((#[trigger] c@[i]).0,), (#[trigger] r@[i]).0)
                && r@[i].1 == c@[i].1,
{
    let n = c.len();
    let mut out: Collection<B> = Collection::empty();
    let mut i: usize = 0;
    while i < n
        invariant
            i <= n,
            n == c@.len(),
            forall|a: A| #[trigger] call_requires(f, (a,)),
            out@.len() == i,
            forall|j: int|
                0 <= j < i ==> call_ensures(f, ((#[trigger] c@[j]).0,), (#[trigger] out@[j]).0)
                    && out@[j].1 == c@[j].1,
        decreases n - i,
    {
        let (v, d) = c.get(i);
        let w = f(v);
        out.push(w, d);
        proof {
            assert(out@.last() == (w, d));
        }
        i += 1;
    }
    out
}

/// Record-wise filter: keeps the records the predicate accepts. Every kept
/// record is an input record the predicate can accept; every record the
/// predicate must accept is kept.
pub fn filter<A: Val + Copy, F: Fn(A) -> bool>(c: &Collection<A>, f: F) -> (r: Collection<A>)
    requires
        forall|a: A| #[trigger] call_requires(f, (a,)),
    ensures
        forall|j: int|
            0 <= j < r@.len() ==> c@.contains(#[trigger] r@[j]) && call_ensures(
                f,
                (r@[j].0,),
                true,
            ),
        forall|j: int|
            0 <= j < c@.len() && (forall|b: bool|
                call_ensures(f, ((#[trigger] c@[j]).0,), b) ==> b) ==> r@.contains(c@[j]),
{
    let n = c.len();
    let mut out: Collection<A> = Collection::empty();
    let mut i: usize = 0;
    while i < n
        invariant
            i <= n,
            n == c@.len(),
            forall|a: A| #[trigger] call_requires(f, (a,)),
            forall|j: int|
                0 <= j < out@.len() ==> c@.contains(#[trigger] out@[j]) && call_ensures(
                    f,
                    (out@[j].0,),
                    true,
                ),
            forall|j: int|
                0 <= j < i && (forall|b: bool|
                    call_ensures(f, ((#[trigger] c@[j]).0,), b) ==> b) ==> out@.contains(c@[j]),
        decreases n - i,
    {
        let (v, d) = c.get(i);
        proof {
            assert(c@[i as int] == (v, d));
        }
        let ghost out0 = out@;
        let keep = f(v);
        if keep {
            out.push(v, d);
            proof {
                assert(out@.last() == (v, d));
                assert(forall|j: int| 0 <= j < out0.len() ==> out0[j] == #[trigger] out@[j]);
                assert(c@.contains(out@[out@.len() - 1])) by {
                    assert(out@[out@.len() - 1] == c@[i as int]);
                }
            }
        }
        proof {
            assert forall|j: int|
                0 <= j < i + 1 && (forall|b: bool|
                    call_ensures(f, ((#[trigger] c@[j]).0,), b) ==> b) implies out@.contains(
                c@[j],
            ) by {
                if j == i {
                    assert(call_ensures(f, (v,), keep));
                    assert(keep);
                    assert(out@[out@.len() - 1] == c@[i as int]);
                } else {
                    assert(out0.contains(c@[j]));
                    let j2 = choose|j2: int| 0 <= j2 < out0.len() && out0[j2] == c@[j];
                    assert(out@[j2] == c@[j]);
                }
            }
        }
        i += 1;
    }
    out
}

/// The count `cnt` is a possible answer of the rule on the count `d`.
pub open spec fn count_mapped<F: Fn(i64) -> i64>(f: F, d: i64, cnt: int) -> bool {
    exists|y: i64| #[trigger] call_ensures(f, (d,), y) && cnt == y
}

/// Threshold: maps each value's accumulated count through the given rule
/// and records the value with the rule's answer as its new count. The
/// distinct-with-positive-count and exact-count groupings are instances.
pub fn threshold<V: Val + Copy, F: Fn(i64) -> i64>(c: &Collection<V>, f: F) -> (r: Collection<V>)
    requires
        c@.len() <= MAX_LEN,
        diffs_bounded(c@, MAX_DIFF as int),
        forall|d: i64| #[trigger] call_requires(f, (d,)),
    ensures
        consolidated(r@),
        forall|v: V| count_of(c@, v) == 0 ==> count_of(r@, v) == 0,
        forall|v: V|
            count_of(c@, v) != 0 ==> count_mapped(f, count_of(c@, v) as i64, count_of(r@, v)),
{
    let cc = c.consolidate();
    let mut out: Collection<V> = Collection::empty();
    let n = cc.len();
    let mut i: usize = 0;
    while i < n
        invariant
            i <= n,
            n == cc@.len(),
            consolidated(cc@),
            forall|v: V| count_of(cc@, v) == count_of(c@, v),
            forall|d: i64| #[trigger] call_requires(f, (d,)),
            consolidated(out@),
            forall|j: int|
                0 <= j < out@.len() ==> exists|j2: int|
                    0 <= j2 < i && (#[trigger] out@[j]).0 == (#[trigger] cc@[j2]).0,
            forall|j: int|
                0 <= j < i ==> count_mapped(f, (#[trigger] cc@[j]).1, count_of(out@, cc@[j].0)),
        decreases n - i,
    {
        let (v, d) = cc.get(i);
        proof {
            assert(cc@[i as int] == (v, d));
            lemma_count_distinct(cc@, i as int);
        }
        let y = f(d);
        let ghost out0 = out@;
        proof {
            if has_val(out@, v) {
                let j = choose|j: int| 0 <= j < out@.len() && (#[trigger] out@[j]).0 == v;
                let j2 = choose|j2: int|
                    0 <= j2 < i && (#[trigger] out@[j]).0 == (#[trigger] cc@[j2]).0;
                assert(cc@[j2].0 == cc@[i as int].0);
                assert(false);
            }
        }
        if y != 0 {
            out.push(v, y);
            proof {
                assert(out@ =~= out0.push((v, y)));
                assert(out@[out@.len() - 1] == (v, y));
                assert forall|j: int, j2: int|
                    0 <= j < j2 < out@.len() implies (#[trigger] out@[j]).0 != (
                #[trigger] out@[j2]).0 by {
                    if j2 == out@.len() - 1 {
                        if out@[j].0 == v {
                            assert(has_val(out0, v)) by {
                                assert(out0[j].0 == v);
                            }
                        }
                    }
                }
            }
        }
        proof {
            assert forall|j: int|
                0 <= j < i + 1 implies count_mapped(
                f,
                (#[trigger] cc@[j]).1,
                count_of(out@, cc@[j].0),
            ) by {
                if j < i {
                    let y2 = choose|y2: i64|
                        #[trigger] call_ensures(f, (cc@[j].1,), y2) && count_of(out0, cc@[j].0)
                            == y2;
                    if y != 0 {
                        crate::diff::lemma_count_push(out0, (v, y), cc@[j].0);
                        assert(cc@[j].0 != v) by {
                            assert(cc@[j] != cc@[i as int]);
                        }
                    }
                    assert(call_ensures(f, (cc@[j].1,), y2) && count_of(out@, cc@[j].0) == y2);
                } else {
                    if y != 0 {
                        lemma_count_distinct(out@, out@.len() - 1);
                    } else {
                        lemma_count_absent(out@, v);
                    }
                    assert(call_ensures(f, (cc@[i as int].1,), y) && count_of(out@, v) == y);
                }
            }
            assert forall|j: int|
                0 <= j < out@.len() implies exists|j2: int|
                    0 <= j2 < i + 1 && (#[trigger] out@[j]).0 == (#[trigger] cc@[j2]).0 by {
                if j < out0.len() {
                    assert(out0[j] == out@[j]);
                    let j2 = choose|j2: int|
                        0 <= j2 < i && (#[trigger] out0[j]).0 == (#[trigger] cc@[j2]).0;
                    assert(0 <= j2 < i + 1 && (#[trigger] out@[j]).0 == (#[trigger] cc@[j2]).0);
                } else {
                    assert((#[trigger] out@[j]).0 == (#[trigger] cc@[i as int]).0);
                }
            }
        }
        i += 1;
    }
    proof {
        assert forall|v: V| count_of(c@, v) == 0 implies count_of(out@, v) == 0 by {
            if has_val(cc@, v) {
                let j = choose|j: int| 0 <= j < cc@.len() && (#[trigger] cc@[j]).0 == v;
                lemma_count_distinct(cc@, j);
            } else {
                if has_val(out@, v) {
                    let j = choose|j: int| 0 <= j < out@.len() && (#[trigger] out@[j]).0 == v;
                    let j2 = choose|j2: int|
                        0 <= j2 < n && (#[trigger] out@[j]).0 == (#[trigger] cc@[j2]).0;
                    assert(cc@[j2].0 == v);
                }
                lemma_count_absent(out@, v);
            }
        }
        assert forall|v: V|
            count_of(c@, v) != 0 implies count_mapped(f, count_of(c@, v) as i64, count_of(
            out@,
            v,
        )) by {
            if !has_val(cc@, v) {
                lemma_count_absent(cc@, v);
            }
            let j = choose|j: int| 0 <= j < cc@.len() && (#[trigger] cc@[j]).0 == v;
            lemma_count_distinct(cc@, j);
            assert(cc@[j].1 as int == count_of(c@, v));
            assert(cc@[j].1 == count_of(c@, v) as i64);
            assert(count_mapped(f, cc@[j].1, count_of(out@, cc@[j].0)));
        }
    }
    out
}

/// One value for each recorded entry of a row, all at one diff.
pub open spec fn row_updates<B>(bs: Seq<B>, d: i64) -> Seq<(B, i64)> {
    Seq::new(bs.len(), |j: int| (bs[j], d))
}

/// The rows produced for each record, expanded in order, each at its
/// record's diff.
pub open spec fn expansion<A, B>(c: Seq<(A, i64)>, outs: Seq<Vec<B>>) -> Seq<(B, i64)>
    decreases c.len(),
{
    if c.len() == 0 {
        Seq::empty()
    } else {
        expansion(c.drop_last(), outs.drop_last()) + row_updates(outs.last()@, c.last().1)
    }
}

/// Record-wise one-to-many expansion: every value a record's row holds is
/// recorded at that record's diff, rows in record order.
pub fn flat_map<A: Val + Copy, B: Val + Copy, F: Fn(A) -> Vec<B>>(c: &Collection<A>, f: F) -> (r:
    Collection<B>)
    requires
        forall|a: A| #[trigger] call_requires(f, (a,)),
    ensures
        exists|outs: Seq<Vec<B>>|
            #![trigger outs.len()]
            outs.len() == c@.len() && (forall|i: int|
                0 <= i < c@.len() ==> call_ensures(f, ((#[trigger] c@[i]).0,), outs[i])) && r@
                == expansion(c@, outs),
{
    let n = c.len();
    let mut out: Collection<B> = Collection::empty();
    let ghost mut outs: Seq<Vec<B>> = Seq::empty();
    let mut i: usize = 0;
    while i < n
        invariant
            i <= n,
            n == c@.len(),
            forall|a: A| #[trigger] call_requires(f, (a,)),
            outs.len() == i,
            forall|j: int| 0 <= j < i ==> call_ensures(f, ((#[trigger] c@[j]).0,), outs[j]),
            out@ == expansion(c@.take(i as int), outs),
        decreases n - i,
    {
        let (v, d) = c.get(i);
        proof {
            assert(c@[i as int] == (v, d));
        }
        let ys = f(v);
        let ghost out_i = out@;
        let m = ys.len();
        let mut j: usize = 0;
        while j < m
            invariant
                j <= m,
                m == ys@.len(),
                out@ =~= out_i + row_updates(ys@.take(j as int), d),
            decreases m - j,
        {
            out.push(ys[j], d);
            proof {
                assert(out@ =~= out_i + row_updates(ys@.take(j + 1), d)) by {
                    assert(row_updates(ys@.take(j + 1), d) =~= row_updates(
                        ys@.take(j as int),
                        d,
                    ).push((ys@[j as int], d)));
                }
            }
            j += 1;
        }
        proof {
            let outs0 = outs;
            outs = outs0.push(ys);
            assert(ys@.take(m as int) =~= ys@);
            assert(out@ =~= out_i + row_updates(ys@, d));
            assert(outs.drop_last() =~= outs0);
            assert(outs.last() == ys);
            assert(c@.take(i + 1).drop_last() =~= c@.take(i as int));
            assert(c@.take(i + 1).last() == c@[i as int]);
            assert(expansion(c@.take(i + 1), outs) == expansion(c@.take(i as int), outs0)
                + row_updates(ys@, d));
            assert(out@ =~= expansion(c@.take(i + 1), outs));
        }
        i += 1;
    }
    proof {
        assert(c@.take(n as int) =~= c@);
        assert(outs.len() == c@.len() && (forall|j: int|
            0 <= j < c@.len() ==> call_ensures(f, ((#[trigger] c@[j]).0,), outs[j])) && out@
            == expansion(c@, outs));
    }
    out
}

/// The per-key view handed to a grouping rule: one record per value of the
/// key, carrying exactly the key's accumulated count for it.
pub open spec fn group_of<K, A>(s: Seq<((K, A), i64)>, k: K, g: Seq<(A, i64)>) -> bool {
    &&& consolidated(g)
    &&& forall|a: A| count_of(g, a) == count_of(s, (k, a))
}

/// The key-tagged reading of one rule output.
pub open spec fn tag_row<K, B>(k: K, bs: Seq<(B, i64)>) -> Seq<((K, B), i64)> {
    Seq::new(bs.len(), |j: int| ((k, bs[j].0), bs[j].1))
}

/// The rule outputs of all keys, tagged and laid end to end.
pub open spec fn tagged_rows<K, B>(ks: Seq<K>, outs: Seq<Collection<B>>) -> Seq<((K, B), i64)>
    decreases ks.len(),
{
    if ks.len() == 0 {
        Seq::empty()
    } else {
        tagged_rows(ks.drop_last(), outs.drop_last()) + tag_row(ks.last(), outs.last()@)
    }
}

/// What a grouping evaluation produced: each key with a nonzero
/// accumulated count appears once; the rule saw that key's entire
/// accumulated multiset of values; the output is the keys' rule outputs,
/// tagged with their keys.
pub open spec fn grouped_run<K, A, B, F: Fn(K, &Collection<A>) -> Collection<B>>(
    s: Seq<((K, A), i64)>,
    ks: Seq<K>,
    ins: Seq<Collection<A>>,
    outs: Seq<Collection<B>>,
    r: Seq<((K, B), i64)>,
    f: F,
) -> bool {
    &&& ins.len() == ks.len()
    &&& outs.len() == ks.len()
    &&& forall|i: int, j: int| 0 <= i < j < ks.len() ==> ks[i] != ks[j]
    &&& forall|k: K| ks.contains(k) <==> exists|a: A| #[trigger] count_of(s, (k, a)) != 0
    &&& forall|i: int|
        0 <= i < ks.len() ==> group_of(s, ks[i], (#[trigger] ins[i])@) && call_ensures(
            f,
            (ks[i], &ins[i]),
            outs[i],
        )
    &&& r == tagged_rows(ks, outs)
}

/// Membership scan over a key list, by exact equality.
fn key_list_has<K: Val + Copy>(ks: &Vec<K>, k: K) -> (r: bool)
    ensures
        r == ks@.contains(k),
{
    let mut i: usize = 0;
    while i < ks.len()
        invariant
            i <= ks@.len(),
            forall|j: int| 0 <= j < i ==> ks@[j] != k,
        decreases ks@.len() - i,
    {
        if ks[i].same(&k) {
            assert(ks@[i as int] == k);
            return true;
        }
        i += 1;
    }
    false
}

/// Group-by-key reduction: for each key with any nonzero accumulated
/// count, hands the rule the key's entire accumulated multiset of values
/// and records the rule's output under the key.
pub fn reduce<K: Val + Copy, A: Val + Copy, B: Val + Copy, F: Fn(K, &Collection<A>) -> Collection<
    B,
>>(c: &Collection<(K, A)>, f: F) -> (r: Collection<(K, B)>)
    requires
        c@.len() <= MAX_LEN,
        diffs_bounded(c@, MAX_DIFF as int),
        forall|k: K, g: &Collection<A>| #[trigger] call_requires(f, (k, g)),
    ensures
        exists|ks: Seq<K>, ins: Seq<Collection<A>>, outs: Seq<Collection<B>>|
            #[trigger] grouped_run(c@, ks, ins, outs, r@, f),
{
    let cc = c.consolidate();
    let n = cc.len();

    // The distinct keys, in first appearance order.
    let mut kv: Vec<K> = Vec::new();
    let mut i: usize = 0;
    while i < n
        invariant
            i <= n,
            n == cc@.len(),
            forall|i2: int, j2: int| 0 <= i2 < j2 < kv@.len() ==> kv@[i2] != kv@[j2],
            forall|k: K|
                kv@.contains(k) <==> exists|j: int|
                    0 <= j < i && ((#[trigger] cc@[j]).0).0 == k,
        decreases n - i,
    {
        let ((k, _), _) = cc.get(i);
        proof {
            assert((cc@[i as int].0).0 == k);
        }
        let ghost kv0 = kv@;
        if !key_list_has(&kv, k) {
            kv.push(k);
            proof {
                assert(kv@ =~= kv0.push(k));
                assert(kv@[kv@.len() - 1] == k);
                assert forall|k2: K| kv@.contains(k2) implies kv0.contains(k2) || k2 == k by {
                    let j = choose|j: int| 0 <= j < kv@.len() && kv@[j] == k2;
                    if j < kv@.len() - 1 {
                        assert(kv0[j] == k2);
                    }
                }
                assert forall|k2: K| kv0.contains(k2) implies kv@.contains(k2) by {
                    let j = choose|j: int| 0 <= j < kv0.len() && kv0[j] == k2;
                    assert(kv@[j] == k2);
                }
                assert forall|i2: int, j2: int|
                    0 <= i2 < j2 < kv@.len() implies kv@[i2] != kv@[j2] by {
                    if j2 == kv@.len() - 1 {
                        if kv@[i2] == k {
                            assert(kv0.contains(k)) by {
                                assert(kv0[i2] == k);
                            }
                        }
                    }
                }
            }
        }
        proof {
            assert forall|k2: K|
                kv@.contains(k2) <==> exists|j: int|
                    0 <= j < i + 1 && ((#[trigger] cc@[j]).0).0 == k2 by {
                if kv@.contains(k2) && !kv0.contains(k2) {
                    assert(((#[trigger] cc@[i as int]).0).0 == k2);
                }
                if kv0.contains(k2) {
                    let j = choose|j: int| 0 <= j < i && ((#[trigger] cc@[j]).0).0 == k2;
                    assert(0 <= j < i + 1 && ((#[trigger] cc@[j]).0).0 == k2);
                    assert(kv@.contains(k2));
                }
                if exists|j: int| 0 <= j < i + 1 && ((#[trigger] cc@[j]).0).0 == k2 {
                    let j = choose|j: int| 0 <= j < i + 1 && ((#[trigger] cc@[j]).0).0 == k2;
                    if j == i {
                        assert(k2 == k);
                        assert(kv@.contains(k));
                    } else {
                        assert(kv0.contains(k2) || k2 == k);
                    }
                }
            }
        }
        i += 1;
    }

    // Evaluate the rule on each key's accumulated values.
    let nk = kv.len();
    let mut out: Collection<(K, B)> = Collection::empty();
    let ghost mut ks: Seq<K> = Seq::empty();
    let ghost mut ins: Seq<Collection<A>> = Seq::empty();
    let ghost mut outs: Seq<Collection<B>> = Seq::empty();
    let mut q: usize = 0;
    while q < nk
        invariant
            q <= nk,
            nk == kv@.len(),
            n == cc@.len(),
            consolidated(cc@),
            forall|v: (K, A)| count_of(cc@, v) == count_of(c@, v),
            forall|k2: K, g: &Collection<A>| #[trigger] call_requires(f, (k2, g)),
            forall|i2: int, j2: int| 0 <= i2 < j2 < kv@.len() ==> kv@[i2] != kv@[j2],
            forall|k2: K|
                kv@.contains(k2) <==> exists|j: int|
                    0 <= j < n && ((#[trigger] cc@[j]).0).0 == k2,
            ks.len() == q,
            ins.len() == q,
            outs.len() == q,
            forall|j: int| 0 <= j < q ==> #[trigger] ks[j] == kv@[j],
            forall|j: int|
                0 <= j < q ==> group_of(c@, ks[j], (#[trigger] ins[j])@) && call_ensures(
                    f,
                    (ks[j], &ins[j]),
                    outs[j],
                ),
            out@ == tagged_rows(ks, outs),
        decreases nk - q,
    {
        let k = kv[q];
        proof {
            assert(kv@[q as int] == k);
        }

        // This key's accumulated values.
        let mut grp: Collection<A> = Collection::empty();
        let mut j: usize = 0;
        while j < n
            invariant
                j <= n,
                n == cc@.len(),
                consolidated(cc@),
                forall|v: (K, A)| count_of(cc@, v) == count_of(c@, v),
                consolidated(grp@),
                forall|j2: int|
                    #![trigger grp@[j2]]
                    0 <= j2 < grp@.len() ==> exists|j3: int|
                        0 <= j3 < j && (#[trigger] cc@[j3]).0 == (k, grp@[j2].0),
                forall|j2: int|
                    0 <= j2 < j && ((#[trigger] cc@[j2]).0).0 == k ==> count_of(
                        grp@,
                        (cc@[j2].0).1,
                    ) == cc@[j2].1 as int,
                forall|a: A|
                    crate::diff::has_val(grp@, a) <==> exists|j2: int|
                        0 <= j2 < j && (#[trigger] cc@[j2]).0 == (k, a),
            decreases n - j,
        {
            let ((k2, a), d) = cc.get(j);
            proof {
                assert(cc@[j as int] == ((k2, a), d));
            }
            let ghost grp0 = grp@;
            if k2.same(&k) {
                proof {
                    if crate::diff::has_val(grp@, a) {
                        let j2 = choose|j2: int|
                            0 <= j2 < j && (#[trigger] cc@[j2]).0 == (k, a);
                        assert(cc@[j2].0 == cc@[j as int].0);
                        assert(false);
                    }
                }
                grp.push(a, d);
                proof {
                    assert(grp@ =~= grp0.push((a, d)));
                    assert(grp@[grp@.len() - 1] == (a, d));
                    assert forall|i2: int, j2: int|
                        0 <= i2 < j2 < grp@.len() implies (#[trigger] grp@[i2]).0 != (
                    #[trigger] grp@[j2]).0 by {
                        if j2 == grp@.len() - 1 {
                            if grp@[i2].0 == a {
                                assert(crate::diff::has_val(grp0, a)) by {
                                    assert(grp0[i2].0 == a);
                                }
                            }
                        }
                    }
                }
            }
            proof {
                assert forall|j2: int|
                    0 <= j2 < j + 1 && ((#[trigger] cc@[j2]).0).0 == k implies count_of(
                    grp@,
                    (cc@[j2].0).1,
                ) == cc@[j2].1 as int by {
                    if j2 < j {
                        if k2 == k {
                            crate::diff::lemma_count_push(grp0, (a, d), (cc@[j2].0).1);
                            if (cc@[j2].0).1 == a {
                                assert(cc@[j2].0 == (k, a));
                                assert(cc@[j2].0 == cc@[j as int].0);
                                assert(false);
                            }
                        }
                    } else {
                        assert(k2 == k);
                        lemma_count_distinct(grp@, grp@.len() - 1);
                    }
                }
                assert forall|a2: A|
                    crate::diff::has_val(grp@, a2) <==> exists|j2: int|
                        0 <= j2 < j + 1 && (#[trigger] cc@[j2]).0 == (k, a2) by {
                    if crate::diff::has_val(grp@, a2) && !crate::diff::has_val(grp0, a2) {
                        assert(k2 == k && a2 == a);
                        assert((#[trigger] cc@[j as int]).0 == (k, a2));
                    }
                    if crate::diff::has_val(grp0, a2) {
                        let j2 = choose|j2: int|
                            0 <= j2 < j && (#[trigger] cc@[j2]).0 == (k, a2);
                        assert(0 <= j2 < j + 1 && (#[trigger] cc@[j2]).0 == (k, a2));
                        let j3 = choose|j3: int|
                            0 <= j3 < grp0.len() && (#[trigger] grp0[j3]).0 == a2;
                        assert(grp@[j3].0 == a2);
                        assert(crate::diff::has_val(grp@, a2));
                    }
                    if exists|j2: int| 0 <= j2 < j + 1 && (#[trigger] cc@[j2]).0 == (k, a2) {
                        let j2 = choose|j2: int|
                            0 <= j2 < j + 1 && (#[trigger] cc@[j2]).0 == (k, a2);
                        if j2 == j {
                            assert(k2 == k && a == a2);
                            assert(crate::diff::has_val(grp@, a2)) by {
                                assert(grp@[grp@.len() - 1].0 == a2);
                            }
                        } else {
                            assert(crate::diff::has_val(grp0, a2));
                            let j3 = choose|j3: int|
                                0 <= j3 < grp0.len() && (#[trigger] grp0[j3]).0 == a2;
                            assert(grp@[j3].0 == a2);
                            assert(crate::diff::has_val(grp@, a2));
                        }
                    }
                }
                assert forall|j2: int|
                    #![trigger grp@[j2]]
                    0 <= j2 < grp@.len() implies exists|j3: int|
                        0 <= j3 < j + 1 && (#[trigger] cc@[j3]).0 == (k, grp@[j2].0) by {
                    if j2 < grp0.len() {
                        assert(grp0[j2] == grp@[j2]);
                        let j3 = choose|j3: int|
                            0 <= j3 < j && (#[trigger] cc@[j3]).0 == (k, grp0[j2].0);
                        assert(0 <= j3 < j + 1 && (#[trigger] cc@[j3]).0 == (k, grp@[j2].0));
                    } else {
                        assert((#[trigger] cc@[j as int]).0 == (k, grp@[j2].0));
                    }
                }
            }
            j += 1;
        }
        proof {
            // the group carries exactly this key's accumulated counts.
            assert forall|a: A| count_of(grp@, a) == count_of(c@, (k, a)) by {
                if crate::diff::has_val(grp@, a) {
                    let j2 = choose|j2: int| 0 <= j2 < n && (#[trigger] cc@[j2]).0 == (k, a);
                    assert(count_of(grp@, (cc@[j2].0).1) == cc@[j2].1 as int);
                    lemma_count_distinct(cc@, j2);
                } else {
                    lemma_count_absent(grp@, a);
                    if crate::diff::has_val(cc@, (k, a)) {
                        let j2 = choose|j2: int|
                            0 <= j2 < cc@.len() && (#[trigger] cc@[j2]).0 == (k, a);
                        assert(crate::diff::has_val(grp@, a));
                        assert(false);
                    }
                    lemma_count_absent(cc@, (k, a));
                }
            }
            assert(group_of(c@, k, grp@));
        }

        let rowed = f(k, &grp);
        let ghost out0 = out@;
        let nr = rowed.len();
        let mut m: usize = 0;
        while m < nr
            invariant
                m <= nr,
                nr == rowed@.len(),
                out@ =~= out0 + tag_row(k, rowed@.take(m as int)),
            decreases nr - m,
        {
            let (b, d) = rowed.get(m);
            proof {
                assert(rowed@[m as int] == (b, d));
            }
            out.push((k, b), d);
            proof {
                assert(out@ =~= out0 + tag_row(k, rowed@.take(m + 1))) by {
                    assert(tag_row(k, rowed@.take(m + 1)) =~= tag_row(
                        k,
                        rowed@.take(m as int),
                    ).push(((k, rowed@[m as int].0), rowed@[m as int].1)));
                }
            }
            m += 1;
        }
        proof {
            let ks0 = ks;
            let ins0 = ins;
            let outs0 = outs;
            ks = ks0.push(k);
            ins = ins0.push(grp);
            outs = outs0.push(rowed);
            assert(rowed@.take(nr as int) =~= rowed@);
            assert(ks.drop_last() =~= ks0);
            assert(ins.drop_last() =~= ins0);
            assert(outs.drop_last() =~= outs0);
            assert(ks.last() == k && outs.last() == rowed);
            assert(tagged_rows(ks, outs) == tagged_rows(ks0, outs0) + tag_row(k, rowed@));
            assert(out@ =~= tagged_rows(ks, outs));
        }
        q += 1;
    }
    proof {
        // the collected keys are exactly those with a nonzero count.
        assert forall|i2: int, j2: int| 0 <= i2 < j2 < ks.len() implies ks[i2] != ks[j2] by {
            assert(ks[i2] == kv@[i2] && ks[j2] == kv@[j2]);
        }
        assert forall|k2: K|
            ks.contains(k2) <==> exists|a: A| #[trigger] count_of(c@, (k2, a)) != 0 by {
            if ks.contains(k2) {
                let j = choose|j: int| 0 <= j < ks.len() && ks[j] == k2;
                assert(kv@[j] == k2);
                assert(kv@.contains(k2)) by {
                    assert(kv@[j] == k2);
                }
                let j2 = choose|j2: int| 0 <= j2 < n && ((#[trigger] cc@[j2]).0).0 == k2;
                lemma_count_distinct(cc@, j2);
                assert(count_of(c@, (k2, (cc@[j2].0).1)) != 0);
            }
            if exists|a: A| #[trigger] count_of(c@, (k2, a)) != 0 {
                let a = choose|a: A| #[trigger] count_of(c@, (k2, a)) != 0;
                if !crate::diff::has_val(cc@, (k2, a)) {
                    lemma_count_absent(cc@, (k2, a));
                }
                let j2 = choose|j2: int| 0 <= j2 < cc@.len() && (#[trigger] cc@[j2]).0 == (k2, a);
                assert(((#[trigger] cc@[j2]).0).0 == k2);
                assert(kv@.contains(k2));
                let j = choose|j: int| 0 <= j < kv@.len() && kv@[j] == k2;
                assert(ks[j] == k2);
                assert(ks.contains(k2)) by {
                    assert(ks[j] == k2);
                }
            }
        }
        assert(grouped_run(c@, ks, ins, outs, out@, f));
    }
    out
}

} // verus!
