//! The executable difference collection and the value-independent part of
//! the operator algebra: concatenation (multiset union), negation,
//! consolidation, and `distinct`.

use vstd::prelude::*;
use crate::diff::{
    count_of, has_val, diffs_bounded, distinct_vals, consolidated, is_set, MAX_LEN, MAX_DIFF,
    lemma_count_absent, lemma_count_distinct, lemma_count_bound,
};

verus! {

/// A value a collection may hold: plain copyable data whose executable
/// equality agrees with mathematical equality.
pub trait Val: Sized {
    /// Decides equality of two values, exactly.
    fn same(&self, other: &Self) -> (r: bool)
        ensures
            r <==> (self == other),
    ;
}

impl Val for u64 {
    fn same(&self, other: &Self) -> (r: bool) {
        *self == *other
    }
}

impl Val for i64 {
    fn same(&self, other: &Self) -> (r: bool) {
        *self == *other
    }
}

impl Val for u8 {
    fn same(&self, other: &Self) -> (r: bool) {
        *self == *other
    }
}

impl<A: Val, B: Val> Val for (A, B) {
    fn same(&self, other: &Self) -> (r: bool) {
        self.0.same(&other.0) && self.1.same(&other.1)
    }
}

impl<A: Val, B: Val, C: Val> Val for (A, B, C) {
    fn same(&self, other: &Self) -> (r: bool) {
        self.0.same(&other.0) && self.1.same(&other.1) && self.2.same(&other.2)
    }
}

/// A difference collection: a multiset of values with signed
/// multiplicities, recorded as a list of `(value, diff)` updates. Its
/// meaning is `count_of(self@, v)` for each value `v`; the order and
/// grouping of the updates carry no meaning.
pub struct Collection<V> {
    /// The recorded updates.
    pub updates: Vec<(V, i64)>,
}

impl<V> View for Collection<V> {
    type V = Seq<(V, i64)>;

    closed spec fn view(&self) -> Seq<(V, i64)> {
        self.updates@
    }
}

impl<V: Val + Copy> Collection<V> {
    /// The empty collection.
    pub fn empty() -> (r: Self)
        ensures
            r@ =~= Seq::<(V, i64)>::empty(),
    {
        Collection { updates: Vec::new() }
    }

    /// A collection holding the given updates.
    pub fn from_updates(updates: Vec<(V, i64)>) -> (r: Self)
        ensures
            r@ == updates@,
    {
        Collection { updates }
    }

    /// A set-form collection holding each given value once, with diff one.
    /// The values must be pairwise distinct.
    pub fn from_set_vec(vals: &Vec<V>) -> (r: Self)
        requires
            forall|i: int, j: int|
                0 <= i < j < vals@.len() ==> vals@[i] != vals@[j],
        ensures
            r@.len() == vals@.len(),
            forall|i: int| 0 <= i < vals@.len() ==> r@[i] == (vals@[i], 1i64),
            is_set(r@),
            forall|v: V| has_val(r@, v) <==> vals@.contains(v),
    {
        let mut updates: Vec<(V, i64)> = Vec::new();
        let mut i: usize = 0;
        while i < vals.len()
            invariant
                i <= vals@.len(),
                updates@.len() == i,
                forall|j: int| 0 <= j < i ==> updates@[j] == (vals@[j], 1i64),
            decreases vals@.len() - i,
        {
            updates.push((vals[i], 1i64));
            i += 1;
        }
        let r = Collection { updates };
        assert forall|v: V| has_val(r@, v) <==> vals@.contains(v) by {
            if has_val(r@, v) {
                let k = choose|k: int| 0 <= k < r@.len() && r@[k].0 == v;
                assert(vals@[k] == v);
            }
            if vals@.contains(v) {
                let k = choose|k: int| 0 <= k < vals@.len() && vals@[k] == v;
                assert(r@[k].0 == v);
            }
        }
        r
    }

    /// How many updates the collection records.
    pub fn len(&self) -> (r: usize)
        ensures
            r == self@.len(),
    {
        self.updates.len()
    }

    /// The value and diff of the update at `i`.
    pub fn get(&self, i: usize) -> (r: (V, i64))
        requires
            i < self@.len(),
        ensures
            r == self@[i as int],
    {
        self.updates[i]
    }

    /// Records one more update.
    pub fn push(&mut self, v: V, d: i64)
        ensures
            final(self)@ == old(self)@.push((v, d)),
    {
        self.updates.push((v, d));
    }

    /// Multiset union: the updates of both inputs together, so every
    /// count is the sum of the two inputs' counts.
    pub fn concat(&self, other: &Self) -> (r: Self)
        ensures
            r@ =~= self@ + other@,
            forall|v: V| count_of(r@, v) == count_of(self@, v) + count_of(other@, v),
    {
        let mut updates: Vec<(V, i64)> = Vec::new();
        let mut i: usize = 0;
        while i < self.updates.len()
            invariant
                i <= self@.len(),
                updates@ =~= self@.take(i as int),
            decreases self@.len() - i,
        {
            updates.push(self.updates[i]);
            assert(updates@ =~= self@.take(i + 1));
            i += 1;
        }
        assert(updates@ =~= self@);
        let mut j: usize = 0;
        while j < other.updates.len()
            invariant
                j <= other@.len(),
                updates@ =~= self@ + other@.take(j as int),
            decreases other@.len() - j,
        {
            updates.push(other.updates[j]);
            assert(updates@ =~= self@ + other@.take(j + 1));
            j += 1;
        }
        assert(updates@ =~= self@ + other@);
        let r = Collection { updates };
        proof {
            assert forall|v: V|
                count_of(r@, v) == count_of(self@, v) + count_of(other@, v) by {
                crate::diff::lemma_count_concat(self@, other@, v);
            }
        }
        r
    }

    /// Negation: every count is negated, so `c.concat(&c.negate())`
    /// accumulates to nothing.
    pub fn negate(&self) -> (r: Self)
        requires
            diffs_bounded(self@, MAX_DIFF as int),
        ensures
            r@.len() == self@.len(),
            forall|i: int| 0 <= i < self@.len() ==> r@[i] == ((#[trigger] self@[i]).0, (-self@[i].1) as i64),
            forall|v: V| count_of(r@, v) == -count_of(self@, v),
            diffs_bounded(r@, MAX_DIFF as int),
    {
        let mut updates: Vec<(V, i64)> = Vec::new();
        let mut i: usize = 0;
        while i < self.updates.len()
            invariant
                i <= self@.len(),
                diffs_bounded(self@, MAX_DIFF as int),
                updates@.len() == i,
                forall|j: int|
                    0 <= j < i ==> updates@[j] == ((#[trigger] self@[j]).0, (-self@[j].1) as i64),
            decreases self@.len() - i,
        {
            let (v, d) = self.updates[i];
            updates.push((v, -d));
            i += 1;
        }
        let r = Collection { updates };
        proof {
            assert forall|v: V| count_of(r@, v) == -count_of(self@, v) by {
                lemma_count_negated(self@, r@, v);
            }
            assert forall|i: int|
                0 <= i < r@.len() implies -MAX_DIFF <= (#[trigger] r@[i]).1 <= MAX_DIFF by {
                assert(r@[i] == (self@[i].0, (-self@[i].1) as i64));
                assert(-MAX_DIFF <= self@[i].1 <= MAX_DIFF);
            }
        }
        r
    }

    /// Whether some update carries the value `v` (with any diff).
    pub fn has(&self, v: &V) -> (r: bool)
        ensures
            r == has_val(self@, *v),
    {
        let mut i: usize = 0;
        while i < self.updates.len()
            invariant
                i <= self@.len(),
                forall|j: int| 0 <= j < i ==> (#[trigger] self@[j]).0 != *v,
            decreases self@.len() - i,
        {
            if self.updates[i].0.same(v) {
                return true;
            }
            i += 1;
        }
        false
    }

    /// The accumulated multiplicity of `v`.
    pub fn count(&self, v: &V) -> (r: i64)
        requires
            self@.len() <= MAX_LEN,
            diffs_bounded(self@, MAX_DIFF as int),
        ensures
            r as int == count_of(self@, *v),
    {
        proof {
            lemma_count_bound(self@, MAX_DIFF as int, *v);
        }
        let mut acc: i64 = 0;
        let mut i: usize = 0;
        while i < self.updates.len()
            invariant
                i <= self@.len(),
                self@.len() <= MAX_LEN,
                diffs_bounded(self@, MAX_DIFF as int),
                acc as int == count_of(self@.take(i as int), *v),
                -((i as int) * (MAX_DIFF as int)) <= acc as int <= (i as int) * (MAX_DIFF as int),
            decreases self@.len() - i,
        {
            proof {
                assert(self@.take(i + 1).drop_last() =~= self@.take(i as int));
                assert(self@.take(i + 1).last() == self@[i as int]);
                assert((i as int + 1) * (MAX_DIFF as int) == (i as int) * (MAX_DIFF as int) + MAX_DIFF as int)
                    by (nonlinear_arith);
                assert((i as int) * (MAX_DIFF as int) <= (MAX_LEN as int) * (MAX_DIFF as int))
                    by (nonlinear_arith)
                    requires 0 <= i as int <= MAX_LEN as int, MAX_DIFF > 0;
            }
            let (w, d) = self.updates[i];
            if w.same(v) {
                acc = acc + d;
            }
            i += 1;
        }
        proof {
            assert(self@.take(self@.len() as int) =~= self@);
        }
        acc
    }

    /// Consolidation: sums the diffs recorded for each value and keeps one
    /// update per value whose accumulated count is not zero. Counts are
    /// unchanged; only the representation shrinks.
    pub fn consolidate(&self) -> (r: Self)
        requires
            self@.len() <= MAX_LEN,
            diffs_bounded(self@, MAX_DIFF as int),
        ensures
            forall|v: V| count_of(r@, v) == count_of(self@, v),
            consolidated(r@),
            r@.len() <= self@.len(),
            diffs_bounded(r@, (MAX_LEN as int) * (MAX_DIFF as int)),
    {
        let n = self.updates.len();
        let mut out: Vec<(V, i64)> = Vec::new();
        let mut i: usize = 0;
        while i < n
            invariant
                i <= n,
                n == self@.len(),
                self@.len() <= MAX_LEN,
                diffs_bounded(self@, MAX_DIFF as int),
                out@.len() <= i,
                distinct_vals(out@),
                forall|k: int| 0 <= k < out@.len() ==> (#[trigger] out@[k]).1 != 0,
                forall|k: int|
                    0 <= k < out@.len() ==> count_of(self@, (#[trigger] out@[k]).0) == out@[k].1 as int,
                forall|k: int| 0 <= k < out@.len() ==> has_val(self@.take(i as int), (#[trigger] out@[k]).0),
                forall|v: V|
                    has_val(self@.take(i as int), v) ==> has_val(out@, v) || count_of(self@, v) == 0,
                diffs_bounded(out@, (MAX_LEN as int) * (MAX_DIFF as int)),
            decreases n - i,
        {
            let ghost out0 = out@;
            let (v, _) = self.updates[i];
            let mut seen = false;
            let mut k: usize = 0;
            while k < out.len()
                invariant
                    k <= out@.len(),
                    seen <==> exists|j: int| 0 <= j < k && out@[j].0 == v,
                decreases out@.len() - k,
            {
                if out[k].0.same(&v) {
                    seen = true;
                    k = out.len();
                } else {
                    k += 1;
                }
            }
            if !seen {
                let total = self.count(&v);
                proof {
                    lemma_count_bound(self@, MAX_DIFF as int, v);
                }
                if total != 0 {
                    out.push((v, total));
                    proof {
                        assert(out@ =~= out0.push((v, total)));
                        assert(out@[out@.len() - 1].0 == v);
                        assert(has_val(out@, v));
                    }
                } else {
                    proof {
                        assert(count_of(self@, v) == 0);
                    }
                }
            } else {
                proof {
                    assert(has_val(out@, v));
                }
            }
            proof {
                assert(has_val(out@, v) || count_of(self@, v) == 0);
                assert(forall|k: int| 0 <= k < out0.len() ==> out0[k] == #[trigger] out@[k]);
                assert forall|v2: V|
                    has_val(self@.take(i + 1), v2) implies has_val(out@, v2) || count_of(self@, v2) == 0 by {
                    if v2 == v {
                    } else {
                        let j = choose|j: int|
                            0 <= j < i + 1 && (#[trigger] self@.take(i + 1)[j]).0 == v2;
                        assert(self@.take(i + 1)[i as int] == self@[i as int]);
                        assert(j < i);
                        assert(self@.take(i as int)[j] == self@.take(i + 1)[j]);
                        assert(has_val(self@.take(i as int), v2));
                        if has_val(out0, v2) {
                            let k = choose|k: int| 0 <= k < out0.len() && out0[k].0 == v2;
                            assert(out@[k].0 == v2);
                        }
                    }
                }
                assert(self@[i as int] == self@.take(i + 1)[i as int]);
                assert(has_val(self@.take(i + 1), self@[i as int].0));
            }
            i += 1;
        }
        let r = Collection { updates: out };
        proof {
            assert(self@.take(n as int) =~= self@);
            assert forall|v: V| count_of(r@, v) == count_of(self@, v) by {
                if has_val(r@, v) {
                    let k = choose|k: int| 0 <= k < r@.len() && r@[k].0 == v;
                    lemma_count_distinct(r@, k);
                } else {
                    lemma_count_absent(r@, v);
                    if has_val(self@, v) {
                    } else {
                        lemma_count_absent(self@, v);
                    }
                }
            }
        }
        r
    }

    /// `distinct`: one copy, with diff one, of every value whose
    /// accumulated count is positive.
    pub fn distinct(&self) -> (r: Self)
        requires
            self@.len() <= MAX_LEN,
            diffs_bounded(self@, MAX_DIFF as int),
        ensures
            is_set(r@),
            forall|v: V| has_val(r@, v) <==> count_of(self@, v) > 0,
            r@.len() <= self@.len(),
    {
        let c = self.consolidate();
        let mut out: Vec<(V, i64)> = Vec::new();
        let mut i: usize = 0;
        while i < c.updates.len()
            invariant
                i <= c@.len(),
                consolidated(c@),
                out@.len() <= i,
                is_set(out@),
                forall|k: int| 0 <= k < out@.len() ==> has_val(c@, (#[trigger] out@[k]).0),
                forall|k: int|
                    0 <= k < out@.len() ==> count_of(c@, (#[trigger] out@[k]).0) > 0,
                forall|v: V|
                    has_val(out@, v) <==> exists|j: int|
                        0 <= j < i && (#[trigger] c@[j]).0 == v && c@[j].1 > 0,
            decreases c@.len() - i,
        {
            let ghost out0 = out@;
            let (v, d) = c.updates[i];
            if d > 0 {
                proof {
                    lemma_count_distinct(c@, i as int);
                    if has_val(out0, v) {
                        let j = choose|j: int|
                            0 <= j < i && (#[trigger] c@[j]).0 == v && c@[j].1 > 0;
                        assert(false);
                    }
                }
                out.push((v, 1i64));
                proof {
                    assert(out@ =~= out0.push((v, 1i64)));
                    assert(out@[out@.len() - 1].0 == v);
                    assert forall|v2: V|
                        has_val(out@, v2) <==> exists|j: int|
                            0 <= j < i + 1 && (#[trigger] c@[j]).0 == v2 && c@[j].1 > 0 by {
                        if has_val(out@, v2) {
                            let k = choose|k: int| 0 <= k < out@.len() && out@[k].0 == v2;
                            if k < out@.len() - 1 {
                                assert(out0[k] == out@[k]);
                                assert(has_val(out0, v2));
                            } else {
                                assert(c@[i as int].0 == v2 && c@[i as int].1 > 0);
                            }
                        }
                        if exists|j: int| 0 <= j < i + 1 && (#[trigger] c@[j]).0 == v2 && c@[j].1 > 0 {
                            let j = choose|j: int|
                                0 <= j < i + 1 && (#[trigger] c@[j]).0 == v2 && c@[j].1 > 0;
                            if j == i {
                                assert(out@[out@.len() - 1].0 == v2);
                            } else {
                                assert(has_val(out0, v2));
                                let k = choose|k: int|
                                    0 <= k < out0.len() && out0[k].0 == v2;
                                assert(out@[k].0 == v2);
                            }
                        }
                    }
                }
            } else {
                proof {
                    assert forall|v2: V|
                        has_val(out@, v2) <==> exists|j: int|
                            0 <= j < i + 1 && (#[trigger] c@[j]).0 == v2 && c@[j].1 > 0 by {
                        if exists|j: int| 0 <= j < i + 1 && (#[trigger] c@[j]).0 == v2 && c@[j].1 > 0 {
                            let j = choose|j: int|
                                0 <= j < i + 1 && (#[trigger] c@[j]).0 == v2 && c@[j].1 > 0;
                            assert(j < i);
                        }
                    }
                }
            }
            i += 1;
        }
        let r = Collection { updates: out };
        proof {
            assert forall|v: V| has_val(r@, v) <==> count_of(self@, v) > 0 by {
                if has_val(r@, v) {
                    let j = choose|j: int| 0 <= j < c@.len() && c@[j].0 == v && c@[j].1 > 0;
                    lemma_count_distinct(c@, j);
                }
                if count_of(self@, v) > 0 {
                    assert(count_of(c@, v) > 0);
                    if !has_val(c@, v) {
                        lemma_count_absent(c@, v);
                    }
                    let j = choose|j: int| 0 <= j < c@.len() && c@[j].0 == v;
                    lemma_count_distinct(c@, j);
                }
            }
        }
        r
    }
}

/// Pointwise negation of a list negates every count.
proof fn lemma_count_negated<V>(s: Seq<(V, i64)>, t: Seq<(V, i64)>, v: V)
    requires
        t.len() == s.len(),
        forall|i: int| 0 <= i < s.len() ==> t[i] == ((#[trigger] s[i]).0, (-s[i].1) as i64),
        diffs_bounded(s, MAX_DIFF as int),
    ensures
        count_of(t, v) == -count_of(s, v),
    decreases s.len(),
{
    if s.len() > 0 {
        assert(forall|i: int|
            0 <= i < s.len() - 1 ==> #[trigger] t.drop_last()[i] == t[i] && s.drop_last()[i] == s[i]);
        lemma_count_negated(s.drop_last(), t.drop_last(), v);
        assert(t.last() == t[s.len() - 1]);
        assert(s.last() == s[s.len() - 1]);
    }
}

} // verus!
