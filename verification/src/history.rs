//! Timed input histories. The driver hands the engine a sequence of
//! `(value, time, diff)` records; what a collection accumulates to by a
//! given time is the sum of the diffs of the records dated at or before it.
//! The lemmas here are the engine's central correctness invariant: that
//! accumulation depends only on *which* records arrived by a time, never on
//! the order or the batching in which they arrived.

use vstd::prelude::*;
use crate::collection::{Collection, Val};
use crate::diff::{count_of, diffs_bounded, consolidated, MAX_LEN, MAX_DIFF};

verus! {

/// One record's contribution to the accumulation for value `v` at time `t`.
pub open spec fn record_at<V>(r: (V, u64, i64), t: u64, v: V) -> int {
    if r.1 <= t && r.0 == v {
        r.2 as int
    } else {
        0
    }
}

/// The accumulated multiplicity of `v` at time `t` under the history `h`:
/// the sum of the diffs of all records for `v` dated at or before `t`.
pub open spec fn count_at<V>(h: Seq<(V, u64, i64)>, t: u64, v: V) -> int
    decreases h.len(),
{
    if h.len() == 0 {
        0
    } else {
        count_at(h.drop_last(), t, v) + record_at(h.last(), t, v)
    }
}

/// Accumulation sums across a split of the history into batches.
pub proof fn lemma_count_at_concat<V>(h1: Seq<(V, u64, i64)>, h2: Seq<(V, u64, i64)>, t: u64, v: V)
    ensures
        count_at(h1 + h2, t, v) == count_at(h1, t, v) + count_at(h2, t, v),
    decreases h2.len(),
{
    if h2.len() == 0 {
        assert(h1 + h2 =~= h1);
    } else {
        lemma_count_at_concat(h1, h2.drop_last(), t, v);
        assert((h1 + h2).drop_last() =~= h1 + h2.drop_last());
        assert((h1 + h2).last() == h2.last());
    }
}

/// Accumulated counts are bounded by the history's length times the
/// largest diff.
pub proof fn lemma_count_at_bound<V>(h: Seq<(V, u64, i64)>, t: u64, v: V)
    requires
        diffs_bounded_3(h),
    ensures
        -(h.len() * (MAX_DIFF as int)) <= count_at(h, t, v) <= h.len() * (MAX_DIFF as int),
    decreases h.len(),
{
    if h.len() > 0 {
        assert(diffs_bounded_3(h.drop_last())) by {
            assert(forall|i: int|
                0 <= i < h.len() - 1 ==> h.drop_last()[i] == #[trigger] h[i]);
        }
        lemma_count_at_bound(h.drop_last(), t, v);
        assert(h.last() == h[h.len() - 1]);
        assert(h.drop_last().len() * (MAX_DIFF as int) == h.len() * (MAX_DIFF as int)
            - MAX_DIFF as int) by (nonlinear_arith)
            requires h.len() >= 1;
    }
}

/// Removing one record removes exactly its contribution.
proof fn lemma_count_at_remove<V>(h: Seq<(V, u64, i64)>, i: int, t: u64, v: V)
    requires
        0 <= i < h.len(),
    ensures
        count_at(h.remove(i), t, v) == count_at(h, t, v) - record_at(h[i], t, v),
    decreases h.len(),
{
    if i == h.len() - 1 {
        assert(h.remove(i) =~= h.drop_last());
    } else {
        assert(h.remove(i).drop_last() =~= h.drop_last().remove(i));
        assert(h.remove(i).last() == h.last());
        lemma_count_at_remove(h.drop_last(), i, t, v);
    }
}

/// The correctness invariant, order half: two histories made of the same
/// records — the same multiset, in any order — accumulate to the same
/// counts at every time. Incremental delivery order is unobservable.
pub proof fn lemma_accumulation_order_invariant<V>(
    h1: Seq<(V, u64, i64)>,
    h2: Seq<(V, u64, i64)>,
    t: u64,
    v: V,
)
    requires
        h1.to_multiset() == h2.to_multiset(),
    ensures
        count_at(h1, t, v) == count_at(h2, t, v),
    decreases h1.len(),
{
    h1.to_multiset_ensures();
    h2.to_multiset_ensures();
    if h1.len() == 0 {
        assert(h2.to_multiset().len() == 0);
        assert(h2.len() == 0);
    } else {
        let last = h1.last();
        assert(h1.contains(last));
        assert(h1.to_multiset().count(last) > 0);
        assert(h2.to_multiset().count(last) > 0);
        assert(h2.contains(last));
        let j = choose|j: int| 0 <= j < h2.len() && h2[j] == last;
        assert(h1.drop_last() =~= h1.remove(h1.len() - 1));
        assert(h1.remove(h1.len() - 1).to_multiset() =~= h1.to_multiset().remove(last));
        assert(h2.remove(j).to_multiset() =~= h2.to_multiset().remove(last));
        lemma_accumulation_order_invariant(h1.drop_last(), h2.remove(j), t, v);
        lemma_count_at_remove(h2, j, t, v);
    }
}

/// The correctness invariant, batching half: delivering a history in two
/// batches accumulates to the same counts as delivering it whole; together
/// with the order half, any batching of any reordering agrees.
pub proof fn lemma_accumulation_batch_invariant<V>(
    h1: Seq<(V, u64, i64)>,
    h2: Seq<(V, u64, i64)>,
    t: u64,
    v: V,
)
    ensures
        count_at(h1 + h2, t, v) == count_at(h1, t, v) + count_at(h2, t, v),
{
    lemma_count_at_concat(h1, h2, t, v);
}

/// A timed input history: the record of every insertion and removal the
/// driver has handed in, each dated with a logical time.
pub struct InputLog<V> {
    /// The recorded `(value, time, diff)` records.
    pub records: Vec<(V, u64, i64)>,
}

impl<V> View for InputLog<V> {
    type V = Seq<(V, u64, i64)>;

    closed spec fn view(&self) -> Seq<(V, u64, i64)> {
        self.records@
    }
}

impl<V: Val + Copy> InputLog<V> {
    /// An empty history.
    pub fn new() -> (r: Self)
        ensures
            r@ =~= Seq::<(V, u64, i64)>::empty(),
    {
        InputLog { records: Vec::new() }
    }

    /// Records `diff` copies of `v` arriving at time `t`.
    pub fn update_at(&mut self, v: V, t: u64, diff: i64)
        ensures
            final(self)@ == old(self)@.push((v, t, diff)),
    {
        self.records.push((v, t, diff));
    }

    /// Records one insertion of `v` at time `t`.
    pub fn insert_at(&mut self, v: V, t: u64)
        ensures
            final(self)@ == old(self)@.push((v, t, 1i64)),
    {
        self.records.push((v, t, 1i64));
    }

    /// Records one removal of `v` at time `t`.
    pub fn remove_at(&mut self, v: V, t: u64)
        ensures
            final(self)@ == old(self)@.push((v, t, -1i64)),
    {
        self.records.push((v, t, -1i64));
    }

    /// The collection the history accumulates to at time `t`: for every
    /// value, exactly the sum of the diffs of its records dated `<= t` —
    /// the from-scratch batch reading of the input prefix.
    pub fn contents_at(&self, t: u64) -> (r: Collection<V>)
        requires
            self@.len() <= MAX_LEN,
            diffs_bounded_3(self@),
        ensures
            forall|v: V| count_of(r@, v) == count_at(self@, t, v),
            consolidated(r@),
            r@.len() <= self@.len(),
            forall|i: int|
                0 <= i < r@.len() ==> (#[trigger] r@[i]).1 as int == count_at(
                    self@,
                    t,
                    r@[i].0,
                ),
            diffs_bounded(r@, self@.len() * (MAX_DIFF as int)),
    {
        let mut updates: Vec<(V, i64)> = Vec::new();
        let mut i: usize = 0;
        while i < self.records.len()
            invariant
                i <= self@.len(),
                self@.len() <= MAX_LEN,
                diffs_bounded_3(self@),
                updates@.len() <= i,
                diffs_bounded(updates@, MAX_DIFF as int),
                forall|v: V| count_of(updates@, v) == count_at(self@.take(i as int), t, v),
            decreases self@.len() - i,
        {
            let ghost up0 = updates@;
            let (v, rt, d) = self.records[i];
            if rt <= t {
                updates.push((v, d));
            }
            proof {
                assert(self@.take(i + 1).drop_last() =~= self@.take(i as int));
                assert(self@.take(i + 1).last() == self@[i as int]);
                assert forall|v2: V|
                    count_of(updates@, v2) == count_at(self@.take(i + 1), t, v2) by {
                    if rt <= t {
                        crate::diff::lemma_count_push(up0, (v, d), v2);
                        assert(updates@ =~= up0.push((v, d)));
                    }
                }
            }
            i += 1;
        }
        proof {
            assert(self@.take(self@.len() as int) =~= self@);
        }
        let c = Collection::from_updates(updates);
        let r = c.consolidate();
        proof {
            assert forall|i2: int|
                0 <= i2 < r@.len() implies (#[trigger] r@[i2]).1 as int == count_at(
                self@,
                t,
                r@[i2].0,
            ) by {
                crate::diff::lemma_count_distinct(r@, i2);
            }
            assert forall|i2: int|
                0 <= i2 < r@.len() implies -(self@.len() * (MAX_DIFF as int)) <= (
            #[trigger] r@[i2]).1 <= self@.len() * (MAX_DIFF as int) by {
                lemma_count_at_bound(self@, t, r@[i2].0);
            }
        }
        r
    }
}

/// Every diff in a timed history lies within the engine's soft bound.
pub open spec fn diffs_bounded_3<V>(h: Seq<(V, u64, i64)>) -> bool {
    forall|i: int| 0 <= i < h.len() ==> -MAX_DIFF <= (#[trigger] h[i]).2 <= MAX_DIFF
}

} // verus!
