//! The mathematical model of a difference list: a sequence of
//! `(value, diff)` updates, read as a multiset with signed multiplicities.
//! `count_of` sums the diffs recorded for one value; everything the engine
//! promises is phrased over it.

use vstd::prelude::*;

verus! {

/// The accumulated multiplicity of `v` in the update list `s`.
pub open spec fn count_of<V>(s: Seq<(V, i64)>, v: V) -> int
    decreases s.len(),
{
    if s.len() == 0 {
        0
    } else {
        count_of(s.drop_last(), v) + if s.last().0 == v {
            s.last().1 as int
        } else {
            0
        }
    }
}

/// Whether some update in `s` carries the value `v` (with any diff).
pub open spec fn has_val<V>(s: Seq<(V, i64)>, v: V) -> bool {
    exists|i: int| 0 <= i < s.len() && s[i].0 == v
}

/// The values of an update list, positionally, diffs dropped.
pub open spec fn vals_of<V>(s: Seq<(V, i64)>) -> Seq<V> {
    Seq::new(s.len(), |i: int| s[i].0)
}

/// Every diff lies within `-b ..= b`.
pub open spec fn diffs_bounded<V>(s: Seq<(V, i64)>, b: int) -> bool {
    forall|i: int| 0 <= i < s.len() ==> -b <= #[trigger] s[i].1 <= b
}

/// No two updates carry the same value.
pub open spec fn distinct_vals<V>(s: Seq<(V, i64)>) -> bool {
    forall|i: int, j: int| 0 <= i < j < s.len() ==> (#[trigger] s[i]).0 != (#[trigger] s[j]).0
}

/// A consolidated list: each value at most once, and never with diff zero.
pub open spec fn consolidated<V>(s: Seq<(V, i64)>) -> bool {
    &&& distinct_vals(s)
    &&& forall|i: int| 0 <= i < s.len() ==> (#[trigger] s[i]).1 != 0
}

/// A set in difference form: each value at most once, always with diff one.
pub open spec fn is_set<V>(s: Seq<(V, i64)>) -> bool {
    &&& distinct_vals(s)
    &&& forall|i: int| 0 <= i < s.len() ==> (#[trigger] s[i]).1 == 1
}

/// The soft limits under which the engine's sums cannot overflow a 64-bit
/// diff: a list of at most `MAX_LEN` updates, each within `MAX_DIFF`,
/// accumulates to at most `2^62` in magnitude.
pub const MAX_LEN: usize = 0x10000;

/// Companion bound to `MAX_LEN`; see there.
pub const MAX_DIFF: i64 = 0x4000_0000_0000;

/// Appending one update adjusts one count and no other.
pub proof fn lemma_count_push<V>(s: Seq<(V, i64)>, p: (V, i64), v: V)
    ensures
        count_of(s.push(p), v) == count_of(s, v) + if p.0 == v {
            p.1 as int
        } else {
            0
        },
{
    assert(s.push(p).drop_last() =~= s);
}

/// Counts add across concatenation.
pub proof fn lemma_count_concat<V>(s: Seq<(V, i64)>, t: Seq<(V, i64)>, v: V)
    ensures
        count_of(s + t, v) == count_of(s, v) + count_of(t, v),
    decreases t.len(),
{
    if t.len() == 0 {
        assert(s + t =~= s);
    } else {
        lemma_count_concat(s, t.drop_last(), v);
        assert((s + t).drop_last() =~= s + t.drop_last());
        assert((s + t).last() == t.last());
    }
}

/// A value that appears nowhere has count zero.
pub proof fn lemma_count_absent<V>(s: Seq<(V, i64)>, v: V)
    requires
        !has_val(s, v),
    ensures
        count_of(s, v) == 0,
    decreases s.len(),
{
    if s.len() > 0 {
        assert(!has_val(s.drop_last(), v)) by {
            assert(forall|i: int|
                0 <= i < s.len() - 1 ==> s.drop_last()[i] == #[trigger] s[i]);
        }
        lemma_count_absent(s.drop_last(), v);
        assert(s.last() == s[s.len() - 1]);
    }
}

/// In a list of distinct values, the count of a value is the diff at its
/// unique position, and zero for a value that appears nowhere.
pub proof fn lemma_count_distinct<V>(s: Seq<(V, i64)>, i: int)
    requires
        distinct_vals(s),
        0 <= i < s.len(),
    ensures
        count_of(s, s[i].0) == s[i].1 as int,
    decreases s.len(),
{
    if i == s.len() - 1 {
        assert(!has_val(s.drop_last(), s[i].0)) by {
            assert(forall|j: int|
                0 <= j < s.len() - 1 ==> s.drop_last()[j] == #[trigger] s[j]);
        }
        lemma_count_absent(s.drop_last(), s[i].0);
    } else {
        assert(s.drop_last()[i] == s[i]);
        assert(distinct_vals(s.drop_last())) by {
            assert(forall|j: int|
                0 <= j < s.len() - 1 ==> s.drop_last()[j] == #[trigger] s[j]);
        }
        lemma_count_distinct(s.drop_last(), i);
        assert(s.last() == s[s.len() - 1]);
    }
}

/// Counts are bounded by the length times the largest diff.
pub proof fn lemma_count_bound<V>(s: Seq<(V, i64)>, b: int, v: V)
    requires
        diffs_bounded(s, b),
        b >= 0,
    ensures
        -(s.len() * b) <= count_of(s, v) <= s.len() * b,
    decreases s.len(),
{
    if s.len() == 0 {
    } else {
        assert(diffs_bounded(s.drop_last(), b)) by {
            assert(forall|i: int|
                0 <= i < s.len() - 1 ==> s.drop_last()[i] == #[trigger] s[i]);
        }
        lemma_count_bound(s.drop_last(), b, v);
        assert(s.last() == s[s.len() - 1]);
        assert(s.drop_last().len() * b == s.len() * b - b) by (nonlinear_arith)
            requires s.len() >= 1;
    }
}

} // verus!
