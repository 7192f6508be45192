//! The iteration scope: evaluates a recursively defined collection by
//! re-deriving it round after round from a seed, until a round leaves the
//! accumulated contents unchanged or the round budget runs out. Leaving the
//! scope hands back the last derived collection together with whether it is
//! a fixpoint of the body, content-wise: representations may differ round
//! to round, only the accumulated counts are compared.

use vstd::prelude::*;
use crate::collection::{Collection, Val};
use crate::diff::{count_of, diffs_bounded, MAX_LEN, MAX_DIFF};

verus! {

/// Two collections with the same accumulated count for every value.
pub open spec fn same_contents<V>(a: Seq<(V, i64)>, b: Seq<(V, i64)>) -> bool {
    forall|v: V| count_of(a, v) == count_of(b, v)
}

/// The collection stays within the engine's soft limits, so its contents
/// can be consolidated and compared.
pub open spec fn within_limits<V>(s: Seq<(V, i64)>) -> bool {
    &&& s.len() <= MAX_LEN
    &&& diffs_bounded(s, MAX_DIFF as int)
    &&& forall|v: V| -MAX_DIFF <= #[trigger] count_of(s, v) <= MAX_DIFF
}

/// Whether two bounded collections accumulate to the same contents.
pub fn contents_equal<V: Val + Copy>(a: &Collection<V>, b: &Collection<V>) -> (r: bool)
    requires
        within_limits(a@),
        within_limits(b@),
    ensures
        r == same_contents(a@, b@),
{
    let ca = a.consolidate();
    let cb = b.consolidate();
    proof {
        assert forall|j: int|
            0 <= j < ca@.len() implies -MAX_DIFF <= (#[trigger] ca@[j]).1 <= MAX_DIFF by {
            crate::diff::lemma_count_distinct(ca@, j);
            assert(count_of(ca@, ca@[j].0) == count_of(a@, ca@[j].0));
        }
        assert forall|j: int|
            0 <= j < cb@.len() implies -MAX_DIFF <= (#[trigger] cb@[j]).1 <= MAX_DIFF by {
            crate::diff::lemma_count_distinct(cb@, j);
            assert(count_of(cb@, cb@[j].0) == count_of(b@, cb@[j].0));
        }
    }
    let mut i: usize = 0;
    while i < ca.len()
        invariant
            i <= ca@.len(),
            forall|v: V| count_of(ca@, v) == count_of(a@, v),
            forall|v: V| count_of(cb@, v) == count_of(b@, v),
            crate::diff::consolidated(ca@),
            crate::diff::consolidated(cb@),
            cb@.len() <= MAX_LEN,
            diffs_bounded(cb@, MAX_DIFF as int),
            forall|j: int|
                0 <= j < i ==> count_of(a@, (#[trigger] ca@[j]).0) == count_of(b@, ca@[j].0),
        decreases ca@.len() - i,
    {
        let (v, d) = ca.get(i);
        proof {
            assert(ca@[i as int] == (v, d));
            crate::diff::lemma_count_distinct(ca@, i as int);
        }
        let db = cb.count(&v);
        if d != db {
            proof {
                assert(count_of(a@, v) != count_of(b@, v));
            }
            return false;
        }
        i += 1;
    }
    let mut j: usize = 0;
    while j < cb.len()
        invariant
            j <= cb@.len(),
            forall|v: V| count_of(ca@, v) == count_of(a@, v),
            forall|v: V| count_of(cb@, v) == count_of(b@, v),
            crate::diff::consolidated(ca@),
            crate::diff::consolidated(cb@),
            ca@.len() <= MAX_LEN,
            diffs_bounded(ca@, MAX_DIFF as int),
            forall|j2: int|
                0 <= j2 < ca@.len() ==> count_of(a@, (#[trigger] ca@[j2]).0) == count_of(
                    b@,
                    ca@[j2].0,
                ),
            forall|j2: int|
                0 <= j2 < j ==> count_of(a@, (#[trigger] cb@[j2]).0) == count_of(b@, cb@[j2].0),
        decreases cb@.len() - j,
    {
        let (v, d) = cb.get(j);
        proof {
            assert(cb@[j as int] == (v, d));
            crate::diff::lemma_count_distinct(cb@, j as int);
        }
        let da = ca.count(&v);
        if da != d {
            proof {
                assert(count_of(a@, v) != count_of(b@, v));
            }
            return false;
        }
        j += 1;
    }
    proof {
        assert forall|v: V| count_of(a@, v) == count_of(b@, v) by {
            if crate::diff::has_val(ca@, v) {
                let j2 = choose|j2: int| 0 <= j2 < ca@.len() && (#[trigger] ca@[j2]).0 == v;
            } else if crate::diff::has_val(cb@, v) {
                let j2 = choose|j2: int| 0 <= j2 < cb@.len() && (#[trigger] cb@[j2]).0 == v;
            } else {
                crate::diff::lemma_count_absent(ca@, v);
                crate::diff::lemma_count_absent(cb@, v);
            }
        }
    }
    true
}

/// The outcome of a budgeted evaluation: the result is what some number
/// of rounds within the budget produces, and only an exhausted budget may
/// stop short of a stable round.
pub open spec fn iteration_outcome<V, F: Fn(&Collection<V>) -> Collection<V>>(
    seed: Collection<V>,
    r: Collection<V>,
    stable: bool,
    fuel: u64,
    body: F,
) -> bool {
    exists|n: u64|
        n <= fuel && #[trigger] iteration_run(seed, r, n, body) && (n < fuel ==> stable)
}

/// A true stability flag certifies a content-wise fixpoint: some output of
/// the body on the result accumulates to the result's own contents.
pub open spec fn certified_fixpoint<V, F: Fn(&Collection<V>) -> Collection<V>>(
    r: Collection<V>,
    stable: bool,
    body: F,
) -> bool {
    stable ==> exists|y: Collection<V>|
        #[trigger] call_ensures(body, (&r,), y) && same_contents(y@, r@)
}

/// Runs the body from the seed for at most `fuel` rounds, stopping early
/// when a round reproduces the previous contents. Returns the last state
/// and whether it is a content-wise fixpoint of the body; every state in
/// the run is the body's output on the one before, starting from the seed,
/// and a run that stops short of the budget always reports stability.
pub fn iterate<V: Val + Copy, F: Fn(&Collection<V>) -> Collection<V>>(
    seed: Collection<V>,
    body: F,
    fuel: u64,
) -> (r: (Collection<V>, bool))
    requires
        within_limits(seed@),
        forall|c: &Collection<V>| #[trigger] call_requires(body, (c,)),
        forall|c: &Collection<V>, y: Collection<V>|
            #[trigger] call_ensures(body, (c,), y) ==> within_limits(y@),
    ensures
        iteration_outcome(seed, r.0, r.1, fuel, body),
        certified_fixpoint(r.0, r.1, body),
{
    let mut cur = seed;
    let ghost mut chain: Seq<Collection<V>> = seq![cur];
    let mut stable = false;
    let mut rd: u64 = 0;
    while rd < fuel
        invariant_except_break
            !stable,
        invariant
            rd <= fuel,
            forall|c: &Collection<V>| #[trigger] call_requires(body, (c,)),
            forall|c: &Collection<V>, y: Collection<V>|
                #[trigger] call_ensures(body, (c,), y) ==> within_limits(y@),
            within_limits(cur@),
            chain.len() == rd + 1,
            chain[0] == seed,
            chain.last() == cur,
            forall|i: int|
                0 < i < chain.len() ==> call_ensures(body, (&chain[i - 1],), #[trigger] chain[i]),
            stable ==> exists|y: Collection<V>|
                #[trigger] call_ensures(body, (&cur,), y) && same_contents(y@, cur@),
        ensures
            chain.len() <= fuel + 1,
            chain.len() >= 1,
            chain[0] == seed,
            chain.last() == cur,
            stable || chain.len() == fuel + 1,
            forall|i: int|
                0 < i < chain.len() ==> call_ensures(body, (&chain[i - 1],), #[trigger] chain[i]),
            stable ==> exists|y: Collection<V>|
                #[trigger] call_ensures(body, (&cur,), y) && same_contents(y@, cur@),
        decreases fuel - rd,
    {
        let next = body(&cur);
        if contents_equal(&next, &cur) {
            stable = true;
            proof {
                assert(call_ensures(body, (&cur,), next) && same_contents(next@, cur@));
                assert(exists|y: Collection<V>|
                    #[trigger] call_ensures(body, (&cur,), y) && same_contents(y@, cur@));
            }
            break;
        }
        proof {
            let prev = chain;
            chain = chain.push(next);
            assert(chain.last() == next);
            assert forall|i: int|
                0 < i < chain.len() implies call_ensures(
                body,
                (&chain[i - 1],),
                #[trigger] chain[i],
            ) by {
                if i < chain.len() - 1 {
                    assert(chain[i] == prev[i] && chain[i - 1] == prev[i - 1]);
                } else {
                    assert(chain[i] == next && chain[i - 1] == cur);
                }
            }
        }
        cur = next;
        rd += 1;
    }
    proof {
        let n = (chain.len() - 1) as u64;
        assert(iteration_run(seed, cur, n, body)) by {
            assert(chain.len() == n + 1 && chain[0] == seed && chain.last() == cur && (forall|
                i: int,
            |
                0 < i < chain.len() ==> call_ensures(body, (&chain[i - 1],), #[trigger] chain[i])));
        }
        assert(iteration_outcome(seed, cur, stable, fuel, body)) by {
            assert(n <= fuel && iteration_run(seed, cur, n, body) && (n < fuel ==> stable));
        }
        assert(certified_fixpoint(cur, stable, body));
    }
    (cur, stable)
}

/// The result is the last link of a chain of exactly `rounds` body
/// applications from the seed.
pub open spec fn iteration_run<V, F: Fn(&Collection<V>) -> Collection<V>>(
    seed: Collection<V>,
    r: Collection<V>,
    rounds: u64,
    body: F,
) -> bool {
    exists|chain: Seq<Collection<V>>|
        #![trigger chain.len()]
        {
            &&& chain.len() == rounds + 1
            &&& chain[0] == seed
            &&& chain.last() == r
            &&& forall|i: int|
                0 < i < chain.len() ==> call_ensures(body, (&chain[i - 1],), #[trigger] chain[i])
        }
}

} // verus!
