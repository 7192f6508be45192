//! Board constraint propagation. The input is the candidate set: one to
//! nine `(value, row, col)` triples per cell. Each round finds the cells
//! with exactly one remaining candidate and removes that value from every
//! other cell of the same row, column and block; a candidate survives a
//! round exactly when no such determined cell excludes it. Rounds repeat
//! until one changes nothing. Propagation alone never guesses: a puzzle
//! that needs search is left partially solved, and a round can in general
//! oscillate, so the evaluation carries a round budget and reports whether
//! it reached a fixpoint.

use vstd::prelude::*;
use crate::collection::{Collection, Val};
use crate::diff::{has_val, is_set};

verus! {

/// One candidate: a value and the cell it may fill.
pub type Cand = (u8, u8, u8);

/// The block coordinate of a row or column index (which run from one).
pub open spec fn block_of(x: u8) -> int {
    (x - 1) / 3
}

/// Two distinct cells that share a row, a column, or a block.
pub open spec fn peer(a: (u8, u8), b: (u8, u8)) -> bool {
    a != b && (a.0 == b.0 || a.1 == b.1 || (block_of(a.0) == block_of(b.0) && block_of(a.1)
        == block_of(b.1)))
}

/// The cell holds exactly the one candidate value `v`.
pub open spec fn determined_in(s: Seq<(Cand, i64)>, rc: (u8, u8), v: u8) -> bool {
    has_val(s, (v, rc.0, rc.1)) && forall|v2: u8|
        #[trigger] has_val(s, (v2, rc.0, rc.1)) ==> v2 == v
}

/// Some determined peer cell already carries this candidate's value.
pub open spec fn excluded(s: Seq<(Cand, i64)>, c: Cand) -> bool {
    exists|rc: (u8, u8)| #[trigger] determined_in(s, rc, c.0) && peer(rc, (c.1, c.2))
}

/// One propagation round: `next` keeps exactly the starting candidates not
/// excluded by the current state's determined cells.
pub open spec fn step_ok(start: Seq<(Cand, i64)>, cur: Seq<(Cand, i64)>, next: Seq<(Cand, i64)>) -> bool {
    &&& is_set(next)
    &&& forall|c: Cand| #[trigger] has_val(next, c) <==> has_val(start, c) && !excluded(cur, c)
}

/// The final state is a fixpoint: a further round keeps exactly it.
pub open spec fn propagation_fixpoint(start: Seq<(Cand, i64)>, s: Seq<(Cand, i64)>) -> bool {
    forall|c: Cand| #[trigger] has_val(s, c) <==> has_val(start, c) && !excluded(s, c)
}

/// The outcome of a budgeted run: the result is what some number of
/// rounds within the budget produces, and only an exhausted budget may
/// stop short of a fixpoint.
pub open spec fn propagation_outcome(
    start: Seq<(Cand, i64)>,
    r: Seq<(Cand, i64)>,
    stable: bool,
    max_rounds: u64,
) -> bool {
    exists|rounds: u64|
        rounds <= max_rounds && #[trigger] propagation_run(start, r, rounds) && (rounds
            < max_rounds ==> stable)
}

/// The result is what a run of exactly `rounds` propagation rounds from
/// the start produces; each round is pinned by `step_ok`, so the chain is
/// determined up to representation.
pub open spec fn propagation_run(start: Seq<(Cand, i64)>, r: Seq<(Cand, i64)>, rounds: u64) -> bool {
    exists|chain: Seq<Seq<(Cand, i64)>>|
        #![trigger chain.len()]
        {
            &&& chain.len() == rounds + 1
            &&& chain[0] == start
            &&& forall|i: int| 0 < i < chain.len() ==> step_ok(start, chain[i - 1], #[trigger] chain[i])
            &&& r == chain.last()
        }
}

/// Scans for a candidate value.
fn cand_list_has(xs: &Vec<Cand>, c: Cand) -> (r: bool)
    ensures
        r == xs@.contains(c),
{
    let mut i: usize = 0;
    while i < xs.len()
        invariant
            i <= xs@.len(),
            forall|j: int| 0 <= j < i ==> xs@[j] != c,
        decreases xs@.len() - i,
    {
        if xs[i].same(&c) {
            assert(xs@[i as int] == c);
            return true;
        }
        i += 1;
    }
    false
}

/// One propagation round, executable: reads the determined cells of `cur`
/// and filters `start` by them.
fn propagate_round(start: &Collection<Cand>, cur: &Collection<Cand>) -> (r: Collection<Cand>)
    requires
        is_set(start@),
        is_set(cur@),
        forall|i: int|
            0 <= i < cur@.len() ==> 1 <= (#[trigger] cur@[i]).0.1 && 1 <= cur@[i].0.2,
        forall|i: int|
            0 <= i < start@.len() ==> 1 <= (#[trigger] start@[i]).0.1 && 1 <= start@[i].0.2,
    ensures
        step_ok(start@, cur@, r@),
        forall|i: int|
            0 <= i < r@.len() ==> 1 <= (#[trigger] r@[i]).0.1 && 1 <= r@[i].0.2,
{
    let ghost ss = start@;
    let ghost cs = cur@;
    let nc = cur.len();

    // The determined cells, each once, as (value, row, col).
    let mut dets: Vec<Cand> = Vec::new();
    let mut i: usize = 0;
    while i < nc
        invariant
            i <= nc,
            nc == cs.len(),
            cur@ == cs,
            is_set(cs),
            forall|d: Cand| dets@.contains(d) ==> determined_in(cs, (d.1, d.2), d.0),
            forall|j: int|
                0 <= j < i && determined_in(cs, ((#[trigger] cs[j]).0.1, cs[j].0.2), cs[j].0.0)
                    ==> dets@.contains(cs[j].0),
        decreases nc - i,
    {
        let (v, row, col) = cur.get(i).0;
        proof {
            assert(cs[i as int].0 == (v, row, col));
        }
        // determined: no second value in the same cell.
        let mut sole = true;
        let mut j: usize = 0;
        while j < nc
            invariant
                j <= nc,
                nc == cs.len(),
                cur@ == cs,
                sole <==> forall|j2: int|
                    0 <= j2 < j && (#[trigger] cs[j2]).0.1 == row && cs[j2].0.2 == col
                        ==> cs[j2].0.0 == v,
            decreases nc - j,
        {
            let (v2, r2, c2) = cur.get(j).0;
            proof {
                assert(cs[j as int].0 == (v2, r2, c2));
            }
            if r2 == row && c2 == col && v2 != v {
                sole = false;
            }
            proof {
                if sole {
                    assert forall|j2: int|
                        0 <= j2 < j + 1 && (#[trigger] cs[j2]).0.1 == row && cs[j2].0.2 == col
                            implies cs[j2].0.0 == v by {
                        if j2 == j {
                        }
                    }
                }
            }
            j += 1;
        }
        if sole {
            let ghost dets0 = dets@;
            if !cand_list_has(&dets, (v, row, col)) {
                dets.push((v, row, col));
                proof {
                    assert(dets@[dets@.len() - 1] == (v, row, col));
                    assert(forall|j2: int| 0 <= j2 < dets0.len() ==> dets0[j2] == #[trigger] dets@[j2]);
                    assert forall|d: Cand| dets@.contains(d) implies determined_in(
                        cs,
                        (d.1, d.2),
                        d.0,
                    ) by {
                        let j2 = choose|j2: int| 0 <= j2 < dets@.len() && dets@[j2] == d;
                        if j2 < dets@.len() - 1 {
                            assert(dets0.contains(d)) by {
                                assert(dets0[j2] == d);
                            }
                        } else {
                            assert(d == (v, row, col));
                            assert(has_val(cs, (v, row, col))) by {
                                assert(cs[i as int].0 == (v, row, col));
                            }
                            assert forall|v2: u8| #[trigger]
                                has_val(cs, (v2, row, col)) implies v2 == v by {
                                let j3 = choose|j3: int|
                                    0 <= j3 < cs.len() && (#[trigger] cs[j3]).0 == (v2, row, col);
                                assert(cs[j3].0.1 == row && cs[j3].0.2 == col);
                            }
                        }
                    }
                    assert forall|d: Cand| dets0.contains(d) implies dets@.contains(d) by {
                        let j2 = choose|j2: int| 0 <= j2 < dets0.len() && dets0[j2] == d;
                        assert(dets@[j2] == d);
                    }
                }
            }
        }
        proof {
            assert forall|j2: int|
                0 <= j2 < i + 1 && determined_in(
                    cs,
                    ((#[trigger] cs[j2]).0.1, cs[j2].0.2),
                    cs[j2].0.0,
                ) implies dets@.contains(cs[j2].0) by {
                if j2 == i {
                    assert(determined_in(cs, (row, col), v));
                    assert forall|j3: int|
                        0 <= j3 < nc && (#[trigger] cs[j3]).0.1 == row && cs[j3].0.2 == col
                            implies cs[j3].0.0 == v by {
                        assert(has_val(cs, (cs[j3].0.0, row, col))) by {
                            assert(cs[j3].0 == (cs[j3].0.0, row, col));
                        }
                    }
                    assert(sole);
                    assert(dets@.contains((v, row, col)));
                }
            }
        }
        i += 1;
    }
    proof {
        assert forall|rc: (u8, u8), v: u8|
            #[trigger] determined_in(cs, rc, v) implies dets@.contains((v, rc.0, rc.1)) by {
            let j3 = choose|j3: int|
                0 <= j3 < cs.len() && (#[trigger] cs[j3]).0 == (v, rc.0, rc.1);
            assert(determined_in(cs, (cs[j3].0.1, cs[j3].0.2), cs[j3].0.0));
        }
    }

    proof {
        assert forall|j: int|
            0 <= j < dets@.len() implies 1 <= (#[trigger] dets@[j]).1 && 1 <= dets@[j].2 by {
            let d = dets@[j];
            assert(dets@.contains(d)) by {
                assert(dets@[j] == d);
            }
            assert(determined_in(cs, (d.1, d.2), d.0));
            let j2 = choose|j2: int|
                0 <= j2 < cs.len() && (#[trigger] cs[j2]).0 == (d.0, d.1, d.2);
            assert(1 <= cs[j2].0.1 && 1 <= cs[j2].0.2);
        }
    }

    // Keep the starting candidates that no determined peer excludes.
    let ns = start.len();
    let mut out: Collection<Cand> = Collection::empty();
    let mut k: usize = 0;
    while k < ns
        invariant
            k <= ns,
            ns == ss.len(),
            start@ == ss,
            is_set(ss),
            forall|i2: int|
                0 <= i2 < ss.len() ==> 1 <= (#[trigger] ss[i2]).0.1 && 1 <= ss[i2].0.2,
            forall|d: Cand| dets@.contains(d) ==> determined_in(cs, (d.1, d.2), d.0),
            forall|rc: (u8, u8), v: u8|
                #[trigger] determined_in(cs, rc, v) ==> dets@.contains((v, rc.0, rc.1)),
            forall|j: int|
                0 <= j < dets@.len() ==> 1 <= (#[trigger] dets@[j]).1 && 1 <= dets@[j].2,
            is_set(out@),
            forall|i2: int|
                0 <= i2 < out@.len() ==> 1 <= (#[trigger] out@[i2]).0.1 && 1 <= out@[i2].0.2,
            forall|c: Cand|
                #[trigger] has_val(out@, c) <==> (exists|j: int|
                    0 <= j < k && (#[trigger] ss[j]).0 == c) && !excluded(cs, c),
        decreases ns - k,
    {
        let (v, row, col) = start.get(k).0;
        proof {
            assert(ss[k as int].0 == (v, row, col));
            assert(1 <= row && 1 <= col);
        }
        let mut excl = false;
        let nd = dets.len();
        let mut m: usize = 0;
        while m < nd
            invariant
                m <= nd,
                nd == dets@.len(),
                1 <= row && 1 <= col,
                forall|j: int| 0 <= j < dets@.len() ==> 1 <= (#[trigger] dets@[j]).1 && 1 <= dets@[j].2,
                excl <==> exists|j: int|
                    0 <= j < m && (#[trigger] dets@[j]).0 == v && peer(
                        (dets@[j].1, dets@[j].2),
                        (row, col),
                    ),
            decreases nd - m,
        {
            let (dv, dr, dc) = dets[m];
            proof {
                assert(dets@[m as int] == (dv, dr, dc));
            }
            if dv == v && !(dr == row && dc == col) && (dr == row || dc == col || ((dr - 1) / 3
                == (row - 1) / 3 && (dc - 1) / 3 == (col - 1) / 3)) {
                proof {
                    assert(peer((dr, dc), (row, col)));
                }
                excl = true;
            }
            proof {
                if !excl {
                    assert forall|j: int|
                        0 <= j < m + 1 && (#[trigger] dets@[j]).0 == v implies !peer(
                        (dets@[j].1, dets@[j].2),
                        (row, col),
                    ) by {
                        if j == m {
                            assert(dets@[m as int] == (dv, dr, dc));
                            assert(dv == v);
                            assert(!peer((dr, dc), (row, col)));
                        }
                    }
                }
            }
            m += 1;
        }
        let ghost out0 = out@;
        if !excl {
            proof {
                if has_val(out@, (v, row, col)) {
                    let j = choose|j: int|
                        0 <= j < k && (#[trigger] ss[j]).0 == (v, row, col);
                    assert(ss[j].0 == ss[k as int].0);
                    assert(false);
                }
            }
            out.push((v, row, col), 1i64);
            proof {
                assert(out@ =~= out0.push(((v, row, col), 1i64)));
                assert(out@[out@.len() - 1] == ((v, row, col), 1i64));
                assert forall|c: Cand| has_val(out@, c) <==> has_val(out0, c) || c == (v, row, col) by {
                    if has_val(out@, c) {
                        let j = choose|j: int| 0 <= j < out@.len() && (#[trigger] out@[j]).0 == c;
                        if j < out@.len() - 1 {
                            assert(out0[j].0 == c);
                        }
                    }
                    if has_val(out0, c) {
                        let j = choose|j: int| 0 <= j < out0.len() && (#[trigger] out0[j]).0 == c;
                        assert(out@[j].0 == c);
                    }
                    if c == (v, row, col) {
                        assert(out@[out@.len() - 1].0 == c);
                    }
                }
                assert forall|i2: int, j2: int|
                    0 <= i2 < j2 < out@.len() implies (#[trigger] out@[i2]).0 != (
                #[trigger] out@[j2]).0 by {
                    if j2 == out@.len() - 1 {
                        if out@[i2].0 == (v, row, col) {
                            assert(has_val(out0, (v, row, col))) by {
                                assert(out0[i2].0 == (v, row, col));
                            }
                        }
                    }
                }
            }
        }
        proof {
            // The scan of the determined cells decides exclusion exactly.
            assert(excl == excluded(cs, (v, row, col))) by {
                if excl {
                    let j = choose|j: int|
                        0 <= j < nd && (#[trigger] dets@[j]).0 == v && peer(
                            (dets@[j].1, dets@[j].2),
                            (row, col),
                        );
                    assert(dets@.contains(dets@[j]));
                    assert(determined_in(cs, (dets@[j].1, dets@[j].2), v));
                }
                if excluded(cs, (v, row, col)) {
                    let rc = choose|rc: (u8, u8)|
                        #[trigger] determined_in(cs, rc, v) && peer(rc, (row, col));
                    assert(dets@.contains((v, rc.0, rc.1)));
                    let j = choose|j: int| 0 <= j < dets@.len() && dets@[j] == (v, rc.0, rc.1);
                    assert((#[trigger] dets@[j]).0 == v && peer(
                        (dets@[j].1, dets@[j].2),
                        (row, col),
                    ));
                }
            }
            assert forall|c: Cand|
                #[trigger] has_val(out@, c) <==> (exists|j: int|
                    0 <= j < k + 1 && (#[trigger] ss[j]).0 == c) && !excluded(cs, c) by {
                if has_val(out@, c) && !has_val(out0, c) {
                    assert(c == (v, row, col) && !excl);
                    assert(ss[k as int].0 == c);
                    assert(exists|j: int| 0 <= j < k + 1 && (#[trigger] ss[j]).0 == c);
                }
                if has_val(out0, c) {
                    let j = choose|j: int| 0 <= j < k && (#[trigger] ss[j]).0 == c;
                    assert(0 <= j < k + 1 && (#[trigger] ss[j]).0 == c);
                    assert(has_val(out@, c));
                }
                if (exists|j: int| 0 <= j < k + 1 && (#[trigger] ss[j]).0 == c) && !excluded(
                    cs,
                    c,
                ) {
                    let j = choose|j: int| 0 <= j < k + 1 && (#[trigger] ss[j]).0 == c;
                    if j == k {
                        assert(c == (v, row, col));
                        assert(!excl);
                        assert(has_val(out@, c));
                    } else {
                        assert(has_val(out0, c));
                    }
                }
            }
        }
        k += 1;
    }
    proof {
        assert forall|c: Cand|
            #[trigger] has_val(out@, c) <==> has_val(ss, c) && !excluded(cs, c) by {
            if has_val(ss, c) {
                let j = choose|j: int| 0 <= j < ss.len() && (#[trigger] ss[j]).0 == c;
            }
        }
    }
    out
}

/// Whether two set-form collections hold the same candidates.
fn same_cands(a: &Collection<Cand>, b: &Collection<Cand>) -> (r: bool)
    requires
        is_set(a@),
        is_set(b@),
    ensures
        r == (forall|c: Cand| has_val(a@, c) <==> has_val(b@, c)),
{
    let mut i: usize = 0;
    while i < a.len()
        invariant
            i <= a@.len(),
            forall|j: int| 0 <= j < i ==> has_val(b@, (#[trigger] a@[j]).0),
        decreases a@.len() - i,
    {
        let c = a.get(i).0;
        proof {
            assert(a@[i as int].0 == c);
        }
        if !b.has(&c) {
            proof {
                assert(has_val(a@, c)) by {
                    assert(a@[i as int].0 == c);
                }
            }
            return false;
        }
        i += 1;
    }
    let mut j: usize = 0;
    while j < b.len()
        invariant
            j <= b@.len(),
            forall|j2: int| 0 <= j2 < a@.len() ==> has_val(b@, (#[trigger] a@[j2]).0),
            forall|j2: int| 0 <= j2 < j ==> has_val(a@, (#[trigger] b@[j2]).0),
        decreases b@.len() - j,
    {
        let c = b.get(j).0;
        proof {
            assert(b@[j as int].0 == c);
        }
        if !a.has(&c) {
            proof {
                assert(has_val(b@, c)) by {
                    assert(b@[j as int].0 == c);
                }
            }
            return false;
        }
        j += 1;
    }
    proof {
        assert forall|c: Cand| has_val(a@, c) <==> has_val(b@, c) by {
            if has_val(a@, c) {
                let j2 = choose|j2: int| 0 <= j2 < a@.len() && (#[trigger] a@[j2]).0 == c;
            }
            if has_val(b@, c) {
                let j2 = choose|j2: int| 0 <= j2 < b@.len() && (#[trigger] b@[j2]).0 == c;
            }
        }
    }
    true
}

/// Runs constraint propagation from the given candidates for at most
/// `max_rounds` rounds, stopping early at a fixpoint. Returns the surviving
/// candidates and whether a fixpoint was reached; when it was, a further
/// round would keep exactly the returned set.
#[verifier::rlimit(30)]
pub fn sudoku(start: &Collection<Cand>, max_rounds: u64) -> (r: (Collection<Cand>, bool))
    requires
        is_set(start@),
        forall|i: int|
            0 <= i < start@.len() ==> 1 <= (#[trigger] start@[i]).0.1 && 1 <= start@[i].0.2,
    ensures
        is_set(r.0@),
        propagation_outcome(start@, r.0@, r.1, max_rounds),
        r.1 ==> propagation_fixpoint(start@, r.0@),
{
    let ghost ss = start@;
    let mut cur: Collection<Cand> = Collection::empty();
    let mut i: usize = 0;
    while i < start.len()
        invariant
            i <= ss.len(),
            start@ == ss,
            cur@.len() == i,
            forall|j: int| 0 <= j < i ==> (#[trigger] cur@[j]) == ss[j],
        decreases ss.len() - i,
    {
        let (c, d) = start.get(i);
        cur.push(c, d);
        proof {
            assert(cur@.last() == ss[i as int]);
        }
        i += 1;
    }
    proof {
        assert(cur@ =~= ss);
    }

    let mut stable = false;
    let ghost mut chain: Seq<Seq<(Cand, i64)>> = seq![ss];
    let mut rd: u64 = 0;
    while rd < max_rounds
        invariant_except_break
            !stable,
        invariant
            rd <= max_rounds,
            start@ == ss,
            is_set(ss),
            forall|i2: int|
                0 <= i2 < ss.len() ==> 1 <= (#[trigger] ss[i2]).0.1 && 1 <= ss[i2].0.2,
            is_set(cur@),
            forall|i2: int|
                0 <= i2 < cur@.len() ==> 1 <= (#[trigger] cur@[i2]).0.1 && 1 <= cur@[i2].0.2,
            chain.len() == rd + 1,
            chain[0] == ss,
            forall|i2: int|
                0 < i2 < chain.len() ==> step_ok(ss, chain[i2 - 1], #[trigger] chain[i2]),
            cur@ == chain.last(),
            stable ==> propagation_fixpoint(ss, cur@),
        ensures
            chain.len() <= max_rounds + 1,
            chain.len() >= 1,
            chain[0] == ss,
            stable || chain.len() == max_rounds + 1,
            forall|i2: int|
                0 < i2 < chain.len() ==> step_ok(ss, chain[i2 - 1], #[trigger] chain[i2]),
            cur@ == chain.last(),
            stable ==> propagation_fixpoint(ss, cur@),
            is_set(cur@),
        decreases max_rounds - rd,
    {
        let next = propagate_round(start, &cur);
        if same_cands(&next, &cur) {
            stable = true;
            proof {
                assert forall|c: Cand|
                    #[trigger] has_val(cur@, c) <==> has_val(ss, c) && !excluded(cur@, c) by {
                    assert(has_val(next@, c) <==> has_val(ss, c) && !excluded(cur@, c));
                }
            }
            break;
        }
        proof {
            chain = chain.push(next@);
            assert(chain.last() == next@);
            assert(chain[0] == ss);
            assert forall|i2: int|
                0 < i2 < chain.len() implies step_ok(ss, chain[i2 - 1], #[trigger] chain[i2]) by {
                if i2 < chain.len() - 1 {
                    assert(chain[i2] == chain.drop_last()[i2]);
                    assert(chain[i2 - 1] == chain.drop_last()[i2 - 1]);
                } else {
                    assert(chain[i2] == next@);
                    assert(chain[i2 - 1] == cur@);
                }
            }
        }
        cur = next;
        rd += 1;
    }
    proof {
        let rounds = (chain.len() - 1) as u64;
        assert(propagation_run(ss, cur@, rounds)) by {
            assert(chain.len() == rounds + 1 && chain[0] == ss && (forall|i2: int|
                0 < i2 < chain.len() ==> step_ok(ss, chain[i2 - 1], #[trigger] chain[i2]))
                && cur@ == chain.last());
        }
        assert(rounds <= max_rounds && (rounds < max_rounds ==> stable));
        assert(propagation_outcome(ss, cur@, stable, max_rounds)) by {
            assert(rounds <= max_rounds && propagation_run(ss, cur@, rounds) && (rounds
                < max_rounds ==> stable));
        }
    }
    (cur, stable)
}

} // verus!
