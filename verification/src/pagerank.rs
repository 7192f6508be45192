//! Bounded-surfer page ranking over integer counts. Every node starts with
//! a large stock of surfers; each round a node sends each of its out-edges
//! five sixths of its stock divided by its out-degree (rounded down), and
//! every node receives a fixed reset injection. The integer arithmetic
//! keeps the computation deterministic; the rounding-down loses surfers, so
//! without the reset the total never grows.

use vstd::prelude::*;
use vstd::arithmetic::div_mod::{lemma_fundamental_div_mod, lemma_div_pos_is_pos, lemma_mod_bound};
use crate::collection::Collection;
use crate::diff::{has_val, is_set};
use crate::connected::{idx_of, distinct_seq};
use crate::{Node, Edge, Iter};

verus! {

/// Surfers seeded at each node.
pub const INIT_SURFERS: i64 = 6_000_000;

/// Surfers injected at each node every round.
pub const RESET_SURFERS: i64 = 1_000_000;

/// How many of the first `k` recorded edges leave `u`.
pub open spec fn deg_upto(es: Seq<(Edge, i64)>, u: Node, k: int) -> int
    decreases k,
{
    if k <= 0 {
        0
    } else {
        deg_upto(es, u, k - 1) + if es[k - 1].0.0 == u {
            1int
        } else {
            0int
        }
    }
}

/// The out-degree of `u`.
pub open spec fn deg_of(es: Seq<(Edge, i64)>, u: Node) -> int {
    deg_upto(es, u, es.len() as int)
}

/// What one out-edge of a node with stock `s` and out-degree `d` carries.
pub open spec fn push_amt(s: int, d: int) -> int {
    if d > 0 {
        (5 * s) / (6 * d)
    } else {
        0
    }
}

/// The stock the list assigns to node `u`.
pub open spec fn stock_of(ns: Seq<Node>, ss: Seq<int>, u: Node) -> int {
    ss[idx_of(ns, u)]
}

/// What flows into `v` over the first `k` edges.
pub open spec fn in_flow(
    es: Seq<(Edge, i64)>,
    ns: Seq<Node>,
    ss: Seq<int>,
    v: Node,
    k: int,
) -> int
    decreases k,
{
    if k <= 0 {
        0
    } else {
        in_flow(es, ns, ss, v, k - 1) + if es[k - 1].0.1 == v {
            push_amt(stock_of(ns, ss, es[k - 1].0.0), deg_of(es, es[k - 1].0.0))
        } else {
            0
        }
    }
}

/// One round: everyone pushes, everyone receives its inflow plus the reset.
pub open spec fn round(es: Seq<(Edge, i64)>, ns: Seq<Node>, ss: Seq<int>, reset: int) -> Seq<
    int,
> {
    Seq::new(ns.len(), |i: int| reset + in_flow(es, ns, ss, ns[i], es.len() as int))
}

/// The surfer stocks after `k` rounds from the seeded start.
pub open spec fn surfers_at(es: Seq<(Edge, i64)>, ns: Seq<Node>, k: nat) -> Seq<int>
    decreases k,
{
    if k == 0 {
        Seq::new(ns.len(), |i: int| INIT_SURFERS as int)
    } else {
        round(es, ns, surfers_at(es, ns, (k - 1) as nat), RESET_SURFERS as int)
    }
}

/// The total stock.
pub open spec fn total(ss: Seq<int>) -> int
    decreases ss.len(),
{
    if ss.len() == 0 {
        0
    } else {
        total(ss.drop_last()) + ss.last()
    }
}

/// A push is never negative and never exceeds the stock; six times what a
/// node sends in all (degree times one push) stays within five times its
/// stock — the rounding only loses surfers.
pub proof fn lemma_push_bounds(s: int, d: int)
    requires
        s >= 0,
        d >= 0,
    ensures
        push_amt(s, d) >= 0,
        push_amt(s, d) <= s,
        6 * (d * push_amt(s, d)) <= 5 * s,
{
    if d > 0 {
        let q = push_amt(s, d);
        lemma_div_pos_is_pos(5 * s, 6 * d);
        lemma_fundamental_div_mod(5 * s, 6 * d);
        lemma_mod_bound(5 * s, 6 * d);
        assert(5 * s == (6 * d) * q + (5 * s) % (6 * d));
        assert((6 * d) * q <= 5 * s);
        assert(6 * (d * q) == (6 * d) * q) by (nonlinear_arith);
        assert(q <= s) by (nonlinear_arith)
            requires (6 * d) * q <= 5 * s, q >= 0, d > 0, s >= 0;
    }
}

/// Sum of the inflows of the first `m` nodes over the first `k` edges.
spec fn sum_in(es: Seq<(Edge, i64)>, ns: Seq<Node>, ss: Seq<int>, k: int, m: int) -> int
    decreases m,
{
    if m <= 0 {
        0
    } else {
        sum_in(es, ns, ss, k, m - 1) + in_flow(es, ns, ss, ns[m - 1], k)
    }
}

/// Sum of what the first `k` edges carry.
spec fn sum_push(es: Seq<(Edge, i64)>, ns: Seq<Node>, ss: Seq<int>, k: int) -> int
    decreases k,
{
    if k <= 0 {
        0
    } else {
        sum_push(es, ns, ss, k - 1) + push_amt(
            stock_of(ns, ss, es[k - 1].0.0),
            deg_of(es, es[k - 1].0.0),
        )
    }
}

/// One more edge adds its carry to exactly one node's inflow.
proof fn lemma_sum_in_step(es: Seq<(Edge, i64)>, ns: Seq<Node>, ss: Seq<int>, k: int, m: int)
    requires
        1 <= k <= es.len(),
        distinct_seq(ns),
        0 <= m <= ns.len(),
    ensures
        sum_in(es, ns, ss, k, m) == sum_in(es, ns, ss, k - 1, m) + (if exists|i: int|
            0 <= i < m && ns[i] == es[k - 1].0.1 {
            push_amt(stock_of(ns, ss, es[k - 1].0.0), deg_of(es, es[k - 1].0.0))
        } else {
            0
        }),
    decreases m,
{
    if m > 0 {
        lemma_sum_in_step(es, ns, ss, k, m - 1);
        let tgt = es[k - 1].0.1;
        if ns[m - 1] == tgt {
            assert(exists|i: int| 0 <= i < m && ns[i] == tgt) by {
                assert(ns[m - 1] == tgt);
            }
            if exists|i: int| 0 <= i < m - 1 && ns[i] == tgt {
                let i = choose|i: int| 0 <= i < m - 1 && ns[i] == tgt;
                assert(false);
            }
        } else {
            if exists|i: int| 0 <= i < m && ns[i] == tgt {
                let i = choose|i: int| 0 <= i < m && ns[i] == tgt;
                assert(exists|i2: int| 0 <= i2 < m - 1 && ns[i2] == tgt) by {
                    assert(ns[i] == tgt && i < m - 1);
                }
            }
        }
    }
}

/// Every edge's carry lands somewhere: inflows sum to pushes.
proof fn lemma_exchange_in(es: Seq<(Edge, i64)>, ns: Seq<Node>, ss: Seq<int>, k: int)
    requires
        distinct_seq(ns),
        0 <= k <= es.len(),
        forall|j: int| 0 <= j < es.len() ==> ns.contains((#[trigger] es[j]).0.1),
    ensures
        sum_in(es, ns, ss, k, ns.len() as int) == sum_push(es, ns, ss, k),
    decreases k,
{
    if k == 0 {
        lemma_sum_in_zero(es, ns, ss, ns.len() as int);
    } else {
        lemma_exchange_in(es, ns, ss, k - 1);
        lemma_sum_in_step(es, ns, ss, k, ns.len() as int);
        assert(ns.contains(es[k - 1].0.1));
        let i = choose|i: int| 0 <= i < ns.len() && ns[i] == es[k - 1].0.1;
        assert(exists|i2: int| 0 <= i2 < ns.len() && ns[i2] == es[k - 1].0.1) by {
            assert(ns[i] == es[k - 1].0.1);
        }
    }
}

proof fn lemma_sum_in_zero(es: Seq<(Edge, i64)>, ns: Seq<Node>, ss: Seq<int>, m: int)
    ensures
        sum_in(es, ns, ss, 0, m) == 0,
    decreases m,
{
    if m > 0 {
        lemma_sum_in_zero(es, ns, ss, m - 1);
    }
}

/// Degree-weighted carries of the first `m` nodes, over the first `k`
/// edges' worth of degree.
spec fn sum_out(es: Seq<(Edge, i64)>, ns: Seq<Node>, ss: Seq<int>, k: int, m: int) -> int
    decreases m,
{
    if m <= 0 {
        0
    } else {
        sum_out(es, ns, ss, k, m - 1) + deg_upto(es, ns[m - 1], k) * push_amt(
            ss[m - 1],
            deg_of(es, ns[m - 1]),
        )
    }
}

proof fn lemma_sum_out_zero(es: Seq<(Edge, i64)>, ns: Seq<Node>, ss: Seq<int>, m: int)
    ensures
        sum_out(es, ns, ss, 0, m) == 0,
    decreases m,
{
    if m > 0 {
        lemma_sum_out_zero(es, ns, ss, m - 1);
        assert(deg_upto(es, ns[m - 1], 0) == 0);
    }
}

/// One more edge adds one degree-weighted carry at exactly its source.
proof fn lemma_sum_out_step(es: Seq<(Edge, i64)>, ns: Seq<Node>, ss: Seq<int>, k: int, m: int)
    requires
        1 <= k <= es.len(),
        distinct_seq(ns),
        0 <= m <= ns.len(),
        ss.len() == ns.len(),
    ensures
        sum_out(es, ns, ss, k, m) == sum_out(es, ns, ss, k - 1, m) + (if exists|i: int|
            0 <= i < m && ns[i] == es[k - 1].0.0 {
            push_amt(stock_of(ns, ss, es[k - 1].0.0), deg_of(es, es[k - 1].0.0))
        } else {
            0
        }),
    decreases m,
{
    if m > 0 {
        lemma_sum_out_step(es, ns, ss, k, m - 1);
        let src = es[k - 1].0.0;
        if ns[m - 1] == src {
            assert(deg_upto(es, ns[m - 1], k) == deg_upto(es, ns[m - 1], k - 1) + 1);
            assert(exists|i: int| 0 <= i < m && ns[i] == src) by {
                assert(ns[m - 1] == src);
            }
            if exists|i: int| 0 <= i < m - 1 && ns[i] == src {
                let i = choose|i: int| 0 <= i < m - 1 && ns[i] == src;
                assert(false);
            }
            assert(stock_of(ns, ss, src) == ss[m - 1]) by {
                crate::connected::lemma_idx_self(ns, m - 1);
            }
            assert((deg_upto(es, ns[m - 1], k - 1) + 1) * push_amt(ss[m - 1], deg_of(es, src))
                == deg_upto(es, ns[m - 1], k - 1) * push_amt(ss[m - 1], deg_of(es, src))
                + push_amt(ss[m - 1], deg_of(es, src))) by (nonlinear_arith);
        } else {
            assert(deg_upto(es, ns[m - 1], k) == deg_upto(es, ns[m - 1], k - 1));
            if exists|i: int| 0 <= i < m && ns[i] == src {
                let i = choose|i: int| 0 <= i < m && ns[i] == src;
                assert(exists|i2: int| 0 <= i2 < m - 1 && ns[i2] == src) by {
                    assert(ns[i] == src && i < m - 1);
                }
            }
        }
    }
}

/// Every edge's carry is charged to its source: pushes sum to the
/// degree-weighted carries.
proof fn lemma_exchange_out(es: Seq<(Edge, i64)>, ns: Seq<Node>, ss: Seq<int>, k: int)
    requires
        distinct_seq(ns),
        0 <= k <= es.len(),
        ss.len() == ns.len(),
        forall|j: int| 0 <= j < es.len() ==> ns.contains((#[trigger] es[j]).0.0),
    ensures
        sum_push(es, ns, ss, k) == sum_out(es, ns, ss, k, ns.len() as int),
    decreases k,
{
    if k == 0 {
        lemma_sum_out_zero(es, ns, ss, ns.len() as int);
    } else {
        lemma_exchange_out(es, ns, ss, k - 1);
        lemma_sum_out_step(es, ns, ss, k, ns.len() as int);
        assert(ns.contains(es[k - 1].0.0));
        let i = choose|i: int| 0 <= i < ns.len() && ns[i] == es[k - 1].0.0;
        assert(exists|i2: int| 0 <= i2 < ns.len() && ns[i2] == es[k - 1].0.0) by {
            assert(ns[i] == es[k - 1].0.0);
        }
    }
}

/// Six times the degree-weighted carries stay within five times the stock.
proof fn lemma_sum_out_le(es: Seq<(Edge, i64)>, ns: Seq<Node>, ss: Seq<int>, m: int)
    requires
        0 <= m <= ns.len(),
        ss.len() == ns.len(),
        forall|i: int| 0 <= i < ss.len() ==> ss[i] >= 0,
    ensures
        0 <= sum_out(es, ns, ss, es.len() as int, m),
        6 * sum_out(es, ns, ss, es.len() as int, m) <= 5 * partial_total(ss, m),
    decreases m,
{
    if m > 0 {
        lemma_sum_out_le(es, ns, ss, m - 1);
        let d = deg_upto(es, ns[m - 1], es.len() as int);
        lemma_deg_nonneg(es, ns[m - 1], es.len() as int);
        lemma_push_bounds(ss[m - 1], deg_of(es, ns[m - 1]));
        assert(d * push_amt(ss[m - 1], deg_of(es, ns[m - 1])) >= 0) by (nonlinear_arith)
            requires d >= 0, push_amt(ss[m - 1], deg_of(es, ns[m - 1])) >= 0;
    }
}

/// Stock of the first `m` nodes.
pub open spec fn partial_total(ss: Seq<int>, m: int) -> int
    decreases m,
{
    if m <= 0 {
        0
    } else {
        partial_total(ss, m - 1) + ss[m - 1]
    }
}

proof fn lemma_deg_nonneg(es: Seq<(Edge, i64)>, u: Node, k: int)
    ensures
        deg_upto(es, u, k) >= 0,
    decreases k,
{
    if k > 0 {
        lemma_deg_nonneg(es, u, k - 1);
    }
}

proof fn lemma_deg_le_len(es: Seq<(Edge, i64)>, u: Node, k: int)
    ensures
        deg_upto(es, u, k) <= if k >= 0 {
            k
        } else {
            0
        },
    decreases k,
{
    if k > 0 {
        lemma_deg_le_len(es, u, k - 1);
    }
}

/// Inflows are nonnegative and each is at most the sum of all pushes.
proof fn lemma_in_flow_bounds(es: Seq<(Edge, i64)>, ns: Seq<Node>, ss: Seq<int>, v: Node, k: int)
    requires
        ss.len() == ns.len(),
        forall|i: int| 0 <= i < ss.len() ==> ss[i] >= 0,
        forall|j: int| 0 <= j < es.len() ==> ns.contains((#[trigger] es[j]).0.0),
        distinct_seq(ns),
        0 <= k <= es.len(),
    ensures
        0 <= in_flow(es, ns, ss, v, k),
        in_flow(es, ns, ss, v, k) <= sum_push(es, ns, ss, k),
    decreases k,
{
    if k > 0 {
        lemma_in_flow_bounds(es, ns, ss, v, k - 1);
        let src = es[k - 1].0.0;
        assert(ns.contains(src));
        let i = choose|i: int| 0 <= i < ns.len() && ns[i] == src;
        crate::connected::lemma_idx_self(ns, i);
        assert(stock_of(ns, ss, src) == ss[i]);
        lemma_deg_nonneg(es, src, es.len() as int);
        lemma_push_bounds(ss[i], deg_of(es, src));
    }
}

/// The budget law: the sum of all pushes stays within five sixths of the
/// total stock, so a round without resets cannot grow the total.
proof fn lemma_push_budget(es: Seq<(Edge, i64)>, ns: Seq<Node>, ss: Seq<int>)
    requires
        distinct_seq(ns),
        ss.len() == ns.len(),
        forall|i: int| 0 <= i < ss.len() ==> ss[i] >= 0,
        forall|j: int| 0 <= j < es.len() ==> ns.contains((#[trigger] es[j]).0.0),
    ensures
        0 <= sum_push(es, ns, ss, es.len() as int),
        6 * sum_push(es, ns, ss, es.len() as int) <= 5 * total(ss),
{
    lemma_exchange_out(es, ns, ss, es.len() as int);
    lemma_sum_out_le(es, ns, ss, ns.len() as int);
    lemma_total_partial(ss, ss.len() as int);
    lemma_sum_push_nonneg(es, ns, ss, es.len() as int);
}

proof fn lemma_sum_push_nonneg(es: Seq<(Edge, i64)>, ns: Seq<Node>, ss: Seq<int>, k: int)
    requires
        ss.len() == ns.len(),
        forall|i: int| 0 <= i < ss.len() ==> ss[i] >= 0,
        distinct_seq(ns),
        forall|j: int| 0 <= j < es.len() ==> ns.contains((#[trigger] es[j]).0.0),
        0 <= k <= es.len(),
    ensures
        sum_push(es, ns, ss, k) >= 0,
    decreases k,
{
    if k > 0 {
        lemma_sum_push_nonneg(es, ns, ss, k - 1);
        let src = es[k - 1].0.0;
        assert(ns.contains(src));
        let i = choose|i: int| 0 <= i < ns.len() && ns[i] == src;
        crate::connected::lemma_idx_self(ns, i);
        lemma_deg_nonneg(es, src, es.len() as int);
        lemma_push_bounds(ss[i], deg_of(es, src));
        assert(stock_of(ns, ss, src) == ss[i]);
    }
}

proof fn lemma_total_partial(ss: Seq<int>, m: int)
    requires
        0 <= m <= ss.len(),
        m == ss.len(),
    ensures
        partial_total(ss, m) == total(ss),
    decreases m,
{
    lemma_total_partial_rec(ss, m);
    assert(ss.take(m) =~= ss);
}

proof fn lemma_total_partial_rec(ss: Seq<int>, m: int)
    requires
        0 <= m <= ss.len(),
    ensures
        partial_total(ss, m) == total(ss.take(m)),
    decreases m,
{
    if m > 0 {
        lemma_total_partial_rec(ss, m - 1);
        assert(ss.take(m).drop_last() =~= ss.take(m - 1));
        assert(ss.take(m).last() == ss[m - 1]);
    } else {
        assert(ss.take(0) =~= Seq::<int>::empty());
    }
    if m == ss.len() {
        assert(ss.take(m) =~= ss);
    }
}

/// The conservation law of a round: with the reset set to zero, the total
/// surfer count never increases; with any reset, every stock stays at or
/// above the reset, so it is nonnegative at every round.
pub proof fn lemma_round_conserves(
    es: Seq<(Edge, i64)>,
    ns: Seq<Node>,
    ss: Seq<int>,
    reset: int,
)
    requires
        distinct_seq(ns),
        ss.len() == ns.len(),
        forall|i: int| 0 <= i < ss.len() ==> ss[i] >= 0,
        reset >= 0,
        forall|j: int|
            0 <= j < es.len() ==> ns.contains((#[trigger] es[j]).0.0) && ns.contains(es[j].0.1),
    ensures
        round(es, ns, ss, reset).len() == ns.len(),
        forall|i: int| 0 <= i < ns.len() ==> #[trigger] round(es, ns, ss, reset)[i] >= reset,
        total(round(es, ns, ss, reset)) <= ns.len() * reset + total(ss),
        reset == 0 ==> total(round(es, ns, ss, reset)) <= total(ss),
{
    let r = round(es, ns, ss, reset);
    assert forall|i: int| 0 <= i < ns.len() implies #[trigger] r[i] >= reset by {
        lemma_in_flow_bounds(es, ns, ss, ns[i], es.len() as int);
    }
    lemma_round_total(es, ns, ss, reset, ns.len() as int);
    lemma_exchange_in(es, ns, ss, es.len() as int);
    lemma_push_budget(es, ns, ss);
    lemma_total_partial(ss, ss.len() as int);
    assert(partial_total(r, ns.len() as int) == ns.len() * reset + sum_in(
        es,
        ns,
        ss,
        es.len() as int,
        ns.len() as int,
    ));
    assert(total(r) == partial_total(r, r.len() as int)) by {
        lemma_total_partial(r, r.len() as int);
    }
    assert(6 * sum_push(es, ns, ss, es.len() as int) <= 5 * total(ss));
    assert(sum_push(es, ns, ss, es.len() as int) <= total(ss)) by (nonlinear_arith)
        requires
            6 * sum_push(es, ns, ss, es.len() as int) <= 5 * total(ss),
            sum_push(es, ns, ss, es.len() as int) >= 0,
    ;
}

/// The round total splits into resets plus inflows.
proof fn lemma_round_total(es: Seq<(Edge, i64)>, ns: Seq<Node>, ss: Seq<int>, reset: int, m: int)
    requires
        0 <= m <= ns.len(),
    ensures
        partial_total(round(es, ns, ss, reset), m) == m * reset + sum_in(
            es,
            ns,
            ss,
            es.len() as int,
            m,
        ),
    decreases m,
{
    if m > 0 {
        lemma_round_total(es, ns, ss, reset, m - 1);
        let r = round(es, ns, ss, reset);
        assert(r[m - 1] == reset + in_flow(es, ns, ss, ns[m - 1], es.len() as int));
        assert(partial_total(r, m) == partial_total(r, m - 1) + r[m - 1]);
        assert(sum_in(es, ns, ss, es.len() as int, m) == sum_in(es, ns, ss, es.len() as int, m - 1)
            + in_flow(es, ns, ss, ns[m - 1], es.len() as int));
        assert(m * reset == (m - 1) * reset + reset) by (nonlinear_arith);
    } else {
        assert(m * reset == 0) by (nonlinear_arith)
            requires m == 0;
    }
}

/// Surfer stocks are nonnegative at every round, and the total never
/// exceeds the seeded total: each round keeps the books balanced.
pub proof fn lemma_surfers_invariant(es: Seq<(Edge, i64)>, ns: Seq<Node>, k: nat)
    requires
        distinct_seq(ns),
        forall|j: int|
            0 <= j < es.len() ==> ns.contains((#[trigger] es[j]).0.0) && ns.contains(es[j].0.1),
    ensures
        surfers_at(es, ns, k).len() == ns.len(),
        forall|i: int| 0 <= i < ns.len() ==> #[trigger] surfers_at(es, ns, k)[i] >= 0,
        total(surfers_at(es, ns, k)) <= ns.len() * (INIT_SURFERS as int),
        k > 0 ==> forall|i: int|
            0 <= i < ns.len() ==> #[trigger] surfers_at(es, ns, k)[i] >= RESET_SURFERS as int,
    decreases k,
{
    if k == 0 {
        lemma_const_total(ns.len() as int, INIT_SURFERS as int);
    } else {
        lemma_surfers_invariant(es, ns, (k - 1) as nat);
        let prev = surfers_at(es, ns, (k - 1) as nat);
        lemma_round_conserves(es, ns, prev, RESET_SURFERS as int);
        assert(total(surfers_at(es, ns, k)) <= ns.len() * (RESET_SURFERS as int) + total(prev));
        assert(ns.len() * (RESET_SURFERS as int) + ns.len() * (INIT_SURFERS as int - RESET_SURFERS as int)
            == ns.len() * (INIT_SURFERS as int)) by (nonlinear_arith);
        // the round never grows the total beyond resets plus five sixths
        // of the previous stock, which the seeded total absorbs.
        lemma_round_tight(es, ns, prev);
    }
}

/// The tighter bound: a round's total is at most the resets plus five
/// sixths of the previous total.
proof fn lemma_round_tight(es: Seq<(Edge, i64)>, ns: Seq<Node>, ss: Seq<int>)
    requires
        distinct_seq(ns),
        ss.len() == ns.len(),
        forall|i: int| 0 <= i < ss.len() ==> ss[i] >= 0,
        total(ss) <= ns.len() * (INIT_SURFERS as int),
        forall|j: int|
            0 <= j < es.len() ==> ns.contains((#[trigger] es[j]).0.0) && ns.contains(es[j].0.1),
    ensures
        total(round(es, ns, ss, RESET_SURFERS as int)) <= ns.len() * (INIT_SURFERS as int),
{
    let n = ns.len() as int;
    lemma_round_total(es, ns, ss, RESET_SURFERS as int, n);
    lemma_exchange_in(es, ns, ss, es.len() as int);
    lemma_push_budget(es, ns, ss);
    let r = round(es, ns, ss, RESET_SURFERS as int);
    lemma_total_partial(r, r.len() as int);
    let sp = sum_push(es, ns, ss, es.len() as int);
    assert(total(r) == n * (RESET_SURFERS as int) + sp);
    assert(6 * sp <= 5 * total(ss));
    assert(total(r) <= n * (INIT_SURFERS as int)) by (nonlinear_arith)
        requires
            total(r) == n * (RESET_SURFERS as int) + sp,
            6 * sp <= 5 * total(ss),
            total(ss) <= n * (INIT_SURFERS as int),
            sp >= 0,
            n >= 0,
            INIT_SURFERS == 6 * RESET_SURFERS,
    ;
}

proof fn lemma_const_total(m: int, v: int)
    requires
        0 <= m,
    ensures
        total(Seq::new(m as nat, |i: int| v)) == m * v,
    decreases m,
{
    let s = Seq::new(m as nat, |i: int| v);
    if m > 0 {
        lemma_const_total(m - 1, v);
        assert(s.drop_last() =~= Seq::new((m - 1) as nat, |i: int| v));
        assert(s.last() == v) by {
            assert(s[m - 1] == v);
        }
        assert(m * v == (m - 1) * v + v) by (nonlinear_arith);
    } else {
        assert(s.len() == 0);
    }
}


/// The integer reading of a stock vector.
pub open spec fn ints_of(ss: Seq<i64>) -> Seq<int> {
    Seq::new(ss.len(), |i: int| ss[i] as int)
}

/// A nonnegative entry is at most the total.
proof fn lemma_entry_le_total(ss: Seq<int>, i: int)
    requires
        0 <= i < ss.len(),
        forall|j: int| 0 <= j < ss.len() ==> ss[j] >= 0,
    ensures
        ss[i] <= total(ss),
    decreases ss.len(),
{
    if i == ss.len() - 1 {
        lemma_total_nonneg(ss.drop_last());
    } else {
        assert(forall|j: int| 0 <= j < ss.len() - 1 ==> #[trigger] ss.drop_last()[j] == ss[j]);
        lemma_entry_le_total(ss.drop_last(), i);
    }
}

proof fn lemma_total_nonneg(ss: Seq<int>)
    requires
        forall|j: int| 0 <= j < ss.len() ==> ss[j] >= 0,
    ensures
        total(ss) >= 0,
    decreases ss.len(),
{
    if ss.len() > 0 {
        assert(forall|j: int| 0 <= j < ss.len() - 1 ==> #[trigger] ss.drop_last()[j] == ss[j]);
        lemma_total_nonneg(ss.drop_last());
    }
}

/// Later prefixes carry no less.
proof fn lemma_sum_push_mono(es: Seq<(Edge, i64)>, ns: Seq<Node>, ss: Seq<int>, k1: int, k2: int)
    requires
        distinct_seq(ns),
        ss.len() == ns.len(),
        forall|i: int| 0 <= i < ss.len() ==> ss[i] >= 0,
        forall|j: int| 0 <= j < es.len() ==> ns.contains((#[trigger] es[j]).0.0),
        0 <= k1 <= k2 <= es.len(),
    ensures
        sum_push(es, ns, ss, k1) <= sum_push(es, ns, ss, k2),
    decreases k2 - k1,
{
    if k1 < k2 {
        lemma_sum_push_mono(es, ns, ss, k1, k2 - 1);
        let src = es[k2 - 1].0.0;
        assert(ns.contains(src));
        let i = choose|i: int| 0 <= i < ns.len() && ns[i] == src;
        crate::connected::lemma_idx_self(ns, i);
        lemma_deg_nonneg(es, src, es.len() as int);
        lemma_push_bounds(ss[i], deg_of(es, src));
        assert(stock_of(ns, ss, src) == ss[i]);
    }
}

/// Bounded-surfer page ranking: runs the push-and-reset round the given
/// number of times (at least one) and returns each node's surfer count,
/// pinned exactly to the arithmetic of the rounds. Every count is at least
/// the reset injection, hence strictly positive.
pub fn pagerank(iters: Iter, nodes: &Collection<Node>, edges: &Collection<Edge>) -> (r: Collection<
    (Node, i64),
>)
    requires
        iters >= 1,
        is_set(nodes@),
        is_set(edges@),
        nodes@.len() <= 0x10000,
        edges@.len() <= 0x1000_0000,
        forall|k: int|
            0 <= k < edges@.len() ==> has_val(nodes@, (#[trigger] edges@[k]).0.0) && has_val(
                nodes@,
                edges@[k].0.1,
            ),
    ensures
        is_set(r@),
        r@.len() == nodes@.len(),
        forall|i: int| 0 <= i < r@.len() ==> (#[trigger] r@[i]).0.0 == nodes@[i].0,
        forall|i: int|
            0 <= i < r@.len() ==> (#[trigger] r@[i]).0.1 as int == surfers_at(
                edges@,
                crate::diff::vals_of(nodes@),
                iters as nat,
            )[i],
        forall|i: int| 0 <= i < r@.len() ==> (#[trigger] r@[i]).0.1 >= RESET_SURFERS,
{
    let ghost es = edges@;
    let n = nodes.len();

    let mut ns: Vec<Node> = Vec::new();
    let mut i: usize = 0;
    while i < n
        invariant
            i <= n,
            n == nodes@.len(),
            is_set(nodes@),
            ns@.len() == i,
            forall|j: int| 0 <= j < i ==> ns@[j] == (#[trigger] nodes@[j]).0,
        decreases n - i,
    {
        ns.push(nodes.get(i).0);
        i += 1;
    }
    let ghost rs = ns@;
    proof {
        assert(rs =~= crate::diff::vals_of(nodes@));
        assert forall|a: int, b: int| 0 <= a < b < rs.len() implies rs[a] != rs[b] by {
            assert(nodes@[a].0 != nodes@[b].0);
        }
        assert forall|v: Node| has_val(nodes@, v) implies rs.contains(v) by {
            let j = choose|j: int| 0 <= j < nodes@.len() && (#[trigger] nodes@[j]).0 == v;
            assert(rs[j] == v);
        }
        assert forall|j: int|
            0 <= j < es.len() implies rs.contains((#[trigger] es[j]).0.0) && rs.contains(
            es[j].0.1,
        ) by {
            assert(has_val(nodes@, es[j].0.0) && has_val(nodes@, es[j].0.1));
        }
    }

    let ne = edges.len();
    let mut eix: Vec<(usize, usize)> = Vec::new();
    let mut k: usize = 0;
    while k < ne
        invariant
            k <= ne,
            ne == es.len(),
            edges@ == es,
            n == ns@.len(),
            distinct_seq(ns@),
            forall|v: Node| has_val(nodes@, v) ==> ns@.contains(v),
            forall|j: int|
                0 <= j < es.len() ==> has_val(nodes@, (#[trigger] es[j]).0.0) && has_val(
                    nodes@,
                    es[j].0.1,
                ),
            eix@.len() == k,
            forall|j: int|
                0 <= j < k ==> (#[trigger] eix@[j]).0 < n && eix@[j].1 < n && ns@[eix@[j].0 as int]
                    == es[j].0.0 && ns@[eix@[j].1 as int] == es[j].0.1,
        decreases ne - k,
    {
        let (u, v) = edges.get(k).0;
        proof {
            assert(es[k as int].0 == (u, v));
        }
        let iu = crate::connected::find_index(&ns, u);
        let iv = crate::connected::find_index(&ns, v);
        eix.push((iu, iv));
        k += 1;
    }

    // Out-degrees, one scan per node.
    let mut degs: Vec<i64> = Vec::new();
    let mut i2: usize = 0;
    while i2 < n
        invariant
            i2 <= n,
            n == ns@.len(),
            ne == es.len(),
            distinct_seq(ns@),
            eix@.len() == ne,
            forall|j: int|
                0 <= j < ne ==> (#[trigger] eix@[j]).0 < n && eix@[j].1 < n && ns@[eix@[j].0 as int]
                    == es[j].0.0 && ns@[eix@[j].1 as int] == es[j].0.1,
            ne == es.len(),
            ne <= 0x1000_0000,
            degs@.len() == i2,
            forall|j: int| 0 <= j < i2 ==> #[trigger] degs@[j] as int == deg_of(es, ns@[j]),
            forall|j: int| 0 <= j < i2 ==> #[trigger] degs@[j] >= 0,
        decreases n - i2,
    {
        let mut cnt: i64 = 0;
        let mut j2: usize = 0;
        while j2 < ne
            invariant
                j2 <= ne,
                ne == es.len(),
                ne <= 0x1000_0000,
                i2 < n,
                n == ns@.len(),
                distinct_seq(ns@),
                eix@.len() == ne,
                forall|j: int|
                    0 <= j < ne ==> (#[trigger] eix@[j]).0 < n && eix@[j].1 < n
                        && ns@[eix@[j].0 as int] == es[j].0.0 && ns@[eix@[j].1 as int]
                        == es[j].0.1,
                0 <= cnt,
                cnt as int == deg_upto(es, ns@[i2 as int], j2 as int),
                cnt <= j2,
            decreases ne - j2,
        {
            proof {
                if es[j2 as int].0.0 == ns@[i2 as int] {
                    assert(ns@[eix@[j2 as int].0 as int] == ns@[i2 as int]);
                    if eix@[j2 as int].0 != i2 {
                        assert(false);
                    }
                }
            }
            let (si, _) = eix[j2];
            if si == i2 {
                cnt += 1;
            }
            j2 += 1;
        }
        degs.push(cnt);
        i2 += 1;
    }

    // Seed, then run the rounds.
    let mut ss: Vec<i64> = Vec::new();
    let mut i3: usize = 0;
    while i3 < n
        invariant
            i3 <= n,
            ss@.len() == i3,
            forall|j: int| 0 <= j < i3 ==> ss@[j] == INIT_SURFERS,
        decreases n - i3,
    {
        ss.push(INIT_SURFERS);
        i3 += 1;
    }
    proof {
        assert(ints_of(ss@) =~= surfers_at(es, rs, 0));
    }

    let mut rd: Iter = 0;
    while rd < iters
        invariant
            rd <= iters,
            n == ns@.len(),
            ne == es.len(),
            ne <= 0x1000_0000,
            n <= 0x10000,
            distinct_seq(ns@),
            eix@.len() == ne,
            forall|j: int|
                0 <= j < ne ==> (#[trigger] eix@[j]).0 < n && eix@[j].1 < n && ns@[eix@[j].0 as int]
                    == es[j].0.0 && ns@[eix@[j].1 as int] == es[j].0.1,
            degs@.len() == n,
            forall|j: int| 0 <= j < n ==> #[trigger] degs@[j] as int == deg_of(es, ns@[j]),
            forall|j: int| 0 <= j < n ==> #[trigger] degs@[j] >= 0,
            forall|j: int|
                0 <= j < es.len() ==> rs.contains((#[trigger] es[j]).0.0) && rs.contains(
                    es[j].0.1,
                ),
            rs == ns@,
            ss@.len() == n,
            ints_of(ss@) == surfers_at(es, rs, rd as nat),
        decreases iters - rd,
    {
        let ghost cur = ints_of(ss@);
        proof {
            lemma_surfers_invariant(es, rs, rd as nat);
            assert(forall|j: int| 0 <= j < n ==> #[trigger] cur[j] >= 0);
            assert(forall|j: int| 0 <= j < n ==> #[trigger] cur[j] == ss@[j] as int);
            assert(total(cur) <= n * (INIT_SURFERS as int));
            lemma_push_budget(es, rs, cur);
        }
        let mut nss: Vec<i64> = Vec::new();
        let mut i4: usize = 0;
        while i4 < n
            invariant
                i4 <= n,
                n == ns@.len(),
                ne == es.len(),
                ne <= 0x1000_0000,
                n <= 0x10000,
                distinct_seq(ns@),
                eix@.len() == ne,
                forall|j: int|
                    0 <= j < ne ==> (#[trigger] eix@[j]).0 < n && eix@[j].1 < n
                        && ns@[eix@[j].0 as int] == es[j].0.0 && ns@[eix@[j].1 as int]
                        == es[j].0.1,
                degs@.len() == n,
                forall|j: int| 0 <= j < n ==> #[trigger] degs@[j] as int == deg_of(es, ns@[j]),
                forall|j: int| 0 <= j < n ==> #[trigger] degs@[j] >= 0,
                forall|j: int|
                    0 <= j < es.len() ==> rs.contains((#[trigger] es[j]).0.0) && rs.contains(
                        es[j].0.1,
                    ),
                rs == ns@,
                ss@.len() == n,
                cur == ints_of(ss@),
                forall|j: int| 0 <= j < n ==> #[trigger] cur[j] == ss@[j] as int,
                forall|j: int| 0 <= j < n ==> #[trigger] cur[j] >= 0,
                total(cur) <= n * (INIT_SURFERS as int),
                6 * sum_push(es, rs, cur, ne as int) <= 5 * total(cur),
                0 <= sum_push(es, rs, cur, ne as int),
                nss@.len() == i4,
                forall|j: int|
                    0 <= j < i4 ==> #[trigger] nss@[j] as int == RESET_SURFERS + in_flow(
                        es,
                        rs,
                        cur,
                        rs[j],
                        ne as int,
                    ),
            decreases n - i4,
        {
            let mut acc: i64 = RESET_SURFERS;
            let mut j4: usize = 0;
            proof {
                lemma_total_nonneg(cur);
            }
            while j4 < ne
                invariant
                    j4 <= ne,
                    ne == es.len(),
                    ne <= 0x1000_0000,
                    i4 < n,
                    n == ns@.len(),
                    n <= 0x10000,
                    distinct_seq(ns@),
                    eix@.len() == ne,
                    forall|j: int|
                        0 <= j < ne ==> (#[trigger] eix@[j]).0 < n && eix@[j].1 < n
                            && ns@[eix@[j].0 as int] == es[j].0.0 && ns@[eix@[j].1 as int]
                            == es[j].0.1,
                    degs@.len() == n,
                    forall|j: int| 0 <= j < n ==> #[trigger] degs@[j] as int == deg_of(es, ns@[j]),
                    forall|j: int| 0 <= j < n ==> #[trigger] degs@[j] >= 0,
                    forall|j: int|
                        0 <= j < es.len() ==> rs.contains((#[trigger] es[j]).0.0) && rs.contains(
                            es[j].0.1,
                        ),
                    rs == ns@,
                    ss@.len() == n,
                    cur == ints_of(ss@),
                    forall|j: int| 0 <= j < n ==> #[trigger] cur[j] == ss@[j] as int,
                    forall|j: int| 0 <= j < n ==> #[trigger] cur[j] >= 0,
                    total(cur) <= n * (INIT_SURFERS as int),
                    total(cur) >= 0,
                    6 * sum_push(es, rs, cur, ne as int) <= 5 * total(cur),
                    0 <= sum_push(es, rs, cur, ne as int),
                    acc as int == RESET_SURFERS + in_flow(es, rs, cur, rs[i4 as int], j4 as int),
                    acc >= RESET_SURFERS,
                decreases ne - j4,
            {
                let (si, ti) = eix[j4];
                proof {
                    // this edge's carry, bridged to the spec's reading.
                    if es[j4 as int].0.1 == rs[i4 as int] {
                        assert(ns@[eix@[j4 as int].1 as int] == ns@[i4 as int]);
                        if eix@[j4 as int].1 != i4 {
                            assert(false);
                        }
                    }
                    if eix@[j4 as int].1 == i4 {
                        assert(es[j4 as int].0.1 == rs[i4 as int]);
                    }
                    crate::connected::lemma_idx_self(ns@, eix@[j4 as int].0 as int);
                    assert(stock_of(rs, cur, es[j4 as int].0.0) == cur[eix@[j4 as int].0 as int]);
                    lemma_in_flow_bounds(es, rs, cur, rs[i4 as int], j4 + 1);
                    lemma_in_flow_bounds(es, rs, cur, rs[i4 as int], j4 as int);
                    lemma_sum_push_mono(es, rs, cur, j4 + 1, ne as int);
                    lemma_deg_nonneg(es, es[j4 as int].0.0, es.len() as int);
                    lemma_push_bounds(cur[eix@[j4 as int].0 as int], deg_of(es, es[j4 as int].0.0));
                    assert(sum_push(es, rs, cur, ne as int) <= total(cur)) by (nonlinear_arith)
                        requires
                            6 * sum_push(es, rs, cur, ne as int) <= 5 * total(cur),
                            0 <= sum_push(es, rs, cur, ne as int),
                            total(cur) >= 0,
                    ;
                    assert(n * (INIT_SURFERS as int) <= 0x10000 * (INIT_SURFERS as int))
                        by (nonlinear_arith)
                        requires n <= 0x10000, INIT_SURFERS > 0;
                }
                if ti == i4 {
                    let s_src = ss[si];
                    let d = degs[si];
                    proof {
                        lemma_entry_le_total(cur, si as int);
                        assert(s_src as int == cur[si as int]);
                        assert(s_src as int <= n * (INIT_SURFERS as int));
                        assert(s_src as int <= 0x10000 * (INIT_SURFERS as int));
                        assert(d as int == deg_of(es, ns@[si as int]));
                        lemma_deg_le_len(es, ns@[si as int], es.len() as int);
                        assert(d as int <= es.len());
                        assert(s_src >= 0);
                        assert((s_src as u64) as int == s_src as int);
                        assert((d as u64) as int == d as int);
                    }
                    let p: i64 = if d > 0 {
                        (((5 * (s_src as u64)) / (6 * (d as u64))) as i64)
                    } else {
                        0
                    };
                    proof {
                        if d > 0 {
                            assert((5 * (s_src as u64)) as int == 5 * (s_src as int));
                            assert((6 * (d as u64)) as int == 6 * (d as int));
                            assert(p as int == push_amt(cur[si as int], deg_of(es, ns@[si as int])));
                        }
                    }
                    acc = acc + p;
                }
                j4 += 1;
            }
            proof {
                assert(in_flow(es, rs, cur, rs[i4 as int], ne as int) >= 0
                    && acc as int == RESET_SURFERS + in_flow(es, rs, cur, rs[i4 as int], ne as int));
            }
            nss.push(acc);
            i4 += 1;
        }
        proof {
            assert(ints_of(nss@) =~= round(es, rs, cur, RESET_SURFERS as int));
            assert(surfers_at(es, rs, (rd + 1) as nat) == round(
                es,
                rs,
                surfers_at(es, rs, rd as nat),
                RESET_SURFERS as int,
            ));
        }
        ss = nss;
        rd += 1;
    }

    // Emit one record per node.
    proof {
        lemma_surfers_invariant(es, rs, iters as nat);
    }
    let mut out: Collection<(Node, i64)> = Collection::empty();
    let mut i5: usize = 0;
    while i5 < n
        invariant
            i5 <= n,
            n == ns@.len(),
            ss@.len() == n,
            iters >= 1,
            ints_of(ss@) == surfers_at(es, rs, iters as nat),
            forall|j: int|
                0 <= j < n ==> #[trigger] surfers_at(es, rs, iters as nat)[j]
                    >= RESET_SURFERS as int,
            out@.len() == i5,
            forall|j: int| 0 <= j < i5 ==> (#[trigger] out@[j]) == ((ns@[j], ss@[j]), 1i64),
        decreases n - i5,
    {
        let ghost out0 = out@;
        out.push((ns[i5], ss[i5]), 1i64);
        proof {
            assert(out@ =~= out0.push(((ns@[i5 as int], ss@[i5 as int]), 1i64)));
        }
        i5 += 1;
    }
    proof {
        assert forall|a: int, b: int| 0 <= a < b < out@.len() implies out@[a].0 != out@[b].0 by {
            assert(ns@[a] != ns@[b]);
        }
        assert(is_set(out@));
        assert forall|i6: int|
            0 <= i6 < out@.len() implies (#[trigger] out@[i6]).0.1 as int == surfers_at(
            es,
            rs,
            iters as nat,
        )[i6] by {
            assert(ints_of(ss@)[i6] == ss@[i6] as int);
        }
    }
    out
}

} // verus!
