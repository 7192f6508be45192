use graphs::collection::Collection;
use graphs::fixpoint::{contents_equal, iterate};
use graphs::history::InputLog;
use graphs::ops::{antijoin, count_values, filter, semijoin};

fn coll_u64(updates: Vec<(u64, i64)>) -> Collection<u64> {
    Collection::from_updates(updates)
}

#[test]
fn concat_adds_counts() {
    let a = coll_u64(vec![(1, 2), (2, 1)]);
    let b = coll_u64(vec![(1, -1), (3, 4)]);
    let c = a.concat(&b);
    assert_eq!(c.count(&1), 1);
    assert_eq!(c.count(&2), 1);
    assert_eq!(c.count(&3), 4);
    assert_eq!(c.count(&4), 0);
}

#[test]
fn negate_cancels() {
    let a = coll_u64(vec![(1, 2), (2, -3)]);
    let n = a.negate();
    assert_eq!(n.count(&1), -2);
    assert_eq!(n.count(&2), 3);
    let z = a.concat(&n).consolidate();
    assert_eq!(z.len(), 0);
}

#[test]
fn consolidate_preserves_counts() {
    let a = coll_u64(vec![(5, 1), (5, 1), (6, 2), (6, -2), (7, 0)]);
    let c = a.consolidate();
    assert_eq!(c.count(&5), 2);
    assert_eq!(c.count(&6), 0);
    assert_eq!(c.count(&7), 0);
    // one update per surviving value, none of them zero
    assert_eq!(c.len(), 1);
}

#[test]
fn distinct_keeps_positive_support() {
    let a = coll_u64(vec![(1, 3), (2, 1), (2, -1), (3, -2), (4, 1)]);
    let d = a.distinct();
    assert_eq!(d.count(&1), 1);
    assert_eq!(d.count(&2), 0);
    assert_eq!(d.count(&3), 0);
    assert_eq!(d.count(&4), 1);
}

#[test]
fn accumulation_ignores_arrival_order() {
    let mut h1: InputLog<u64> = InputLog::new();
    h1.insert_at(10, 1);
    h1.insert_at(20, 2);
    h1.remove_at(10, 3);
    h1.insert_at(10, 3);

    let mut h2: InputLog<u64> = InputLog::new();
    h2.insert_at(10, 3);
    h2.remove_at(10, 3);
    h2.insert_at(20, 2);
    h2.insert_at(10, 1);

    for t in 0..4u64 {
        let c1 = h1.contents_at(t);
        let c2 = h2.contents_at(t);
        for v in [10u64, 20u64] {
            assert_eq!(c1.count(&v), c2.count(&v));
        }
    }
    let c1 = h1.contents_at(3);
    assert_eq!(c1.count(&10), 1);
    assert_eq!(c1.count(&20), 1);
}

#[test]
fn accumulation_respects_time() {
    let mut h: InputLog<u64> = InputLog::new();
    h.insert_at(7, 1);
    h.insert_at(7, 5);
    h.remove_at(7, 9);
    assert_eq!(h.contents_at(0).count(&7), 0);
    assert_eq!(h.contents_at(1).count(&7), 1);
    assert_eq!(h.contents_at(5).count(&7), 2);
    assert_eq!(h.contents_at(9).count(&7), 1);
}

#[test]
fn semijoin_keeps_present_keys() {
    // only presence of a positive key count matters: kept records keep
    // their own counts, whatever the key's multiplicity.
    let l: Collection<(u64, u64)> = Collection::from_updates(vec![
        ((1, 10), 2),
        ((1, 11), 1),
        ((2, 20), 1),
        ((4, 40), 3),
    ]);
    let keys = coll_u64(vec![(1, 3), (3, 1), (4, 1), (4, -1)]);
    let r = semijoin(&l, &keys);
    assert_eq!(r.count(&(1, 10)), 2);
    assert_eq!(r.count(&(1, 11)), 1);
    assert_eq!(r.count(&(2, 20)), 0);
    // key four accumulates to zero: not present.
    assert_eq!(r.count(&(4, 40)), 0);
}

#[test]
fn join_multiplies_counts() {
    let l: Collection<(u64, u64)> = Collection::from_updates(vec![((1, 10), 2), ((2, 20), 1)]);
    let r2: Collection<(u64, u64)> = Collection::from_updates(vec![((1, 7), 3), ((3, 9), 1)]);
    let j = graphs::ops::join(&l, &r2);
    assert_eq!(j.count(&(1, (10, 7))), 6);
    assert_eq!(j.count(&(2, (20, 7))), 0);
}

#[test]
fn threshold_maps_counts() {
    let a = coll_u64(vec![(1, 5), (2, 1), (3, 2)]);
    let r = graphs::ops::threshold(&a, |d: i64| if d > 1 { 1 } else { 0 });
    assert_eq!(r.count(&1), 1);
    assert_eq!(r.count(&2), 0);
    assert_eq!(r.count(&3), 1);
}

#[test]
fn flat_map_expands_at_record_diffs() {
    let a = coll_u64(vec![(3, 2), (5, -1)]);
    let r = graphs::ops::flat_map(&a, |x: u64| vec![x, x + 1]);
    assert_eq!(r.count(&3), 2);
    assert_eq!(r.count(&4), 2);
    assert_eq!(r.count(&5), -1);
    assert_eq!(r.count(&6), -1);
}

#[test]
fn reduce_groups_by_key() {
    // sum each key's counts into one record per key.
    let c: Collection<(u64, u64)> = Collection::from_updates(vec![
        ((1, 10), 2),
        ((1, 11), 3),
        ((2, 20), 1),
        ((3, 30), 1),
        ((3, 30), -1),
    ]);
    let r = graphs::ops::reduce(&c, |_k: u64, g: &Collection<u64>| {
        let mut total: i64 = 0;
        for i in 0..g.len() {
            total += g.get(i).1;
        }
        Collection::from_updates(vec![(total as u64, 1i64)])
    });
    assert_eq!(r.count(&(1, 5)), 1);
    assert_eq!(r.count(&(2, 1)), 1);
    // key three accumulated to nothing and was consolidated away.
    assert_eq!(r.count(&(3, 0)), 0);
}

#[test]
fn antijoin_keeps_unmatched_keys() {
    let l: Collection<(u64, u64)> = Collection::from_updates(vec![
        ((1, 10), 2),
        ((2, 20), 1),
        ((3, 30), 4),
    ]);
    let keys = coll_u64(vec![(1, 1), (3, 1), (3, -1)]);
    let r = antijoin(&l, &keys);
    assert_eq!(r.count(&(1, 10)), 0);
    assert_eq!(r.count(&(2, 20)), 1);
    // key three accumulates to zero, so its records survive
    assert_eq!(r.count(&(3, 30)), 4);
}

#[test]
fn count_values_counts() {
    let a = coll_u64(vec![(1, 1), (1, 1), (2, 1), (3, 1), (3, -1)]);
    let r = count_values(&a);
    assert_eq!(r.count(&(1, 2)), 1);
    assert_eq!(r.count(&(2, 1)), 1);
    assert_eq!(r.count(&(1, 1)), 0);
    assert_eq!(r.count(&(3, 0)), 0);
}

#[test]
fn map_and_filter_records() {
    let a = coll_u64(vec![(1, 2), (4, 1), (9, -1)]);
    let doubled = graphs::ops::map(&a, |x: u64| x.wrapping_mul(2));
    assert_eq!(doubled.count(&2), 2);
    assert_eq!(doubled.count(&8), 1);
    assert_eq!(doubled.count(&18), -1);
    let evens = filter(&a, |x: u64| x % 2 == 0);
    assert_eq!(evens.count(&4), 1);
    assert_eq!(evens.count(&1), 0);
    assert_eq!(evens.count(&9), 0);
}

#[test]
fn contents_equality_ignores_representation() {
    let a = coll_u64(vec![(1, 2), (2, 1)]);
    let b = coll_u64(vec![(2, 1), (1, 1), (1, 1), (3, 5), (3, -5)]);
    assert!(contents_equal(&a, &b));
    let c = coll_u64(vec![(1, 2)]);
    assert!(!contents_equal(&a, &c));
}

#[test]
fn iterate_reaches_a_fixpoint() {
    // each round lowers every value above three by one; from five the
    // scope stabilizes after two effective rounds.
    let seed = coll_u64(vec![(5, 1)]);
    let (r, stable) = iterate(
        seed,
        |c: &Collection<u64>| graphs::ops::map(c, |x: u64| if x > 3 { x - 1 } else { x }),
        10,
    );
    assert!(stable);
    assert_eq!(r.count(&3), 1);
    assert_eq!(r.count(&5), 0);
}

#[test]
fn iterate_respects_the_budget() {
    let seed = coll_u64(vec![(100, 1)]);
    let (r, stable) = iterate(
        seed,
        |c: &Collection<u64>| graphs::ops::map(c, |x: u64| if x > 3 { x - 1 } else { x }),
        5,
    );
    assert!(!stable);
    assert_eq!(r.count(&95), 1);
}
