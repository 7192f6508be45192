use graphs::collection::Collection;
use graphs::connected::connected;
use graphs::pagerank::pagerank;
use graphs::triangles::triangles;
use graphs::truss::truss;

fn node_set(ns: &[u64]) -> Collection<u64> {
    Collection::from_set_vec(&ns.to_vec())
}

fn edge_set(es: &[(u64, u64)]) -> Collection<(u64, u64)> {
    Collection::from_set_vec(&es.to_vec())
}

fn label_of(r: &Collection<(u64, u64)>, n: u64) -> u64 {
    for i in 0..r.len() {
        let (pair, _) = r.get(i);
        if pair.0 == n {
            return pair.1;
        }
    }
    panic!("node missing from labelling");
}

#[test]
fn components_partition_two_islands() {
    // 1-2-3 connected, 4-5 connected, 6 isolated.
    let nodes = node_set(&[1, 2, 3, 4, 5, 6]);
    let edges = edge_set(&[(1, 2), (2, 3), (5, 4)]);
    let r = connected(&nodes, &edges);
    assert_eq!(r.len(), 6);
    let l1 = label_of(&r, 1);
    assert_eq!(label_of(&r, 2), l1);
    assert_eq!(label_of(&r, 3), l1);
    let l4 = label_of(&r, 4);
    assert_eq!(label_of(&r, 5), l4);
    assert_ne!(l1, l4);
    let l6 = label_of(&r, 6);
    assert_ne!(l6, l1);
    assert_ne!(l6, l4);
    // the label is the least node of the component
    assert_eq!(l1, 1);
    assert_eq!(l4, 4);
    assert_eq!(l6, 6);
}

#[test]
fn components_rerun_is_identical() {
    let nodes = node_set(&[3, 1, 7, 2]);
    let edges = edge_set(&[(3, 1), (7, 2)]);
    let a = connected(&nodes, &edges);
    let b = connected(&nodes, &edges);
    assert_eq!(a.len(), b.len());
    for i in 0..a.len() {
        assert_eq!(a.get(i), b.get(i));
    }
}

#[test]
fn triangles_of_square_with_diagonal() {
    // a 4-cycle with one diagonal: exactly two triangles. The driver
    // orients each undirected edge forward before enumerating.
    let raw = [(1u64, 2u64), (2, 3), (3, 4), (4, 1), (1, 3)];
    let oriented: Vec<(u64, u64)> = raw
        .iter()
        .map(|&(s, d)| if s < d { (s, d) } else { (d, s) })
        .collect();
    let edges = edge_set(&oriented);
    let r = triangles(&edges);
    assert_eq!(r.len(), 2);
    assert!(r.has(&(1, 2, 3)));
    assert!(r.has(&(1, 3, 4)));
}

#[test]
fn triangles_none_on_a_path() {
    let edges = edge_set(&[(1, 2), (2, 3), (3, 4)]);
    let r = triangles(&edges);
    assert_eq!(r.len(), 0);
}

#[test]
fn triangles_ignore_backward_edges() {
    // recorded backwards, so no forward triangle exists.
    let edges = edge_set(&[(2, 1), (3, 2), (3, 1)]);
    let r = triangles(&edges);
    assert_eq!(r.len(), 0);
}

#[test]
fn truss_single_triangle_is_level_one() {
    let edges = edge_set(&[(1, 2), (2, 3), (1, 3)]);
    let r = truss(&edges);
    assert_eq!(r.len(), 3);
    assert!(r.has(&((1, 2), 1)));
    assert!(r.has(&((2, 3), 1)));
    assert!(r.has(&((1, 3), 1)));
}

#[test]
fn truss_no_triangles_is_level_zero() {
    let edges = edge_set(&[(1, 2), (2, 3), (3, 4)]);
    let r = truss(&edges);
    assert_eq!(r.len(), 3);
    assert!(r.has(&((1, 2), 0)));
    assert!(r.has(&((2, 3), 0)));
    assert!(r.has(&((3, 4), 0)));
}

#[test]
fn truss_two_glued_triangles() {
    // two triangles sharing edge (1, 3): every edge still level one,
    // since each triangle's other edges sit in only one triangle.
    let edges = edge_set(&[(1, 2), (2, 3), (1, 3), (3, 4), (1, 4)]);
    let r = truss(&edges);
    assert_eq!(r.len(), 5);
    assert!(r.has(&((1, 2), 1)));
    assert!(r.has(&((1, 3), 1)));
    assert!(r.has(&((1, 4), 1)));
}

#[test]
fn truss_clique_of_four() {
    // in a four-clique every edge lies in two triangles whose other
    // edges also lie in two: every edge gets level two.
    let edges = edge_set(&[(1, 2), (1, 3), (1, 4), (2, 3), (2, 4), (3, 4)]);
    let r = truss(&edges);
    assert_eq!(r.len(), 6);
    for i in 0..r.len() {
        let ((_, level), _) = r.get(i);
        assert_eq!(level, 2);
    }
}

#[test]
fn pagerank_isolated_node_keeps_reset() {
    let nodes = node_set(&[1]);
    let edges = edge_set(&[]);
    let r = pagerank(1, &nodes, &edges);
    assert_eq!(r.len(), 1);
    assert!(r.has(&(1, 1_000_000)));
}

#[test]
fn pagerank_one_edge_pushes_five_sixths() {
    let nodes = node_set(&[1, 2]);
    let edges = edge_set(&[(1, 2)]);
    let r = pagerank(1, &nodes, &edges);
    // node one keeps only the reset; node two receives five sixths of
    // the seeded six million plus its own reset.
    assert!(r.has(&(1, 1_000_000)));
    assert!(r.has(&(2, 6_000_000)));
}

#[test]
fn pagerank_counts_stay_positive() {
    let nodes = node_set(&[1, 2, 3]);
    let edges = edge_set(&[(1, 2), (2, 3), (3, 1)]);
    for iters in 1..6u64 {
        let r = pagerank(iters, &nodes, &edges);
        let mut total: i64 = 0;
        for i in 0..r.len() {
            let ((_, surfers), _) = r.get(i);
            assert!(surfers >= 1_000_000);
            total += surfers;
        }
        // the books balance: never more than the seeded total.
        assert!(total <= 18_000_000);
    }
}
