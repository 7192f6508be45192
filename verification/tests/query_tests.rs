use graphs::collection::Collection;
use graphs::neighborhoods::neighborhoods;
use graphs::paths::bfs;
use graphs::scores::score_edges;
use graphs::shortest::shortest_paths;
use graphs::sudoku::sudoku;

fn node_set(ns: &[u64]) -> Collection<u64> {
    Collection::from_set_vec(&ns.to_vec())
}

fn edge_set(es: &[(u64, u64)]) -> Collection<(u64, u64)> {
    Collection::from_set_vec(&es.to_vec())
}

#[test]
fn bfs_exact_distances() {
    let edges = edge_set(&[(0, 1), (1, 2), (2, 3), (0, 3), (3, 4)]);
    let roots = node_set(&[0]);
    let r = bfs(&edges, &roots);
    assert!(r.has(&(0, 0)));
    assert!(r.has(&(1, 1)));
    assert!(r.has(&(2, 2)));
    assert!(r.has(&(3, 1)));
    assert!(r.has(&(4, 2)));
    assert_eq!(r.len(), 5);
}

#[test]
fn bfs_multiple_roots_take_least() {
    let edges = edge_set(&[(0, 1), (1, 2), (5, 2)]);
    let roots = node_set(&[0, 5]);
    let r = bfs(&edges, &roots);
    assert!(r.has(&(2, 1)));
    assert!(!r.has(&(2, 2)));
}

#[test]
fn neighborhoods_bounded_hops() {
    let edges = edge_set(&[(1, 2), (2, 3), (3, 4)]);
    let sources = Collection::from_set_vec(&vec![(1u64, 2u64)]);
    let r = neighborhoods(&edges, &sources);
    assert!(r.has(&(1, 1)));
    assert!(r.has(&(1, 2)));
    assert!(r.has(&(1, 3)));
    assert!(!r.has(&(1, 4)));
}

#[test]
fn shortest_path_dag_on_a_path() {
    // the path graph zero to four; the goal wants all four edges.
    let edges = edge_set(&[(0, 1), (1, 2), (2, 3), (3, 4)]);
    let goals = Collection::from_set_vec(&vec![(0u64, 4u64)]);
    let r = shortest_paths(&edges, &goals);
    assert_eq!(r.len(), 4);
    assert!(r.has(&((0, 4), (0, 1))));
    assert!(r.has(&((0, 4), (1, 2))));
    assert!(r.has(&((0, 4), (2, 3))));
    assert!(r.has(&((0, 4), (3, 4))));
}

#[test]
fn shortest_path_dag_empty_after_cut() {
    // removing one edge of the only path leaves no path at all.
    let edges = edge_set(&[(0, 1), (1, 2), (3, 4)]);
    let goals = Collection::from_set_vec(&vec![(0u64, 4u64)]);
    let r = shortest_paths(&edges, &goals);
    assert_eq!(r.len(), 0);
}

#[test]
fn shortest_path_keeps_all_ties() {
    // two parallel two-hop routes: the DAG holds all four edges.
    let edges = edge_set(&[(0, 1), (0, 2), (1, 3), (2, 3)]);
    let goals = Collection::from_set_vec(&vec![(0u64, 3u64)]);
    let r = shortest_paths(&edges, &goals);
    assert_eq!(r.len(), 4);
}

#[test]
fn shortest_path_self_goal_is_empty() {
    let edges = edge_set(&[(0, 1), (1, 0)]);
    let goals = Collection::from_set_vec(&vec![(0u64, 0u64)]);
    let r = shortest_paths(&edges, &goals);
    assert_eq!(r.len(), 0);
}

fn full_board() -> Vec<(u8, u8, u8)> {
    // a completed board: cell (r, c) holds ((r - 1) * 3 + (r - 1) / 3 + c - 1) % 9 + 1.
    let mut cands = Vec::new();
    for r in 1..=9u8 {
        for c in 1..=9u8 {
            let v = ((r - 1) * 3 + (r - 1) / 3 + c - 1) % 9 + 1;
            cands.push((v, r, c));
        }
    }
    cands
}

#[test]
fn sudoku_fills_single_blanks() {
    // blank a few cells of a solved board; every blank is recovered by
    // propagation alone, one value per cell, matching the solution.
    let solution = full_board();
    let blanks = [(1u8, 1u8), (4, 5), (9, 9)];
    let mut cands: Vec<(u8, u8, u8)> = Vec::new();
    for &(v, r, c) in solution.iter() {
        if blanks.contains(&(r, c)) {
            for v2 in 1..=9u8 {
                cands.push((v2, r, c));
            }
        } else {
            cands.push((v, r, c));
        }
    }
    let start = Collection::from_set_vec(&cands);
    let (r, stable) = sudoku(&start, 20);
    assert!(stable);
    assert_eq!(r.len(), 81);
    for &(v, row, col) in solution.iter() {
        assert!(r.has(&(v, row, col)));
    }
}

#[test]
fn sudoku_empty_board_stays_open() {
    // with no givens nothing is determined, so nothing is excluded.
    let mut cands: Vec<(u8, u8, u8)> = Vec::new();
    for r in 1..=9u8 {
        for c in 1..=9u8 {
            for v in 1..=9u8 {
                cands.push((v, r, c));
            }
        }
    }
    let start = Collection::from_set_vec(&cands);
    let (r, stable) = sudoku(&start, 5);
    assert!(stable);
    assert_eq!(r.len(), 729);
}

#[test]
fn scores_direct_post_reply_counts_double() {
    // person one replies to a post of person two: two points in the
    // post's forum.
    let edges = edge_set(&[(1, 2)]);
    let posts = Collection::from_set_vec(&vec![(100u64, (2u64, 77u64))]);
    let comms = Collection::from_set_vec(&vec![(200u64, (1u64, 100u64))]);
    let r = score_edges(&edges, &posts, &comms);
    assert_eq!(r.count(&((1, 2), 77)), 2);
}

#[test]
fn scores_comment_reply_counts_single_at_root_forum() {
    // person two replies to a comment of person one; the chain resolves
    // to the root post in forum eighty-eight.
    let edges = edge_set(&[(1, 2)]);
    let posts = Collection::from_set_vec(&vec![(100u64, (3u64, 88u64))]);
    let comms = Collection::from_set_vec(&vec![
        (200u64, (1u64, 100u64)),
        (201u64, (2u64, 200u64)),
    ]);
    let r = score_edges(&edges, &posts, &comms);
    // the direct reply to the post is between persons one and three:
    // not a recorded edge, so only the comment reply scores.
    assert_eq!(r.count(&((1, 2), 88)), 1);
    assert_eq!(r.count(&((1, 3), 88)), 0);
}

#[test]
fn scores_nothing_without_edges() {
    let edges = edge_set(&[]);
    let posts = Collection::from_set_vec(&vec![(100u64, (2u64, 77u64))]);
    let comms = Collection::from_set_vec(&vec![(200u64, (1u64, 100u64))]);
    let r = score_edges(&edges, &posts, &comms);
    assert_eq!(r.len(), 0);
}
