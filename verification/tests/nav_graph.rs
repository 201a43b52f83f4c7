use accessibility_daemon::nav_graph::{
    compute_reachable, compute_reverse_reachable, enforce_connectivity, fill_empty_directions,
    greedy_assignment, is_strongly_connected, CandidateLists, NavGraph,
};

#[test]
fn small_graphs_are_a_ring() {
    let g = NavGraph::fallback(3);
    assert_eq!(g.n, 3);
    assert_eq!(g.edges, vec![[1, 2, 0, 1], [2, 0, 1, 2], [0, 1, 2, 0]]);
    assert_eq!(g.initial_edges, g.edges);
    assert_eq!(g.navigate(0, 0), Some(1));
    assert_eq!(g.navigate(2, 3), Some(0));
    assert_eq!(g.navigate(3, 0), None);
    assert_eq!(g.navigate(0, 4), None);
}

#[test]
fn greedy_takes_best_candidates_and_resolves_conflicts() {
    // North and east both want node 1: east, the later direction, moves on.
    let r = greedy_assignment(0, 5, &vec![1, 2], &vec![3], &vec![1, 4], &vec![2]);
    assert_eq!(r, [1, 3, 4, 2]);
    // West has only a taken candidate: it takes the smallest free node.
    let r = greedy_assignment(0, 5, &vec![1], &vec![2], &vec![3], &vec![1]);
    assert_eq!(r, [1, 2, 3, 0]);
    // An empty direction with no candidates ends the resolution.
    let r = greedy_assignment(0, 5, &vec![], &vec![1], &vec![1], &vec![2]);
    assert_eq!(r, [5, 1, 1, 2]);
}

#[test]
fn fill_goes_to_the_scarcest_direction_first() {
    // North and south are empty; south has one usable candidate, north two,
    // both want node 3: south (the scarcer) takes it, north gets 4.
    let r = fill_empty_directions(0, 5, [5, 5, 1, 2], &vec![3, 4], &vec![3], &vec![], &vec![]);
    assert_eq!(r, [4, 3, 1, 2]);
    // Candidates that are the node itself or already targets are skipped.
    let r = fill_empty_directions(0, 5, [5, 1, 2, 3], &vec![0, 1, 4], &vec![], &vec![], &vec![]);
    assert_eq!(r, [4, 1, 2, 3]);
}

#[test]
fn reachability_both_ways() {
    // 0 -> 1 -> 2, and 3 -> 0; 5 means no target.
    let edges = vec![[1, 5, 5, 5], [2, 5, 5, 5], [5, 5, 5, 5], [0, 5, 5, 5], [5, 5, 5, 5]];
    assert_eq!(compute_reachable(&edges, 5, 0), vec![true, true, true, false, false]);
    assert_eq!(compute_reverse_reachable(&edges, 5, 0), vec![true, false, false, true, false]);
    assert!(!is_strongly_connected(&edges, 5));
    let ring = vec![[1, 5, 5, 5], [2, 5, 5, 5], [0, 5, 5, 5]];
    assert!(is_strongly_connected(&ring, 3));
    assert!(is_strongly_connected(&Vec::new(), 0));
}

#[test]
fn repair_connects_the_graph() {
    // 0 -> 1 -> 2, but neither 1 nor 2 gets back to 0: node 1's north target
    // becomes 0, then node 2's.
    let mut edges = vec![[1, 3, 3, 3], [2, 2, 2, 2], [2, 2, 2, 2]];
    assert!(enforce_connectivity(&mut edges, 3));
    assert_eq!(edges, vec![[1, 3, 3, 3], [0, 2, 2, 2], [0, 2, 2, 2]]);
    assert!(is_strongly_connected(&edges, 3));
}

#[test]
fn repair_redirects_node_zero_while_nodes_are_unreached() {
    // 0 <-> 1 and 2 <-> 3: node 0's first target alternates between the
    // unreached halves, round after round.
    let mut edges = vec![[1, 4, 4, 4], [0, 4, 4, 4], [3, 4, 4, 4], [2, 4, 4, 4]];
    assert!(enforce_connectivity(&mut edges, 4));
    assert_eq!(edges[0], [1, 4, 4, 4]);
    assert!(!is_strongly_connected(&edges, 4));
}

#[test]
fn repair_stops_where_a_stuck_node_has_an_empty_direction() {
    // Everything is reached from 0, but node 1 cannot get back and has an
    // empty direction: that round cannot be carried out.
    let mut e = vec![[1, 2, 3, 3], [1, 1, 1, 3], [0, 0, 0, 0]];
    assert!(!enforce_connectivity(&mut e, 3));
}

#[test]
fn built_graph_from_candidates() {
    let n = 5;
    let none: Vec<Vec<usize>> = vec![Vec::new(); n];
    let ring_next: Vec<Vec<usize>> = (0..n).map(|i| vec![(i + 1) % n]).collect();
    let ring_prev: Vec<Vec<usize>> = (0..n).map(|i| vec![(i + n - 1) % n]).collect();
    let local = CandidateLists {
        north: ring_next.clone(),
        south: ring_prev.clone(),
        east: none.clone(),
        west: none.clone(),
    };
    let global = CandidateLists { north: none.clone(), south: none.clone(), east: none.clone(), west: none.clone() };
    let wrap = CandidateLists { north: none.clone(), south: none.clone(), east: none.clone(), west: none.clone() };
    let g = NavGraph::from_candidates(n, &local, &global, &wrap).expect("connected");
    assert_eq!(g.n, 5);
    assert_eq!(g.navigate(0, 0), Some(1));
    assert_eq!(g.navigate(0, 1), Some(4));
    assert_eq!(g.initial_edges[0], [1, 4, 5, 5]);
    assert!(is_strongly_connected(&g.edges, 5));
    let small = NavGraph::from_candidates(2, &local, &global, &wrap).unwrap();
    assert_eq!(small.edges, vec![[1, 0, 1, 0], [0, 1, 0, 1]]);
}

#[test]
fn nav_graph_08_navigate_bounds() {
    // Six characters in one row: east and west run along it, north and south
    // hold the out-of-range sentinel (a single row has no vertical neighbour).
    let n = 6;
    let edges: Vec<[usize; 4]> = (0..n).map(|i| [n, n, (i + 1) % n, (i + n - 1) % n]).collect();
    let g = NavGraph { initial_edges: edges.clone(), edges, n };
    // Sentinel slot (single row has no north).
    assert_eq!(g.navigate(0, 0), None);
    assert_eq!(g.navigate(0, 2), Some(1));
    // Out-of-range node and direction.
    assert_eq!(g.navigate(6, 0), None);
    assert_eq!(g.navigate(99, 2), None);
    assert_eq!(g.navigate(0, 4), None);
    assert_eq!(g.navigate(0, 99), None);
    // Empty graph: everything is out of range.
    let empty = NavGraph::fallback(0);
    assert_eq!(empty.navigate(0, 0), None);
}
