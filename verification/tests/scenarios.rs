//! End-to-end runs of the protocol on small graphs.

use ghs_mst::{compute_mst, GraphError, MstError, RunError};

const FUEL: u64 = 1_000_000;

#[test]
fn single_edge() {
    let edges = vec![(0, 1, 7)];
    let t = compute_mst(2, &edges, FUEL).unwrap();
    assert_eq!(t, vec![(0, 1, 7)]);
}

#[test]
fn single_edge_with_minimum_fuel() {
    // Five turns provably suffice on the single-edge graph; the
    // contract owes success at exactly that fuel.
    let edges = vec![(0, 1, 7)];
    let t = compute_mst(2, &edges, 5).unwrap();
    assert_eq!(t, vec![(0, 1, 7)]);
    assert!(matches!(compute_mst(2, &edges, 4), Err(MstError::Run(RunError::OutOfFuel))));
}

#[test]
fn triangle() {
    let edges = vec![(0, 1, 1), (1, 2, 2), (0, 2, 3)];
    let t = compute_mst(3, &edges, FUEL).unwrap();
    assert_eq!(t, vec![(0, 1, 1), (1, 2, 2)]);
    let total: i64 = t.iter().map(|e| e.2).sum();
    assert_eq!(total, 3);
}

#[test]
fn square_with_diagonal() {
    let edges = vec![(0, 1, 1), (1, 2, 2), (2, 3, 3), (3, 0, 4), (0, 2, 10)];
    let t = compute_mst(4, &edges, FUEL).unwrap();
    assert_eq!(t, vec![(0, 1, 1), (1, 2, 2), (2, 3, 3)]);
    let total: i64 = t.iter().map(|e| e.2).sum();
    assert_eq!(total, 6);
}

#[test]
fn disconnected_is_rejected() {
    let edges = vec![(0, 1, 1), (2, 3, 2)];
    let r = compute_mst(4, &edges, FUEL);
    assert_eq!(r, Err(MstError::Disconnected));
}

#[test]
fn five_vertices() {
    let edges = vec![(0, 1, 3), (0, 2, 1), (1, 2, 4), (1, 3, 2), (2, 4, 5), (3, 4, 6)];
    let t = compute_mst(5, &edges, FUEL).unwrap();
    assert_eq!(t, vec![(0, 2, 1), (1, 3, 2), (0, 1, 3), (2, 4, 5)]);
    let total: i64 = t.iter().map(|e| e.2).sum();
    assert_eq!(total, 11);
}

#[test]
fn no_vertices() {
    let edges: Vec<(usize, usize, i64)> = Vec::new();
    let t = compute_mst(0, &edges, FUEL).unwrap();
    assert!(t.is_empty());
}

#[test]
fn one_vertex() {
    let edges: Vec<(usize, usize, i64)> = Vec::new();
    let t = compute_mst(1, &edges, FUEL).unwrap();
    assert!(t.is_empty());
}

#[test]
fn endpoint_out_of_range() {
    let edges = vec![(0, 5, 1)];
    let r = compute_mst(3, &edges, FUEL);
    assert_eq!(r, Err(MstError::InvalidInput(GraphError::EndpointOutOfRange)));
}

#[test]
fn self_loop_rejected() {
    let edges = vec![(0, 0, 1), (0, 1, 2)];
    let r = compute_mst(2, &edges, FUEL);
    assert_eq!(r, Err(MstError::InvalidInput(GraphError::SelfLoop)));
}

#[test]
fn duplicate_edge_rejected() {
    let edges = vec![(0, 1, 1), (1, 0, 4)];
    let r = compute_mst(2, &edges, FUEL);
    assert_eq!(r, Err(MstError::InvalidInput(GraphError::DuplicateEdge)));
}

#[test]
fn negative_weights() {
    let edges = vec![(0, 1, -5), (1, 2, 3), (0, 2, -1)];
    let t = compute_mst(3, &edges, FUEL).unwrap();
    assert_eq!(t, vec![(0, 1, -5), (0, 2, -1)]);
}

#[test]
fn equal_weights_break_ties_by_endpoints() {
    // All weights equal: the effective key orders edges by their
    // endpoint pairs, so the tree is the two lexicographically
    // smallest edges.
    let edges = vec![(0, 1, 5), (1, 2, 5), (0, 2, 5)];
    let t = compute_mst(3, &edges, FUEL).unwrap();
    assert_eq!(t, vec![(0, 1, 5), (0, 2, 5)]);
}

#[test]
fn same_input_same_output() {
    let edges = vec![(0, 1, 3), (0, 2, 1), (1, 2, 4), (1, 3, 2), (2, 4, 5), (3, 4, 6)];
    let t1 = compute_mst(5, &edges, FUEL).unwrap();
    let t2 = compute_mst(5, &edges, FUEL).unwrap();
    assert_eq!(t1, t2);
}

#[test]
fn star_graph() {
    let edges = vec![(0, 1, 10), (0, 2, 20), (0, 3, 30), (1, 2, 100), (2, 3, 100)];
    let t = compute_mst(4, &edges, FUEL).unwrap();
    assert_eq!(t, vec![(0, 1, 10), (0, 2, 20), (0, 3, 30)]);
}

#[test]
fn out_of_fuel_reports_an_error() {
    let edges = vec![(0, 1, 1), (1, 2, 2), (0, 2, 3)];
    let r = compute_mst(3, &edges, 1);
    assert!(matches!(r, Err(MstError::Run(_))));
}

#[test]
fn zero_fuel_reports_out_of_fuel() {
    let edges = vec![(0, 1, 1), (1, 2, 2), (0, 2, 3)];
    let r = compute_mst(3, &edges, 0);
    assert_eq!(r, Err(MstError::Run(RunError::OutOfFuel)));
}
