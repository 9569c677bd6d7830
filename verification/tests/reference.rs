//! Comparison against an outside reference implementation of minimum
//! spanning trees.

use ghs_mst::compute_mst;
use petgraph::algo::min_spanning_tree;
use petgraph::data::Element;
use petgraph::graph::UnGraph;

/// A small deterministic generator, so the stress graph is the same on
/// every run.
struct Lcg(u64);

impl Lcg {
    fn next(&mut self) -> u64 {
        self.0 = self
            .0
            .wrapping_mul(6364136223846793005)
            .wrapping_add(1442695040888963407);
        self.0 >> 33
    }
}

fn reference_mst(n: usize, edges: &[(usize, usize, i64)]) -> (i64, Vec<(usize, usize, i64)>) {
    let mut g = UnGraph::<(), i64>::new_undirected();
    let idx: Vec<_> = (0..n).map(|_| g.add_node(())).collect();
    for &(u, v, w) in edges {
        g.add_edge(idx[u], idx[v], w);
    }
    let mut total = 0i64;
    let mut es = Vec::new();
    for el in min_spanning_tree(&g) {
        if let Element::Edge { source, target, weight } = el {
            total += weight;
            let (a, b) = if source < target { (source, target) } else { (target, source) };
            es.push((a, b, weight));
        }
    }
    es.sort();
    (total, es)
}

#[test]
fn random_graph_matches_reference() {
    let n = 100usize;
    let mut rng = Lcg(12345);
    let mut edges: Vec<(usize, usize, i64)> = Vec::new();
    let mut seen = std::collections::HashSet::new();
    // A random spanning tree keeps the graph connected.
    for i in 1..n {
        let p = (rng.next() as usize) % i;
        let (lo, hi) = (p, i);
        edges.push((lo, hi, 0));
        seen.insert((lo, hi));
    }
    // Extra random edges.
    let mut added = 0;
    while added < 150 {
        let a = (rng.next() as usize) % n;
        let b = (rng.next() as usize) % n;
        let (lo, hi) = if a < b { (a, b) } else { (b, a) };
        if lo == hi || seen.contains(&(lo, hi)) {
            continue;
        }
        seen.insert((lo, hi));
        edges.push((lo, hi, 0));
        added += 1;
    }
    // Pairwise distinct weights: a shuffled range.
    let m = edges.len();
    let mut weights: Vec<i64> = (1..=(m as i64)).collect();
    for i in (1..m).rev() {
        let j = (rng.next() as usize) % (i + 1);
        weights.swap(i, j);
    }
    for (k, e) in edges.iter_mut().enumerate() {
        e.2 = weights[k];
    }

    let t = compute_mst(n, &edges, 100_000_000).unwrap();
    assert_eq!(t.len(), n - 1);
    let total: i64 = t.iter().map(|e| e.2).sum();
    let mut ours = t.clone();
    ours.sort();
    let (ref_total, ref_edges) = reference_mst(n, &edges);
    assert_eq!(total, ref_total);
    // Distinct weights make the tree unique: the edge sets agree.
    assert_eq!(ours, ref_edges);
}

#[test]
fn tied_weights_match_reference_total() {
    let edges = vec![
        (0, 1, 2),
        (1, 2, 2),
        (2, 3, 2),
        (3, 0, 2),
        (0, 2, 1),
        (1, 3, 3),
        (2, 4, 2),
        (3, 4, 2),
    ];
    let t = compute_mst(5, &edges, 10_000_000).unwrap();
    assert_eq!(t.len(), 4);
    let total: i64 = t.iter().map(|e| e.2).sum();
    let (ref_total, _) = reference_mst(5, &edges);
    assert_eq!(total, ref_total);
}

#[test]
fn medium_graph_with_ties_matches_reference_total() {
    let n = 30usize;
    let mut rng = Lcg(777);
    let mut edges: Vec<(usize, usize, i64)> = Vec::new();
    let mut seen = std::collections::HashSet::new();
    for i in 1..n {
        let p = (rng.next() as usize) % i;
        edges.push((p, i, (rng.next() % 10) as i64));
        seen.insert((p, i));
    }
    let mut added = 0;
    while added < 40 {
        let a = (rng.next() as usize) % n;
        let b = (rng.next() as usize) % n;
        let (lo, hi) = if a < b { (a, b) } else { (b, a) };
        if lo == hi || seen.contains(&(lo, hi)) {
            continue;
        }
        seen.insert((lo, hi));
        edges.push((lo, hi, (rng.next() % 10) as i64));
        added += 1;
    }
    let t = compute_mst(n, &edges, 100_000_000).unwrap();
    assert_eq!(t.len(), n - 1);
    let total: i64 = t.iter().map(|e| e.2).sum();
    let (ref_total, _) = reference_mst(n, &edges);
    assert_eq!(total, ref_total);
}
