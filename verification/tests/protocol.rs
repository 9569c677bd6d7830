//! Unit-level checks of the graph view, the inbox, the effective keys,
//! and the per-vertex handlers.

use ghs_mst::{
    check_outcome, get_mst_from_data, run_ghs, EdgeKey, GraphView, Inbox, Message, Node, RunError,
    State, Status,
};

fn triangle() -> GraphView {
    GraphView::build(3, &vec![(0, 1, 1), (1, 2, 2), (0, 2, 3)]).unwrap()
}

#[test]
fn graph_view_lookup() {
    let g = triangle();
    assert_eq!(g.vertex_count(), 3);
    assert_eq!(g.degree(0), 2);
    assert_eq!(g.weight_between(0, 1), Some(1));
    assert_eq!(g.weight_between(1, 0), Some(1));
    assert_eq!(g.weight_between(0, 2), Some(3));
    assert_eq!(g.weight_between(1, 1), None);
}

#[test]
fn connectivity_check() {
    let g = triangle();
    assert!(g.is_connected());
    let g2 = GraphView::build(4, &vec![(0, 1, 1), (2, 3, 2)]).unwrap();
    assert!(!g2.is_connected());
}

#[test]
fn edge_keys_order_by_weight_then_endpoints() {
    let a = EdgeKey::of_edge(5, 2, 10);
    assert_eq!(a, EdgeKey { wt: 10, lo: 2, hi: 5 });
    let b = EdgeKey::of_edge(0, 1, 11);
    assert!(a.lt(&b));
    let c = EdgeKey::of_edge(2, 6, 10);
    assert!(a.lt(&c));
    assert!(!c.lt(&a));
    assert!(!a.lt(&a));
}

#[test]
fn inbox_is_fifo() {
    let mut ib = Inbox::new();
    assert_eq!(ib.try_pop(), None);
    ib.post(Message::Accept { sender: 1 });
    ib.post(Message::Reject { sender: 2 });
    ib.post(Message::ChangeRoot { sender: 3 });
    assert_eq!(ib.len(), 3);
    assert_eq!(ib.try_pop(), Some(Message::Accept { sender: 1 }));
    assert_eq!(ib.try_pop(), Some(Message::Reject { sender: 2 }));
    assert_eq!(ib.try_pop(), Some(Message::ChangeRoot { sender: 3 }));
    assert_eq!(ib.try_pop(), None);
}

#[test]
fn wake_picks_cheapest_edge() {
    let g = triangle();
    let mut node = Node::new(3, 2);
    // Vertex 2 has edges of weight 2 (to 1) and 3 (to 0).
    let eff = node.initialize(&g);
    assert!(!eff.fault && !eff.halt);
    assert_eq!(eff.sends, vec![(1, Message::Connect { level: 0, sender: 2 })]);
    assert_eq!(node.state, State::Found);
    assert_eq!(node.status[1], Status::Branch);
    assert_eq!(node.status[0], Status::Basic);
    assert_eq!(node.level, 0);
}

#[test]
fn connect_from_lower_level_absorbs() {
    let g = triangle();
    let mut node = Node::new(3, 0);
    node.level = 2;
    node.state = State::Found;
    let eff = node.process_connect(Message::Connect { level: 1, sender: 1 }, &g);
    assert!(!eff.fault);
    assert_eq!(node.status[1], Status::Branch);
    assert_eq!(
        eff.sends,
        vec![(
            1,
            Message::Initiate { level: 2, name: node.name, state: State::Found, sender: 0 }
        )]
    );
}

#[test]
fn connect_at_equal_level_over_basic_edge_defers() {
    let g = triangle();
    let mut node = Node::new(3, 0);
    let msg = Message::Connect { level: 0, sender: 1 };
    let eff = node.process_connect(msg, &g);
    assert!(!eff.fault);
    // The message is re-posted to the node itself, unchanged.
    assert_eq!(eff.sends, vec![(0, msg)]);
    assert_eq!(node.status[1], Status::Basic);
}

#[test]
fn connect_over_branch_edge_merges() {
    let g = triangle();
    let mut node = Node::new(3, 0);
    node.status[1] = Status::Branch;
    let eff = node.process_connect(Message::Connect { level: 0, sender: 1 }, &g);
    assert!(!eff.fault);
    // The new fragment is named by the core edge (0,1), one level up.
    assert_eq!(
        eff.sends,
        vec![(
            1,
            Message::Initiate {
                level: 1,
                name: EdgeKey { wt: 1, lo: 0, hi: 1 },
                state: State::Find,
                sender: 0
            }
        )]
    );
}

#[test]
fn initiate_adopts_identity_and_probes() {
    let g = triangle();
    let mut node = Node::new(3, 0);
    node.status[1] = Status::Branch;
    let name = EdgeKey { wt: 1, lo: 0, hi: 1 };
    let eff = node.process_initiate(
        Message::Initiate { level: 1, name, state: State::Find, sender: 1 },
        &g,
    );
    assert!(!eff.fault);
    assert_eq!(node.level, 1);
    assert_eq!(node.name, name);
    assert_eq!(node.parent, Some(1));
    assert_eq!(node.state, State::Find);
    // The only Basic edge of vertex 0 is (0,2): it gets the probe.
    assert_eq!(node.test_node, Some(2));
    assert_eq!(eff.sends, vec![(2, Message::Test { level: 1, name, sender: 0 })]);
}

#[test]
fn test_from_same_fragment_is_rejected() {
    let g = triangle();
    let mut node = Node::new(3, 0);
    let name = node.name;
    let eff = node.process_test(Message::Test { level: 0, name, sender: 2 }, &g);
    assert!(!eff.fault);
    assert_eq!(node.status[2], Status::Reject);
    assert_eq!(eff.sends, vec![(2, Message::Reject { sender: 0 })]);
}

#[test]
fn test_from_other_fragment_is_accepted() {
    let g = triangle();
    let mut node = Node::new(3, 0);
    let other = EdgeKey { wt: 9, lo: 1, hi: 2 };
    let eff = node.process_test(Message::Test { level: 0, name: other, sender: 2 }, &g);
    assert!(!eff.fault);
    assert_eq!(node.status[2], Status::Basic);
    assert_eq!(eff.sends, vec![(2, Message::Accept { sender: 0 })]);
}

#[test]
fn test_from_higher_level_defers() {
    let g = triangle();
    let mut node = Node::new(3, 0);
    let other = EdgeKey { wt: 9, lo: 1, hi: 2 };
    let msg = Message::Test { level: 3, name: other, sender: 2 };
    let eff = node.process_test(msg, &g);
    assert!(!eff.fault);
    assert_eq!(eff.sends, vec![(0, msg)]);
}

#[test]
fn report_without_parent_is_a_fault() {
    let g = triangle();
    let mut node = Node::new(3, 0);
    let eff = node.report(&g);
    assert!(eff.fault);
    assert!(eff.sends.is_empty());
}

#[test]
fn termination_detected_on_infinite_echo() {
    let g = triangle();
    let mut node = Node::new(3, 0);
    node.parent = Some(1);
    node.state = State::Found;
    // Both sides report an infinite best weight across the core edge.
    let eff = node.process_report(Message::Report { best: None, sender: 1 }, &g);
    assert!(eff.halt);
    assert!(!eff.fault);
    assert!(eff.sends.is_empty());
}

#[test]
fn run_outcome_is_symmetric_and_levels_stay_bounded() {
    // Drive a full deterministic run and recheck the outcome
    // conditions the scheduler already enforces.
    let g = GraphView::build(
        5,
        &vec![(0, 1, 3), (0, 2, 1), (1, 2, 4), (1, 3, 2), (2, 4, 5), (3, 4, 6)],
    )
    .unwrap();
    let nodes = run_ghs(&g, 1_000_000).unwrap();
    assert!(check_outcome(&nodes, &g));
    let t = get_mst_from_data(&nodes, &g);
    assert_eq!(t, vec![(0, 2, 1), (1, 3, 2), (0, 1, 3), (2, 4, 5)]);
    for nd in &nodes {
        // Levels end non-negative and bounded by the merge count.
        assert!(nd.level <= 5);
    }
}

#[test]
fn isolated_vertex_faults_the_run() {
    // A vertex without any incident edge cannot wake: the run aborts
    // with a fault instead of spinning.
    let g = GraphView::build(2, &Vec::new()).unwrap();
    let r = run_ghs(&g, 1_000_000);
    assert_eq!(r.err(), Some(RunError::Fault));
}

#[test]
fn zero_fuel_runs_out_of_fuel() {
    let g = triangle();
    let r = run_ghs(&g, 0);
    assert_eq!(r.err(), Some(RunError::OutOfFuel));
}

#[test]
fn disconnected_run_yields_no_spurious_tree() {
    // Driving the scheduler directly on a disconnected graph (without
    // the connectivity gate) must not produce a spanning tree: either
    // the run ends in an error, or the harvested branch set is short
    // of the n - 1 edges a spanning tree needs.
    let g = GraphView::build(4, &vec![(0, 1, 1), (2, 3, 2)]).unwrap();
    match run_ghs(&g, 1_000_000) {
        Err(_) => {},
        Ok(nodes) => {
            let t = get_mst_from_data(&nodes, &g);
            assert!(t.len() < 3);
        },
    }
}

#[test]
fn long_chain() {
    // A path graph exercises deep broadcasts, convergecasts and
    // change-root chains.
    let n = 50usize;
    let mut edges: Vec<(usize, usize, i64)> = Vec::new();
    for i in 0..n - 1 {
        edges.push((i, i + 1, (100 - i as i64) * 3));
    }
    let t = ghs_mst::compute_mst(n, &edges, 50_000_000).unwrap();
    assert_eq!(t.len(), n - 1);
    let mut sorted_input = edges.clone();
    sorted_input.sort_by_key(|e| e.2);
    assert_eq!(t, sorted_input);
}

#[test]
fn tree_edges_are_branch_on_both_sides() {
    let g = triangle();
    let nodes = run_ghs(&g, 1_000_000).unwrap();
    let t = get_mst_from_data(&nodes, &g);
    for &(u, v, _w) in &t {
        assert_eq!(nodes[u].status[v], Status::Branch);
        assert_eq!(nodes[v].status[u], Status::Branch);
    }
    // The non-tree edge (0,2) is Branch on neither side and Reject on
    // at least one.
    assert_ne!(nodes[0].status[2], Status::Branch);
    assert_ne!(nodes[2].status[0], Status::Branch);
    assert!(nodes[0].status[2] == Status::Reject || nodes[2].status[0] == Status::Reject);
}
