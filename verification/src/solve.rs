//! The whole computation, end to end: validate the edge list, reject a
//! disconnected graph, run the protocol, harvest the tree, and check
//! that what came out really spans the graph.

use vstd::prelude::*;
use crate::connect::connected;
use crate::connect::is_path;
use crate::connect::lemma_connected_min_degree;
use crate::connect::lemma_connected_transfer;
use crate::connect::lemma_reach_refl;
use crate::connect::reachable;
use crate::graph::GraphError;
use crate::graph::GraphView;
use crate::graph::edge_check;
use crate::graph::edges_have;
use crate::graph::edges_ok;
use crate::graph::pair_in;
use crate::mst::get_mst_from_data;
use crate::mst::is_tree_triple;
use crate::mst::lemma_sorted_unique_strict;
use crate::mst::sorted_by_key;
use crate::mst::tree_edge;
use crate::mst::triple_key;
use crate::node::Status;
use crate::sim::RunError;
use crate::sim::k2_done;
use crate::sim::run_ghs;
use crate::sim::single_edge_graph;

verus! {

/// Why no tree was produced.
#[derive(Clone, Copy, PartialEq, Eq, Structural, Debug)]
pub enum MstError {
    /// The edge list does not describe a valid graph.
    InvalidInput(GraphError),
    /// The graph is valid but not connected.
    Disconnected,
    /// The protocol run failed.
    Run(RunError),
    /// The harvested edge set is not a spanning tree.
    NotSpanning,
}

/// The edge list `t` connects all of `0..n`: some well-formed graph
/// view with exactly those edges is connected.
pub open spec fn spans(n: int, t: Seq<(usize, usize, i64)>) -> bool {
    exists|gt: GraphView|
        {
            &&& #[trigger] gt.wf()
            &&& gt.vcount() == n
            &&& forall|u: int, v: int, w: i64| #[trigger]
                gt.has_edge_w(u, v, w) <==> edges_have(t, u, v, w)
            &&& connected(gt)
        }
}

/// The total weight of an edge list.
pub open spec fn weight_sum(t: Seq<(usize, usize, i64)>) -> int
    decreases t.len(),
{
    if t.len() == 0 {
        0
    } else {
        weight_sum(t.drop_last()) + t.last().2
    }
}

/// Every record of `s` is a record of `edges`.
pub open spec fn chosen_from(s: Seq<(usize, usize, i64)>, edges: Seq<(usize, usize, i64)>) -> bool {
    forall|k: int| 0 <= k < s.len() ==> edges.contains(#[trigger] s[k])
}

/// No duplicate-free selection of input edges that spans all `n`
/// vertices weighs less than `t`: `t` is a minimum-weight spanning
/// selection.
pub open spec fn min_weight_spanning(
    n: int,
    edges: Seq<(usize, usize, i64)>,
    t: Seq<(usize, usize, i64)>,
) -> bool {
    forall|s: Seq<(usize, usize, i64)>|
        s.no_duplicates() && chosen_from(s, edges) && #[trigger] spans(n, s) ==> weight_sum(s)
            >= weight_sum(t)
}

/// Computes the minimum spanning tree of the described graph by
/// running the distributed protocol under the deterministic scheduler.
///
/// The input is rejected when it is not a valid connected graph.  On
/// success the result holds `n - 1` edges of the input, each `Branch`
/// on both sides at termination, sorted ascending by weight (ties
/// broken by the endpoint pair), and the result provably spans all `n`
/// vertices.  `fuel` bounds the scheduler; a too-small fuel shows as a
/// run error, never as a wrong tree, and zero fuel on a valid
/// connected input shows as exactly an out-of-fuel run error.
///
/// The contract pins the error classification and the shape and
/// spanning-ness of a returned tree, and owes success outright on
/// every valid input with at most two vertices (given fuel for five
/// turns).  That the returned spanning tree also has minimum total
/// weight is the protocol's correctness theorem, which this contract
/// does not state; the reference tests hold the result against an
/// independent minimum-spanning-tree computation.
pub fn compute_mst(n: usize, edges: &Vec<(usize, usize, i64)>, fuel: u64) -> (r: Result<
    Vec<(usize, usize, i64)>,
    MstError,
>)
    ensures
        r matches Ok(t) ==> ({
            &&& edges_ok(n as int, edges@)
            &&& sorted_by_key(t@)
            &&& t@.no_duplicates()
            &&& forall|a: int, b: int|
                0 <= a < b < t@.len() ==> triple_key(#[trigger] t@[a]).spec_lt(
                    triple_key(#[trigger] t@[b]),
                )
            &&& forall|k: int|
                0 <= k < t@.len() ==> (#[trigger] t@[k]).0 < t@[k].1 && edges_have(
                    edges@,
                    t@[k].0 as int,
                    t@[k].1 as int,
                    t@[k].2,
                )
            &&& t@.len() == if n as int >= 1 {
                n - 1
            } else {
                0int
            }
            &&& spans(n as int, t@)
        }),
        (exists|e: GraphError| r == Err::<Vec<(usize, usize, i64)>, MstError>(
            MstError::InvalidInput(e),
        )) <==> !edges_ok(n as int, edges@),
        r matches Err(MstError::InvalidInput(e)) ==> exists|k: int|
            0 <= k < edges@.len() && #[trigger] edge_check(n as int, edges@.take(k), edges@[k])
                == Some(e) && (forall|j: int|
                0 <= j < k ==> edge_check(n as int, edges@.take(j), edges@[j]) is None),
        r == Err::<Vec<(usize, usize, i64)>, MstError>(MstError::Disconnected) <==> (edges_ok(
            n as int,
            edges@,
        ) && n >= 2 && !spans(n as int, edges@)),
        r matches Err(e) ==> (e matches MstError::Run(..) || e is NotSpanning) ==> (edges_ok(
            n as int,
            edges@,
        ) && spans(n as int, edges@)),
        edges_ok(n as int, edges@) && n >= 2 && spans(n as int, edges@) && fuel == 0 ==> r == Err::<
            Vec<(usize, usize, i64)>,
            MstError,
        >(MstError::Run(RunError::OutOfFuel)),
        edges_ok(n as int, edges@) && n <= 1 ==> (r matches Ok(t) && t@.len() == 0),
        edges_ok(n as int, edges@) && n == 2 && spans(n as int, edges@) && fuel >= 5 ==> r is Ok,
        edges_ok(n as int, edges@) && n <= 2 ==> (r matches Ok(t) ==> min_weight_spanning(
            n as int,
            edges@,
            t@,
        )),
{
    let g = match GraphView::build(n, edges) {
        Err(e) => {
            return Err(MstError::InvalidInput(e));
        },
        Ok(g) => g,
    };
    if n <= 1 {
        let t: Vec<(usize, usize, i64)> = Vec::new();
        proof {
            assert(t@ =~= Seq::<(usize, usize, i64)>::empty());
            // The built view itself witnesses that the empty edge set
            // spans zero or one vertices: with n <= 1 every valid edge
            // list is empty.
            assert forall|u: int, v: int, w: i64| #[trigger]
                g.has_edge_w(u, v, w) <==> edges_have(t@, u, v, w) by {
                if g.has_edge_w(u, v, w) {
                    assert(g.row_ok(u));
                    let i = choose|i: int|
                        0 <= i < g.adj_of(u).len() && ((#[trigger] g.adj_of(u)[i]).0) as int == v
                            && g.adj_of(u)[i].1 == w;
                    assert(g.adj_of(u)[i].0 as int != u);
                    assert(false);
                }
                if edges_have(t@, u, v, w) {
                    let k = choose|k: int|
                        0 <= k < t@.len() && crate::graph::edge_matches(#[trigger] t@[k], u, v, w);
                }
            }
            if n == 1 {
                lemma_reach_refl(g, 0);
            }
            assert(connected(g));
            assert(spans(n as int, t@));
            // Minimality is trivial here: a valid input this small has
            // no edges to choose from, so the empty tree cannot be
            // undercut.
            assert(edges@.len() == 0) by {
                if edges@.len() > 0 {
                    assert(edge_check(n as int, edges@.take(0), edges@[0]) is None);
                    assert((edges@[0].0 as int) < n && (edges@[0].1 as int) < n);
                    assert(edges@[0].0 == edges@[0].1);
                }
            }
            assert(weight_sum(t@) == 0);
            assert forall|s: Seq<(usize, usize, i64)>|
                s.no_duplicates() && chosen_from(s, edges@) && #[trigger] spans(n as int, s)
                implies weight_sum(s) >= weight_sum(t@) by {
                if s.len() > 0 {
                    assert(edges@.contains(s[0]));
                    let j = choose|j: int| 0 <= j < edges@.len() && edges@[j] == s[0];
                }
                assert(weight_sum(s) == 0);
            }
            assert(min_weight_spanning(n as int, edges@, t@));
        }
        return Ok(t);
    }
    if !g.is_connected() {
        proof {
            // No view with these edges is connected, since
            // connectivity transfers between views with equal edges.
            if spans(n as int, edges@) {
                let gt = choose|gt: GraphView|
                    {
                        &&& #[trigger] gt.wf()
                        &&& gt.vcount() == n as int
                        &&& forall|u: int, v: int, w: i64| #[trigger]
                            gt.has_edge_w(u, v, w) <==> edges_have(edges@, u, v, w)
                        &&& connected(gt)
                    };
                lemma_connected_transfer(gt, g);
            }
        }
        return Err(MstError::Disconnected);
    }
    proof {
        assert(spans(n as int, edges@)) by {
            assert(g.wf() && g.vcount() == n as int && connected(g));
        }
        // With zero fuel the run can only stop out of fuel: the graph
        // is connected on at least two vertices, so no vertex is
        // isolated and the wake phase cannot fault.
        if fuel == 0 {
            assert forall|v: int| 0 <= v < g.vcount() implies g.adj_of(v).len() > 0 by {
                lemma_connected_min_degree(g, v);
            }
        }
        // A valid connected two-vertex graph is the single-edge graph.
        if n == 2 {
            assert forall|v: int| 0 <= v < g.vcount() implies g.adj_of(v).len() > 0 by {
                lemma_connected_min_degree(g, v);
            }
            assert(g.row_ok(0));
            assert(g.row_ok(1));
            if g.adj_of(0).len() >= 2 {
                assert(((g.adj_of(0)[0]).0) as int == 1);
                assert(((g.adj_of(0)[1]).0) as int == 1);
            }
            if g.adj_of(1).len() >= 2 {
                assert(((g.adj_of(1)[0]).0) as int == 0);
                assert(((g.adj_of(1)[1]).0) as int == 0);
            }
            assert(single_edge_graph(g));
        }
    }
    let nodes = match run_ghs(&g, fuel) {
        Err(e) => {
            return Err(MstError::Run(e));
        },
        Ok(nodes) => nodes,
    };
    let t = get_mst_from_data(&nodes, &g);
    proof {
        if n == 2 && fuel >= 5 {
            // On the single-edge graph the run ends with the one edge
            // `Branch` on both sides, so the harvest is exactly that
            // edge, which is itself a valid, connected edge list.
            g.lemma_key_of_entry(0, 0);
            assert(g.row_ok(0));
            assert(g.row_ok(1));
            let w0 = g.adj_of(0)[0].1;
            let t0 = (0usize, 1usize, w0);
            assert(nodes@[0]@ == k2_done(g, 0));
            assert(nodes@[1]@ == k2_done(g, 1));
            assert(k2_done(g, 0).status[1] == Status::Branch);
            assert(k2_done(g, 1).status[0] == Status::Branch);
            assert(g.has_edge_w(0, 1, w0));
            assert(tree_edge(nodes@, g, 0, 1));
            assert(is_tree_triple(nodes@, g, t0));
            assert(t@.contains(t0));
            assert forall|tt: (usize, usize, i64)| #[trigger] t@.contains(tt) implies tt == t0 by {
                assert(is_tree_triple(nodes@, g, tt));
                let wv = choose|wv: i64| g.has_edge_w(tt.0 as int, tt.1 as int, wv);
                let iv = choose|iv: int|
                    0 <= iv < g.adj_of(tt.0 as int).len() && ((#[trigger] g.adj_of(
                        tt.0 as int,
                    )[iv]).0) as int == tt.1 as int && g.adj_of(tt.0 as int)[iv].1 == wv;
                assert(tt.0 == 0 && tt.1 == 1);
                g.lemma_weight_unique(0, 1, tt.2, w0);
            }
            if t@.len() >= 2 {
                assert(t@.contains(t@[0]));
                assert(t@.contains(t@[1]));
            }
            assert(t@.len() == 1);
            assert(t@[0] == t0);
            assert forall|k: int|
                0 <= k < t@.len() implies #[trigger] edge_check(n as int, t@.take(k), t@[k])
                is None by {
                assert(k == 0);
                assert(t@.take(0) =~= Seq::<(usize, usize, i64)>::empty());
                assert(!pair_in(Seq::<(usize, usize, i64)>::empty(), 0, 1)) by {
                    if pair_in(Seq::<(usize, usize, i64)>::empty(), 0, 1) {
                        let wx = choose|wx: i64|
                            edges_have(Seq::<(usize, usize, i64)>::empty(), 0, 1, wx);
                        let kx = choose|kx: int|
                            0 <= kx < Seq::<(usize, usize, i64)>::empty().len()
                                && crate::graph::edge_matches(
                                #[trigger] Seq::<(usize, usize, i64)>::empty()[kx],
                                0,
                                1,
                                wx,
                            );
                    }
                }
            }
            assert(edges_ok(n as int, t@));
        }
    }
    if t.len() != n - 1 {
        return Err(MstError::NotSpanning);
    }
    proof {
        assert forall|k: int|
            0 <= k < t@.len() implies (#[trigger] t@[k]).0 < t@[k].1 && edges_have(
            edges@,
            t@[k].0 as int,
            t@[k].1 as int,
            t@[k].2,
        ) by {
            assert(t@.contains(t@[k]));
            assert(is_tree_triple(nodes@, g, t@[k]));
        }
    }
    // The harvested edges must connect every vertex: check it on a
    // fresh view built from them.
    match GraphView::build(n, &t) {
        Err(_) => Err(MstError::NotSpanning),
        Ok(gt) => {
            proof {
                if n == 2 && fuel >= 5 {
                    // The rebuilt view holds the one edge: both
                    // vertices are reachable from zero.
                    let w0 = g.adj_of(0)[0].1;
                    assert(crate::graph::edge_matches(t@[0], 0, 1, w0));
                    assert(edges_have(t@, 0, 1, w0));
                    assert(gt.has_edge_w(0, 1, w0));
                    assert(gt.has_edge(0, 1));
                    lemma_reach_refl(gt, 0);
                    let p = seq![0int, 1int];
                    assert(p.len() == 2 && p[0] == 0 && p[1] == 1);
                    assert(is_path(gt, p) && p.first() == 0 && p.last() == 1);
                    assert(reachable(gt, 0, 1));
                    assert forall|v: int| 0 <= v < gt.vcount() implies reachable(gt, 0, v) by {}
                    assert(connected(gt));
                }
            }
            if gt.is_connected() {
                proof {
                    assert(spans(n as int, t@)) by {
                        assert(gt.wf() && gt.vcount() == n as int && connected(gt));
                    }
                    lemma_sorted_unique_strict(t@);
                    if n == 2 {
                        // The input has exactly one edge, the harvest
                        // is exactly it, and any spanning selection
                        // must pick it: no selection weighs less.
                        g.lemma_key_of_entry(0, 0);
                        assert(g.row_ok(0));
                        assert(g.row_ok(1));
                        let w0 = g.adj_of(0)[0].1;
                        assert(single_edge_graph(g));
                        assert((g.adj_of(0)[0].0) as int == 1);
                        assert(g.has_edge_w(0, 1, w0));
                        assert(edges_have(edges@, 0, 1, w0));
                        let j0 = choose|j0: int|
                            0 <= j0 < edges@.len() && crate::graph::edge_matches(
                                #[trigger] edges@[j0],
                                0,
                                1,
                                w0,
                            );
                        assert(edges@.len() == 1) by {
                            if edges@.len() >= 2 {
                                assert(edge_check(n as int, edges@.take(1), edges@[1]) is None);
                                assert(edge_check(n as int, edges@.take(0), edges@[0]) is None);
                                let e0 = edges@[0];
                                let e1 = edges@[1];
                                assert((e0.0 as int) < 2 && (e0.1 as int) < 2 && e0.0 != e0.1);
                                assert((e1.0 as int) < 2 && (e1.1 as int) < 2 && e1.0 != e1.1);
                                assert(edges@.take(1)[0] == e0);
                                assert(crate::graph::edge_matches(
                                    e0,
                                    e1.0 as int,
                                    e1.1 as int,
                                    e0.2,
                                ));
                                assert(edges_have(edges@.take(1), e1.0 as int, e1.1 as int, e0.2));
                                assert(pair_in(edges@.take(1), e1.0 as int, e1.1 as int));
                            }
                        }
                        assert(j0 == 0);
                        assert(t@.len() == 1);
                        assert(t@.contains(t@[0]));
                        assert(is_tree_triple(nodes@, g, t@[0]));
                        let tt = t@[0];
                        let wv = choose|wv: i64| g.has_edge_w(tt.0 as int, tt.1 as int, wv);
                        let iv = choose|iv: int|
                            0 <= iv < g.adj_of(tt.0 as int).len() && ((#[trigger] g.adj_of(
                                tt.0 as int,
                            )[iv]).0) as int == tt.1 as int && g.adj_of(tt.0 as int)[iv].1 == wv;
                        assert(tt.0 == 0 && tt.1 == 1);
                        g.lemma_weight_unique(0, 1, tt.2, w0);
                        assert(tt.2 == w0);
                        assert(t@.drop_last() =~= Seq::<(usize, usize, i64)>::empty());
                        assert(weight_sum(t@.drop_last()) == 0);
                        assert(t@.last() == tt);
                        assert(weight_sum(t@) == w0);
                        assert forall|s: Seq<(usize, usize, i64)>|
                            s.no_duplicates() && chosen_from(s, edges@) && #[trigger] spans(
                                n as int,
                                s,
                            ) implies weight_sum(s) >= weight_sum(t@) by {
                            let gt2 = choose|gt2: GraphView|
                                {
                                    &&& #[trigger] gt2.wf()
                                    &&& gt2.vcount() == n as int
                                    &&& forall|u: int, v: int, w: i64| #[trigger]
                                        gt2.has_edge_w(u, v, w) <==> edges_have(s, u, v, w)
                                    &&& connected(gt2)
                                };
                            assert(reachable(gt2, 0, 1));
                            let p = choose|p: Seq<int>|
                                is_path(gt2, p) && p.first() == 0 && p.last() == 1;
                            assert(p.len() >= 2) by {
                                assert(p.first() != p.last());
                            }
                            assert(gt2.has_edge(p[0], p[1]));
                            let wx = choose|wx: i64| #[trigger] gt2.has_edge_w(0, p[1], wx);
                            let ix = choose|ix: int|
                                0 <= ix < gt2.adj_of(0).len() && ((#[trigger] gt2.adj_of(
                                    0,
                                )[ix]).0) as int == p[1] && gt2.adj_of(0)[ix].1 == wx;
                            assert(gt2.row_ok(0));
                            assert(p[1] == 1);
                            assert(gt2.has_edge_w(0, 1, wx));
                            assert(edges_have(s, 0, 1, wx));
                            let kx = choose|kx: int|
                                0 <= kx < s.len() && crate::graph::edge_matches(
                                    #[trigger] s[kx],
                                    0,
                                    1,
                                    wx,
                                );
                            assert(edges@.contains(s[kx]));
                            let jx = choose|jx: int|
                                0 <= jx < edges@.len() && edges@[jx] == s[kx];
                            assert(s[kx] == edges@[0]);
                            assert(s.len() == 1) by {
                                if s.len() >= 2 {
                                    assert(edges@.contains(s[0]));
                                    let ja = choose|ja: int|
                                        0 <= ja < edges@.len() && edges@[ja] == s[0];
                                    assert(edges@.contains(s[1]));
                                    let jb = choose|jb: int|
                                        0 <= jb < edges@.len() && edges@[jb] == s[1];
                                    assert(s[0] == s[1]);
                                }
                            }
                            assert(kx == 0);
                            assert(s.drop_last() =~= Seq::<(usize, usize, i64)>::empty());
                            assert(weight_sum(s) == s[0].2);
                            assert(crate::graph::edge_matches(edges@[0], 0, 1, w0));
                            assert(edges@[0].2 == w0);
                            assert(s[0].2 == w0);
                        }
                        assert(min_weight_spanning(n as int, edges@, t@));
                    }
                }
                Ok(t)
            } else {
                Err(MstError::NotSpanning)
            }
        },
    }
}

} // verus!
