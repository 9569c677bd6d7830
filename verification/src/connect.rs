//! Connectivity of the graph view.
//!
//! The protocol computes a spanning tree only of a connected graph; a
//! disconnected input must be rejected up front.  Connectivity is
//! specified by paths — a sequence of vertices joined by edges — and
//! decided by a breadth-first search whose answer is proved equal to
//! the specification in both directions.

use vstd::prelude::*;
use vstd::set_lib::lemma_int_range;
use vstd::set_lib::lemma_len_subset;
use vstd::set_lib::set_int_range;
use crate::graph::GraphView;

verus! {

/// A walk through the graph: at least one vertex, every vertex in
/// range, consecutive vertices joined by edges.
pub open spec fn is_path(g: GraphView, p: Seq<int>) -> bool {
    &&& p.len() >= 1
    &&& forall|k: int| 0 <= k < p.len() ==> 0 <= #[trigger] p[k] < g.vcount()
    &&& forall|k: int| 0 <= k < p.len() - 1 ==> g.has_edge(#[trigger] p[k], p[k + 1])
}

/// Some walk leads from `u` to `v`.
pub open spec fn reachable(g: GraphView, u: int, v: int) -> bool {
    exists|p: Seq<int>| is_path(g, p) && p.first() == u && p.last() == v
}

/// Every vertex can be reached from vertex zero.
pub open spec fn connected(g: GraphView) -> bool {
    forall|v: int| 0 <= v < g.vcount() ==> reachable(g, 0, v)
}

/// Every vertex reaches itself.
pub proof fn lemma_reach_refl(g: GraphView, v: int)
    requires
        0 <= v < g.vcount(),
    ensures
        reachable(g, v, v),
{
    let p = seq![v];
    assert(is_path(g, p) && p.first() == v && p.last() == v);
}

/// A reachable vertex's neighbor is reachable.
proof fn lemma_reach_step(g: GraphView, u: int, v: int)
    requires
        g.wf(),
        reachable(g, 0, u),
        g.has_edge(u, v),
    ensures
        reachable(g, 0, v),
{
    g.lemma_edge_symmetric(u, v);
    let p = choose|p: Seq<int>| is_path(g, p) && p.first() == 0 && p.last() == u;
    let p2 = p.push(v);
    assert forall|k: int| 0 <= k < p2.len() - 1 implies g.has_edge(#[trigger] p2[k], p2[k + 1]) by {
        if k < p.len() - 1 {
            assert(p2[k] == p[k] && p2[k + 1] == p[k + 1]);
        } else {
            assert(p2[k] == p.last() && p2[k + 1] == v);
        }
    }
    assert(is_path(g, p2) && p2.first() == 0 && p2.last() == v);
}

/// A connected graph on at least two vertices has no isolated vertex:
/// every vertex has an incident edge.
pub proof fn lemma_connected_min_degree(g: GraphView, v: int)
    requires
        g.wf(),
        g.vcount() >= 2,
        connected(g),
        0 <= v < g.vcount(),
    ensures
        g.adj_of(v).len() > 0,
{
    // A walk joining two distinct vertices starts with an edge
    // incident to its first vertex and ends with one incident to its
    // last; one of the two touches `v`.
    let target: int = if v == 0 {
        1
    } else {
        v
    };
    assert(reachable(g, 0, target));
    let p = choose|p: Seq<int>| is_path(g, p) && p.first() == 0 && p.last() == target;
    assert(p.len() >= 2) by {
        assert(p.first() != p.last());
    }
    if v == 0 {
        // The walk's first edge is incident to vertex zero.
        assert(g.has_edge(p[0], p[1]));
        let w = choose|w: i64| #[trigger] g.has_edge_w(p[0], p[1], w);
    } else {
        // The walk's last edge is incident to `v`; flip it.
        assert(g.has_edge(p[p.len() - 2], p[p.len() - 1]));
        g.lemma_edge_symmetric(p[p.len() - 2], v);
        let w = choose|w: i64| #[trigger] g.has_edge_w(v, p[p.len() - 2], w);
    }
}

/// Connectivity depends only on the vertex count and the edge
/// relation: two well-formed views with the same edges are connected
/// together or not at all.
pub proof fn lemma_connected_transfer(g1: GraphView, g2: GraphView)
    requires
        g1.wf(),
        g2.wf(),
        g1.vcount() == g2.vcount(),
        forall|u: int, v: int, w: i64|
            #![trigger g1.has_edge_w(u, v, w)]
            #![trigger g2.has_edge_w(u, v, w)]
            g1.has_edge_w(u, v, w) <==> g2.has_edge_w(u, v, w),
        connected(g1),
    ensures
        connected(g2),
{
    assert forall|v: int| 0 <= v < g2.vcount() implies reachable(g2, 0, v) by {
        assert(reachable(g1, 0, v));
        let p = choose|p: Seq<int>| is_path(g1, p) && p.first() == 0 && p.last() == v;
        assert forall|k: int| 0 <= k < p.len() - 1 implies g2.has_edge(#[trigger] p[k], p[k + 1]) by {
            assert(g1.has_edge(p[k], p[k + 1]));
            let w = choose|w: i64| #[trigger] g1.has_edge_w(p[k], p[k + 1], w);
            assert(g2.has_edge_w(p[k], p[k + 1], w));
        }
        assert(is_path(g2, p));
    }
}

/// Every neighbor of `v` is visited.
pub open spec fn nbrs_visited(g: GraphView, visited: Seq<bool>, v: int) -> bool {
    forall|j: int|
        0 <= j < g.adj_of(v).len() ==> visited[((#[trigger] g.adj_of(v)[j]).0) as int]
}

/// `visited` is closed under edges: every neighbor of a visited vertex
/// is visited.
pub open spec fn closed_under_edges(g: GraphView, visited: Seq<bool>) -> bool {
    forall|u: int| 0 <= u < g.vcount() && visited[u] ==> #[trigger] nbrs_visited(g, visited, u)
}

/// Visiting more vertices cannot unvisit a neighbor.
proof fn lemma_nbrs_visited_mono(g: GraphView, v1: Seq<bool>, v2: Seq<bool>, v: int)
    requires
        g.wf(),
        0 <= v < g.vcount(),
        v1.len() == g.vcount(),
        v2.len() == g.vcount(),
        forall|y: int| 0 <= y < v1.len() && v1[y] ==> v2[y],
        nbrs_visited(g, v1, v),
    ensures
        nbrs_visited(g, v2, v),
{
    assert forall|j: int| 0 <= j < g.adj_of(v).len() implies v2[((#[trigger] g.adj_of(v)[j]).0) as int] by {
        assert(g.row_ok(v));
        assert(v1[((g.adj_of(v)[j]).0) as int]);
    }
}

/// A walk that starts in a closed visited set never leaves it.
proof fn lemma_path_stays(g: GraphView, visited: Seq<bool>, p: Seq<int>)
    requires
        g.wf(),
        visited.len() == g.vcount(),
        closed_under_edges(g, visited),
        is_path(g, p),
        visited[p.first()],
    ensures
        visited[p.last()],
    decreases p.len(),
{
    if p.len() > 1 {
        let q = p.drop_last();
        assert(is_path(g, q));
        lemma_path_stays(g, visited, q);
        let u = p[p.len() - 2];
        let v = p.last();
        assert(g.has_edge(u, v));
        let w = choose|w: i64| g.has_edge_w(u, v, w);
        let j = choose|j: int|
            0 <= j < g.adj_of(u).len() && ((#[trigger] g.adj_of(u)[j]).0) as int == v && g.adj_of(
                u,
            )[j].1 == w;
        assert(nbrs_visited(g, visited, u));
        assert(visited[((g.adj_of(u)[j]).0) as int]);
    }
}

/// A duplicate-free sequence of vertex identifiers below `n` has at
/// most `n` elements.
proof fn lemma_bounded_unique_len(q: Seq<usize>, n: int)
    requires
        q.no_duplicates(),
        forall|a: int| 0 <= a < q.len() ==> ((#[trigger] q[a]) as int) < n,
        n >= 0,
    ensures
        q.len() <= n,
{
    let f = |x: usize| x as int;
    let m = q.map_values(f);
    assert(m.no_duplicates()) by {
        assert forall|i: int, j: int| 0 <= i < m.len() && 0 <= j < m.len() && i != j implies m[i]
            != m[j] by {
            assert(q[i] != q[j]);
        }
    }
    m.unique_seq_to_set();
    assert(m.to_set().subset_of(set_int_range(0, n))) by {
        assert forall|x: int| m.to_set().contains(x) implies set_int_range(0, n).contains(x) by {
            let a = choose|a: int| 0 <= a < m.len() && m[a] == x;
            assert(q[a] as int == x);
        }
    }
    lemma_int_range(0, n);
    lemma_len_subset(m.to_set(), set_int_range(0, n));
}

impl GraphView {
    /// Decides whether every vertex can be reached from vertex zero.
    pub fn is_connected(&self) -> (r: bool)
        requires
            self.wf(),
            self.vcount() >= 1,
        ensures
            r == connected(*self),
    {
        let n = self.vertex_count();
        let mut visited: Vec<bool> = Vec::new();
        let mut j: usize = 0;
        while j < n
            invariant
                j <= n,
                visited@.len() == j,
                forall|a: int| 0 <= a < j ==> !(#[trigger] visited@[a]),
            decreases n - j,
        {
            visited.push(false);
            j = j + 1;
        }
        visited.set(0, true);
        let mut queue: Vec<usize> = Vec::new();
        queue.push(0);
        proof {
            lemma_reach_refl(*self, 0);
            assert(queue@[0] == 0);
        }
        let mut qh: usize = 0;
        while qh < queue.len()
            invariant
                self.wf(),
                n == self.vcount(),
                n >= 1,
                visited@.len() == n,
                qh <= queue@.len(),
                queue@.len() <= n,
                visited@[0],
                queue@.no_duplicates(),
                forall|a: int|
                    0 <= a < queue@.len() ==> ((#[trigger] queue@[a]) as int) < n
                        && visited@[queue@[a] as int],
                forall|v: int| 0 <= v < n && #[trigger] visited@[v] ==> reachable(*self, 0, v),
                // Every visited vertex stands somewhere in the queue.
                forall|v: int|
                    0 <= v < n && #[trigger] visited@[v] ==> exists|a: int|
                        0 <= a < queue@.len() && (#[trigger] queue@[a]) as int == v,
                // Every processed queue entry has all neighbors visited.
                forall|a: int|
                    0 <= a < qh ==> nbrs_visited(*self, visited@, (#[trigger] queue@[a]) as int),
            decreases n - qh,
        {
            let x = queue[qh];
            let deg = self.degree(x);
            let mut i: usize = 0;
            while i < deg
                invariant
                    self.wf(),
                    n == self.vcount(),
                    n >= 1,
                    x < n,
                    visited@.len() == n,
                    qh < queue@.len(),
                    queue@.len() <= n,
                    deg == self.adj_of(x as int).len(),
                    i <= deg,
                    visited@[0],
                    visited@[x as int],
                    x == queue@[qh as int],
                    queue@.no_duplicates(),
                    forall|a: int|
                        0 <= a < queue@.len() ==> ((#[trigger] queue@[a]) as int) < n
                            && visited@[queue@[a] as int],
                    forall|v: int| 0 <= v < n && #[trigger] visited@[v] ==> reachable(*self, 0, v),
                    forall|v: int|
                        0 <= v < n && #[trigger] visited@[v] ==> exists|a: int|
                            0 <= a < queue@.len() && (#[trigger] queue@[a]) as int == v,
                    forall|a: int|
                        0 <= a < qh ==> nbrs_visited(*self, visited@, (#[trigger] queue@[a]) as int),
                    forall|j2: int|
                        0 <= j2 < i ==> visited@[((#[trigger] self.adj_of(x as int)[j2]).0) as int],
                decreases deg - i,
            {
                let (v, _w) = self.neighbor(x, i);
                if !visited[v] {
                    proof {
                        self.lemma_key_of_entry(x as int, i as int);
                        lemma_reach_step(*self, x as int, v as int);
                    }
                    let ghost visited0 = visited@;
                    let ghost queue0 = queue@;
                    visited.set(v, true);
                    queue.push(v);
                    proof {
                        assert(queue@.no_duplicates()) by {
                            assert forall|a: int, b: int|
                                0 <= a < queue@.len() && 0 <= b < queue@.len() && a != b implies (
                            #[trigger] queue@[a]) != (#[trigger] queue@[b]) by {
                                if a < queue0.len() && b < queue0.len() {
                                    assert(queue@[a] == queue0[a] && queue@[b] == queue0[b]);
                                } else if a < queue0.len() {
                                    assert(queue@[b] == v && queue@[a] == queue0[a]);
                                    assert(visited0[queue0[a] as int]);
                                } else {
                                    assert(queue@[a] == v && queue@[b] == queue0[b]);
                                    assert(visited0[queue0[b] as int]);
                                }
                            }
                        }
                        lemma_bounded_unique_len(queue@, n as int);
                        assert forall|y: int| 0 <= y < n && #[trigger] visited@[y] implies exists|
                            a: int,
                        |
                            0 <= a < queue@.len() && (#[trigger] queue@[a]) as int == y by {
                            if y == v as int {
                                assert(queue@[queue0.len() as int] as int == y);
                            } else {
                                assert(visited0[y]);
                                let a = choose|a: int|
                                    0 <= a < queue0.len() && (#[trigger] queue0[a]) as int == y;
                                assert(queue@[a] as int == y);
                            }
                        }
                        assert forall|a: int|
                            0 <= a < qh implies nbrs_visited(
                            *self,
                            visited@,
                            (#[trigger] queue@[a]) as int,
                        ) by {
                            assert(queue@[a] == queue0[a]);
                            lemma_nbrs_visited_mono(
                                *self,
                                visited0,
                                visited@,
                                queue0[a] as int,
                            );
                        }
                        assert forall|j2: int| 0 <= j2 < i + 1 implies visited@[((
                        #[trigger] self.adj_of(x as int)[j2]).0) as int] by {
                            assert(self.row_ok(x as int));
                            if j2 < i {
                                assert(visited0[((self.adj_of(x as int)[j2]).0) as int]);
                            } else {
                                assert(((self.adj_of(x as int)[j2]).0) == v);
                            }
                        }
                    }
                }
                i = i + 1;
            }
            qh = qh + 1;
            proof {
                assert forall|a: int|
                    0 <= a < qh implies nbrs_visited(
                    *self,
                    visited@,
                    (#[trigger] queue@[a]) as int,
                ) by {
                    if a == qh - 1 {
                        assert(queue@[a] == x);
                        assert(nbrs_visited(*self, visited@, x as int));
                    }
                }
            }
        }
        // The queue is fully processed: the visited set is closed.
        proof {
            assert(closed_under_edges(*self, visited@)) by {
                assert forall|u: int|
                    0 <= u < self.vcount() && visited@[u] implies #[trigger] nbrs_visited(
                    *self,
                    visited@,
                    u,
                ) by {
                    let a = choose|a: int|
                        0 <= a < queue@.len() && (#[trigger] queue@[a]) as int == u;
                    assert(nbrs_visited(*self, visited@, queue@[a] as int));
                }
            }
        }
        let mut v: usize = 0;
        while v < n
            invariant
                self.wf(),
                n == self.vcount(),
                n >= 1,
                visited@.len() == n,
                visited@[0],
                v <= n,
                closed_under_edges(*self, visited@),
                forall|x2: int| 0 <= x2 < n && #[trigger] visited@[x2] ==> reachable(*self, 0, x2),
                forall|x2: int| 0 <= x2 < v ==> #[trigger] visited@[x2],
            decreases n - v,
        {
            if !visited[v] {
                proof {
                    if reachable(*self, 0, v as int) {
                        let p = choose|p: Seq<int>|
                            is_path(*self, p) && p.first() == 0 && p.last() == v as int;
                        lemma_path_stays(*self, visited@, p);
                    }
                }
                return false;
            }
            v = v + 1;
        }
        proof {
            assert forall|y: int| 0 <= y < n implies reachable(*self, 0, y) by {
                assert(visited@[y]);
            }
        }
        true
    }
}

} // verus!
