//! The immutable view of the weighted undirected graph.
//!
//! Vertices are the dense identifiers `0..n`.  The graph is stored as
//! adjacency lists: `adj[u]` holds one `(neighbor, weight)` pair for
//! every edge incident to `u`.  The view is built once from an edge
//! list, validated, and never mutated afterwards.

use vstd::prelude::*;
use crate::key::EdgeKey;

verus! {

/// Why an edge list is rejected as the description of a graph.
#[derive(Clone, Copy, PartialEq, Eq, Structural, Debug)]
pub enum GraphError {
    /// An endpoint is not a vertex identifier below the vertex count.
    EndpointOutOfRange,
    /// An edge joins a vertex to itself.
    SelfLoop,
    /// The same unordered vertex pair appears on two edges.
    DuplicateEdge,
}

/// True when `e` is the edge between `u` and `v` with weight `w`, in
/// either direction.
pub open spec fn edge_matches(e: (usize, usize, i64), u: int, v: int, w: i64) -> bool {
    ||| (e.0 as int == u && e.1 as int == v && e.2 == w)
    ||| (e.0 as int == v && e.1 as int == u && e.2 == w)
}

/// True when the edge list holds the edge between `u` and `v` with
/// weight `w`, in either direction.
pub open spec fn edges_have(edges: Seq<(usize, usize, i64)>, u: int, v: int, w: i64) -> bool {
    exists|k: int| 0 <= k < edges.len() && edge_matches(#[trigger] edges[k], u, v, w)
}

/// True when the edge list joins `u` and `v` with some weight.
pub open spec fn pair_in(edges: Seq<(usize, usize, i64)>, u: int, v: int) -> bool {
    exists|w: i64| edges_have(edges, u, v, w)
}

/// The verdict on one edge, given the vertex count and the edges that
/// came before it: the first applicable error, or `None` when the edge
/// is acceptable.
pub open spec fn edge_check(n: int, prior: Seq<(usize, usize, i64)>, e: (usize, usize, i64)) -> Option<
    GraphError,
> {
    if e.0 as int >= n || e.1 as int >= n {
        Some(GraphError::EndpointOutOfRange)
    } else if e.0 == e.1 {
        Some(GraphError::SelfLoop)
    } else if pair_in(prior, e.0 as int, e.1 as int) {
        Some(GraphError::DuplicateEdge)
    } else {
        None
    }
}

/// True when every edge of the list passes `edge_check` against the
/// edges before it.
pub open spec fn edges_ok(n: int, edges: Seq<(usize, usize, i64)>) -> bool {
    forall|k: int| 0 <= k < edges.len() ==> #[trigger] edge_check(n, edges.take(k), edges[k]) is None
}

/// True when row `u` of `a` holds the pair `(v, w)`.
pub open spec fn rows_have_edge(a: Seq<Vec<(usize, i64)>>, u: int, v: int, w: i64) -> bool {
    &&& 0 <= u < a.len()
    &&& exists|i: int|
        0 <= i < a[u]@.len() && (#[trigger] a[u]@[i]).0 as int == v && a[u]@[i].1 == w
}

/// The immutable description of the weighted undirected graph.
pub struct GraphView {
    /// The number of vertices; identifiers are `0..n`.
    pub n: usize,
    /// `adj[u]` lists each neighbor of `u` with the weight of the
    /// joining edge.
    pub adj: Vec<Vec<(usize, i64)>>,
}

impl GraphView {
    /// The number of vertices.
    pub open spec fn vcount(self) -> int {
        self.n as int
    }

    /// The adjacency row of vertex `u`.
    pub open spec fn adj_of(self, u: int) -> Seq<(usize, i64)> {
        self.adj@[u]@
    }

    /// True when the graph joins `u` to `v` with weight `w`.
    pub open spec fn has_edge_w(self, u: int, v: int, w: i64) -> bool {
        rows_have_edge(self.adj@, u, v, w)
    }

    /// True when the graph joins `u` to `v`.
    pub open spec fn has_edge(self, u: int, v: int) -> bool {
        exists|w: i64| self.has_edge_w(u, v, w)
    }

    /// The weight of the edge between `u` and `v`.
    pub open spec fn weight(self, u: int, v: int) -> i64 {
        choose|w: i64| self.has_edge_w(u, v, w)
    }

    /// The effective key of the edge between `u` and `v`.
    pub open spec fn key_of(self, u: int, v: int) -> EdgeKey {
        EdgeKey::spec_of_edge(u, v, self.weight(u, v) as int)
    }

    /// Every entry of row `u` names a vertex other than `u`, and no
    /// neighbor repeats within the row.
    pub open spec fn row_ok(self, u: int) -> bool {
        &&& forall|i: int|
            0 <= i < self.adj_of(u).len() ==> ((#[trigger] self.adj_of(u)[i]).0 as int)
                < self.vcount() && self.adj_of(u)[i].0 as int != u
        &&& forall|i: int, j: int|
            0 <= i < self.adj_of(u).len() && 0 <= j < self.adj_of(u).len() && i != j ==> (
            #[trigger] self.adj_of(u)[i]).0 != (#[trigger] self.adj_of(u)[j]).0
    }

    /// Well-formedness: one row per vertex, every row acceptable, and
    /// the edge relation symmetric.
    pub open spec fn wf(self) -> bool {
        &&& self.adj@.len() == self.vcount()
        &&& forall|u: int| 0 <= u < self.vcount() ==> #[trigger] self.row_ok(u)
        &&& forall|u: int, v: int, w: i64| #[trigger] self.has_edge_w(u, v, w) ==> self.has_edge_w(
            v,
            u,
            w,
        )
    }

    /// At most one weight joins a given pair of vertices.
    pub proof fn lemma_weight_unique(self, u: int, v: int, w1: i64, w2: i64)
        requires
            self.wf(),
            0 <= u < self.vcount(),
            self.has_edge_w(u, v, w1),
            self.has_edge_w(u, v, w2),
        ensures
            w1 == w2,
    {
        let i1 = choose|i: int|
            0 <= i < self.adj_of(u).len() && (#[trigger] self.adj_of(u)[i]).0 as int == v
                && self.adj_of(u)[i].1 == w1;
        let i2 = choose|i: int|
            0 <= i < self.adj_of(u).len() && (#[trigger] self.adj_of(u)[i]).0 as int == v
                && self.adj_of(u)[i].1 == w2;
        assert(self.row_ok(u));
        assert(i1 == i2);
    }

    /// An edge has the same weight seen from either endpoint.
    pub proof fn lemma_edge_symmetric(self, u: int, v: int)
        requires
            self.wf(),
            self.has_edge(u, v),
        ensures
            self.has_edge(v, u),
            self.weight(v, u) == self.weight(u, v),
            self.key_of(v, u) == self.key_of(u, v),
            0 <= u < self.vcount(),
            0 <= v < self.vcount(),
            u != v,
            self.has_edge_w(u, v, self.weight(u, v)),
            self.has_edge_w(v, u, self.weight(u, v)),
    {
        let w = choose|w: i64| self.has_edge_w(u, v, w);
        assert(self.has_edge_w(v, u, w));
        assert(self.row_ok(u));
        let i = choose|i: int|
            0 <= i < self.adj_of(u).len() && (#[trigger] self.adj_of(u)[i]).0 as int == v
                && self.adj_of(u)[i].1 == w;
        self.lemma_weight_unique(u, v, self.weight(u, v), w);
        self.lemma_weight_unique(v, u, self.weight(v, u), w);
    }

    /// Two distinct edges around the same vertex have distinct keys.
    pub proof fn lemma_keys_distinct(self, u: int, v1: int, v2: int)
        requires
            self.wf(),
            self.has_edge(u, v1),
            self.has_edge(u, v2),
            v1 != v2,
        ensures
            self.key_of(u, v1) != self.key_of(u, v2),
    {
        self.lemma_edge_symmetric(u, v1);
        self.lemma_edge_symmetric(u, v2);
    }

    /// An adjacency entry names an edge whose weight and key are the
    /// ones recorded in the row.
    pub proof fn lemma_key_of_entry(self, u: int, j: int)
        requires
            self.wf(),
            0 <= u < self.vcount(),
            0 <= j < self.adj_of(u).len(),
        ensures
            ({
                let e = self.adj_of(u)[j];
                &&& self.has_edge(u, e.0 as int)
                &&& self.has_edge_w(u, e.0 as int, e.1)
                &&& self.weight(u, e.0 as int) == e.1
                &&& self.key_of(u, e.0 as int) == EdgeKey::spec_of_edge(u, e.0 as int, e.1 as int)
            }),
    {
        let e = self.adj_of(u)[j];
        assert(self.has_edge_w(u, e.0 as int, e.1));
        self.lemma_weight_unique(u, e.0 as int, self.weight(u, e.0 as int), e.1);
    }

    /// The number of vertices.
    pub fn vertex_count(&self) -> (r: usize)
        ensures
            r == self.vcount(),
    {
        self.n
    }

    /// The number of edges incident to `u`.
    pub fn degree(&self, u: usize) -> (r: usize)
        requires
            self.wf(),
            u < self.vcount(),
        ensures
            r == self.adj_of(u as int).len(),
    {
        self.adj[u].len()
    }

    /// The `i`-th incident edge of `u`: the neighbor and the weight.
    pub fn neighbor(&self, u: usize, i: usize) -> (r: (usize, i64))
        requires
            self.wf(),
            u < self.vcount(),
            i < self.adj_of(u as int).len(),
        ensures
            r == self.adj_of(u as int)[i as int],
            self.has_edge_w(u as int, r.0 as int, r.1),
            r.0 < self.vcount(),
            r.0 != u,
    {
        let r = self.adj[u][i];
        proof {
            assert(self.row_ok(u as int));
        }
        r
    }

    /// The weight of the edge between `u` and `v`, or `None` when the
    /// graph has no such edge.
    pub fn weight_between(&self, u: usize, v: usize) -> (r: Option<i64>)
        requires
            self.wf(),
            u < self.vcount(),
        ensures
            r is Some <==> self.has_edge(u as int, v as int),
            r matches Some(w) ==> self.has_edge_w(u as int, v as int, w) && w == self.weight(
                u as int,
                v as int,
            ),
    {
        let row = &self.adj[u];
        let mut i: usize = 0;
        while i < row.len()
            invariant
                self.wf(),
                u < self.vcount(),
                row == &self.adj[u as int],
                i <= row@.len(),
                forall|j: int| 0 <= j < i ==> (#[trigger] row@[j]).0 != v,
            decreases row@.len() - i,
        {
            let (nbr, w) = row[i];
            if nbr == v {
                proof {
                    assert(self.has_edge_w(u as int, v as int, w));
                    self.lemma_weight_unique(
                        u as int,
                        v as int,
                        w,
                        self.weight(u as int, v as int),
                    );
                }
                return Some(w);
            }
            i = i + 1;
        }
        proof {
            assert forall|w: i64| !self.has_edge_w(u as int, v as int, w) by {
                if self.has_edge_w(u as int, v as int, w) {
                    let j = choose|j: int|
                        0 <= j < self.adj_of(u as int).len() && (#[trigger] self.adj_of(
                            u as int,
                        )[j]).0 as int == v as int && self.adj_of(u as int)[j].1 == w;
                }
            }
        }
        None
    }
}

/// Extending row `u` of `a` with the pair `(v, w)` adds exactly the
/// edge `(u, v, w)` to the row relation.
proof fn lemma_rows_push(
    a: Seq<Vec<(usize, i64)>>,
    b: Seq<Vec<(usize, i64)>>,
    u: int,
    v: usize,
    w: i64,
)
    requires
        0 <= u < a.len(),
        b.len() == a.len(),
        b[u]@ == a[u]@.push((v, w)),
        forall|x: int| 0 <= x < a.len() && x != u ==> a[x] == b[x],
    ensures
        forall|x: int, y: int, ww: i64| #[trigger]
            rows_have_edge(b, x, y, ww) <==> rows_have_edge(a, x, y, ww) || (x == u && y == v as int
                && ww == w),
{
    assert forall|x: int, y: int, ww: i64| #[trigger]
        rows_have_edge(b, x, y, ww) <==> rows_have_edge(a, x, y, ww) || (x == u && y == v as int
            && ww == w) by {
        if x == u {
            if rows_have_edge(b, x, y, ww) {
                let i = choose|i: int|
                    0 <= i < b[x]@.len() && (#[trigger] b[x]@[i]).0 as int == y && b[x]@[i].1 == ww;
                if i < a[x]@.len() {
                    assert(a[x]@[i] == b[x]@[i]);
                    assert(rows_have_edge(a, x, y, ww));
                } else {
                    assert(b[x]@[i] == (v, w));
                }
            }
            if rows_have_edge(a, x, y, ww) {
                let i = choose|i: int|
                    0 <= i < a[x]@.len() && (#[trigger] a[x]@[i]).0 as int == y && a[x]@[i].1 == ww;
                assert(b[x]@[i] == a[x]@[i]);
                assert(rows_have_edge(b, x, y, ww));
            }
            if x == u && y == v as int && ww == w {
                assert(b[x]@[a[x]@.len() as int] == (v, w));
                assert(rows_have_edge(b, x, y, ww));
            }
        } else {
            if rows_have_edge(b, x, y, ww) {
                let i = choose|i: int|
                    0 <= i < b[x]@.len() && (#[trigger] b[x]@[i]).0 as int == y && b[x]@[i].1 == ww;
                assert(a[x]@[i] == b[x]@[i]);
            }
            if rows_have_edge(a, x, y, ww) {
                let i = choose|i: int|
                    0 <= i < a[x]@.len() && (#[trigger] a[x]@[i]).0 as int == y && a[x]@[i].1 == ww;
                assert(b[x]@[i] == a[x]@[i]);
            }
        }
    }
}

/// The edge relation of a list is symmetric in the endpoints.
proof fn lemma_edges_have_sym(edges: Seq<(usize, usize, i64)>, u: int, v: int, w: i64)
    requires
        edges_have(edges, u, v, w),
    ensures
        edges_have(edges, v, u, w),
{
    let k = choose|k: int| 0 <= k < edges.len() && edge_matches(#[trigger] edges[k], u, v, w);
    assert(edge_matches(edges[k], v, u, w));
}

/// Taking one more edge of the list extends the edge relation by
/// exactly that edge.
proof fn lemma_edges_have_take_step(edges: Seq<(usize, usize, i64)>, k: int)
    requires
        0 <= k < edges.len(),
    ensures
        forall|u: int, v: int, w: i64| #[trigger]
            edges_have(edges.take(k + 1), u, v, w) <==> edges_have(edges.take(k), u, v, w)
                || edge_matches(edges[k], u, v, w),
{
    assert forall|u: int, v: int, w: i64| #[trigger]
        edges_have(edges.take(k + 1), u, v, w) <==> edges_have(edges.take(k), u, v, w)
            || edge_matches(edges[k], u, v, w) by {
        if edges_have(edges.take(k + 1), u, v, w) {
            let j = choose|j: int|
                0 <= j < edges.take(k + 1).len() && edge_matches(
                    #[trigger] edges.take(k + 1)[j],
                    u,
                    v,
                    w,
                );
            if j < k {
                assert(edges.take(k)[j] == edges.take(k + 1)[j]);
                assert(edges_have(edges.take(k), u, v, w));
            } else {
                assert(edges.take(k + 1)[j] == edges[k]);
            }
        }
        if edges_have(edges.take(k), u, v, w) {
            let j = choose|j: int|
                0 <= j < edges.take(k).len() && edge_matches(#[trigger] edges.take(k)[j], u, v, w);
            assert(edges.take(k + 1)[j] == edges.take(k)[j]);
            assert(edges_have(edges.take(k + 1), u, v, w));
        }
        if edge_matches(edges[k], u, v, w) {
            assert(edges.take(k + 1)[k] == edges[k]);
            assert(edges_have(edges.take(k + 1), u, v, w));
        }
    }
}

impl GraphView {
    /// Builds the graph view from a vertex count and an edge list.
    ///
    /// The list is checked in order; the first edge with an endpoint
    /// out of range, a self-loop, or a repeated unordered endpoint
    /// pair decides the error.  On success the view is well formed and
    /// holds exactly the listed edges, each seen from both endpoints.
    pub fn build(n: usize, edges: &Vec<(usize, usize, i64)>) -> (r: Result<GraphView, GraphError>)
        ensures
            r is Ok <==> edges_ok(n as int, edges@),
            r matches Ok(g) ==> g.wf() && g.vcount() == n && (forall|u: int, v: int, w: i64|
                #[trigger] g.has_edge_w(u, v, w) <==> edges_have(edges@, u, v, w)),
            r matches Err(e) ==> exists|k: int|
                0 <= k < edges@.len() && #[trigger] edge_check(n as int, edges@.take(k), edges@[k])
                    == Some(e) && (forall|j: int|
                    0 <= j < k ==> edge_check(n as int, edges@.take(j), edges@[j]) is None),
    {
        let mut adj: Vec<Vec<(usize, i64)>> = Vec::new();
        let mut u: usize = 0;
        while u < n
            invariant
                u <= n,
                adj@.len() == u,
                forall|x: int| 0 <= x < u ==> (#[trigger] adj@[x])@.len() == 0,
            decreases n - u,
        {
            adj.push(Vec::new());
            u = u + 1;
        }
        let mut k: usize = 0;
        while k < edges.len()
            invariant
                k <= edges@.len(),
                adj@.len() == n,
                forall|j: int| 0 <= j < k ==> #[trigger] edge_check(n as int, edges@.take(j), edges@[j]) is None,
                forall|x: int, y: int, w: i64| #[trigger]
                    rows_have_edge(adj@, x, y, w) <==> edges_have(edges@.take(k as int), x, y, w),
                forall|x: int, i: int|
                    0 <= x < n && 0 <= i < adj@[x]@.len() ==> ((#[trigger] adj@[x]@[i]).0 as int)
                        < n && adj@[x]@[i].0 as int != x,
                forall|x: int, i: int, j: int|
                    0 <= x < n && 0 <= i < adj@[x]@.len() && 0 <= j < adj@[x]@.len() && i != j ==> (
                    #[trigger] adj@[x]@[i]).0 != (#[trigger] adj@[x]@[j]).0,
            decreases edges@.len() - k,
        {
            let (eu, ev, ew) = edges[k];
            let ghost prior = edges@.take(k as int);
            if eu >= n || ev >= n {
                proof {
                    assert(edge_check(n as int, edges@.take(k as int), edges@[k as int]) == Some(
                        GraphError::EndpointOutOfRange,
                    ));
                }
                return Err(GraphError::EndpointOutOfRange);
            }
            if eu == ev {
                proof {
                    assert(edge_check(n as int, edges@.take(k as int), edges@[k as int]) == Some(
                        GraphError::SelfLoop,
                    ));
                }
                return Err(GraphError::SelfLoop);
            }
            // A duplicate unordered pair shows up in row `eu`.
            let mut dup = false;
            let row = &adj[eu];
            let mut i: usize = 0;
            while i < row.len()
                invariant
                    i <= row@.len(),
                    row == &adj@[eu as int],
                    eu < adj@.len(),
                    dup <==> exists|j: int| 0 <= j < i && (#[trigger] row@[j]).0 == ev,
                decreases row@.len() - i,
            {
                if row[i].0 == ev {
                    dup = true;
                }
                i = i + 1;
            }
            proof {
                if dup {
                    let j = choose|j: int| 0 <= j < row@.len() && (#[trigger] row@[j]).0 == ev;
                    assert(rows_have_edge(adj@, eu as int, ev as int, row@[j].1));
                    assert(pair_in(prior, eu as int, ev as int));
                } else {
                    if pair_in(prior, eu as int, ev as int) {
                        let w = choose|w: i64| edges_have(prior, eu as int, ev as int, w);
                        assert(rows_have_edge(adj@, eu as int, ev as int, w));
                        let j = choose|j: int|
                            0 <= j < adj@[eu as int]@.len() && (#[trigger] adj@[eu as int]@[j]).0 as int
                                == ev as int && adj@[eu as int]@[j].1 == w;
                    }
                }
            }
            if dup {
                proof {
                    assert(edge_check(n as int, edges@.take(k as int), edges@[k as int]) == Some(
                        GraphError::DuplicateEdge,
                    ));
                }
                return Err(GraphError::DuplicateEdge);
            }
            let ghost adj0 = adj@;
            let mut row_u = adj.remove(eu);
            row_u.push((ev, ew));
            adj.insert(eu, row_u);
            proof {
                assert(adj@ =~= adj0.update(eu as int, adj@[eu as int]));
                lemma_rows_push(adj0, adj@, eu as int, ev, ew);
            }
            let ghost adj1 = adj@;
            let mut row_v = adj.remove(ev);
            row_v.push((eu, ew));
            adj.insert(ev, row_v);
            proof {
                assert(adj@ =~= adj1.update(ev as int, adj@[ev as int]));
                lemma_rows_push(adj1, adj@, ev as int, eu, ew);
                lemma_edges_have_take_step(edges@, k as int);
                assert(edges@.take(k as int + 1)[k as int] == edges@[k as int]);
                // The new rows stay free of duplicate neighbors: `ev`
                // was absent from row `eu`, and by the relation
                // invariant `eu` was absent from row `ev`.
                assert forall|x: int, i: int, j: int|
                    0 <= x < n && 0 <= i < adj@[x]@.len() && 0 <= j < adj@[x]@.len() && i != j
                    implies (#[trigger] adj@[x]@[i]).0 != (#[trigger] adj@[x]@[j]).0 by {
                    if x == eu as int {
                        assert(adj@[x]@ == adj0[x]@.push((ev, ew)));
                        if i < adj0[x]@.len() && j < adj0[x]@.len() {
                            assert(adj0[x]@[i] == adj@[x]@[i]);
                            assert(adj0[x]@[j] == adj@[x]@[j]);
                        } else if i < adj0[x]@.len() {
                            assert(adj@[x]@[j] == (ev, ew));
                            if adj0[x]@[i].0 == ev {
                                assert(rows_have_edge(adj0, eu as int, ev as int, adj0[x]@[i].1));
                                assert(edges_have(prior, eu as int, ev as int, adj0[x]@[i].1));
                                assert(pair_in(prior, eu as int, ev as int));
                            }
                        } else {
                            assert(adj@[x]@[i] == (ev, ew));
                            assert(adj0[x]@[j] == adj@[x]@[j]);
                            if adj0[x]@[j].0 == ev {
                                assert(rows_have_edge(adj0, eu as int, ev as int, adj0[x]@[j].1));
                                assert(edges_have(prior, eu as int, ev as int, adj0[x]@[j].1));
                                assert(pair_in(prior, eu as int, ev as int));
                            }
                        }
                    } else if x == ev as int {
                        assert(adj@[x]@ == adj0[x]@.push((eu, ew)));
                        if i < adj0[x]@.len() && j < adj0[x]@.len() {
                            assert(adj0[x]@[i] == adj@[x]@[i]);
                            assert(adj0[x]@[j] == adj@[x]@[j]);
                        } else if i < adj0[x]@.len() {
                            assert(adj@[x]@[j] == (eu, ew));
                            if adj0[x]@[i].0 == eu {
                                assert(rows_have_edge(adj0, ev as int, eu as int, adj0[x]@[i].1));
                                assert(edges_have(prior, ev as int, eu as int, adj0[x]@[i].1));
                                lemma_edges_have_sym(prior, ev as int, eu as int, adj0[x]@[i].1);
                                assert(pair_in(prior, eu as int, ev as int));
                            }
                        } else {
                            assert(adj@[x]@[i] == (eu, ew));
                            assert(adj0[x]@[j] == adj@[x]@[j]);
                            if adj0[x]@[j].0 == eu {
                                assert(rows_have_edge(adj0, ev as int, eu as int, adj0[x]@[j].1));
                                assert(edges_have(prior, ev as int, eu as int, adj0[x]@[j].1));
                                lemma_edges_have_sym(prior, ev as int, eu as int, adj0[x]@[j].1);
                                assert(pair_in(prior, eu as int, ev as int));
                            }
                        }
                    } else {
                        assert(adj@[x] == adj0[x]);
                    }
                }
            }
            k = k + 1;
        }
        proof {
            assert(edges@.take(edges@.len() as int) =~= edges@);
        }
        let g = GraphView { n, adj };
        proof {
            assert forall|x: int| 0 <= x < g.vcount() implies #[trigger] g.row_ok(x) by {}
            assert forall|x: int, y: int, w: i64| #[trigger] g.has_edge_w(x, y, w) implies g
                .has_edge_w(y, x, w) by {
                assert(edges_have(edges@, x, y, w));
                assert(edges_have(edges@, y, x, w));
            }
        }
        Ok(g)
    }
}

} // verus!
