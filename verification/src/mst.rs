//! Harvesting the tree from the final classifications.
//!
//! After termination the supervisor reads every node's classification
//! map.  An edge belongs to the tree exactly when both of its
//! endpoints classify it `Branch`.  Each tree edge is emitted once, as
//! `(u, v, w)` with `u < v`, and the result is sorted by ascending
//! effective key — that is, by weight, with the endpoint pair breaking
//! ties.

use vstd::prelude::*;
use crate::graph::GraphView;
use crate::key::EdgeKey;
use crate::node::Node;
use crate::node::Status;
use crate::sim::nodes_wf;

verus! {

/// Both endpoints classify the edge `Branch`.
pub open spec fn tree_edge(nodes: Seq<Node>, g: GraphView, u: int, v: int) -> bool {
    &&& g.has_edge(u, v)
    &&& nodes[u]@.status[v] == Status::Branch
    &&& nodes[v]@.status[u] == Status::Branch
}

/// `t` is the canonical record of a tree edge: endpoints in order,
/// the graph's weight for them.
pub open spec fn is_tree_triple(nodes: Seq<Node>, g: GraphView, t: (usize, usize, i64)) -> bool {
    &&& t.0 < t.1
    &&& tree_edge(nodes, g, t.0 as int, t.1 as int)
    &&& g.has_edge_w(t.0 as int, t.1 as int, t.2)
}

/// The effective key of a canonical edge record.
pub open spec fn triple_key(t: (usize, usize, i64)) -> EdgeKey {
    EdgeKey { wt: t.2, lo: t.0, hi: t.1 }
}

/// Ascending by effective key.
pub open spec fn sorted_by_key(s: Seq<(usize, usize, i64)>) -> bool {
    forall|a: int, b: int|
        0 <= a < b < s.len() ==> !triple_key(#[trigger] s[b]).spec_lt(triple_key(#[trigger] s[a]))
}

/// A sorted, duplicate-free edge list ascends strictly: every record
/// sorts strictly below every later one, since a record's key spells
/// out all three of its fields.
pub proof fn lemma_sorted_unique_strict(s: Seq<(usize, usize, i64)>)
    requires
        sorted_by_key(s),
        s.no_duplicates(),
    ensures
        forall|a: int, b: int|
            0 <= a < b < s.len() ==> triple_key(#[trigger] s[a]).spec_lt(
                triple_key(#[trigger] s[b]),
            ),
{
    assert forall|a: int, b: int| 0 <= a < b < s.len() implies triple_key(#[trigger] s[a]).spec_lt(
        triple_key(#[trigger] s[b]),
    ) by {
        EdgeKey::lemma_lt_total(triple_key(s[a]), triple_key(s[b]));
        if triple_key(s[a]) == triple_key(s[b]) {
            assert(s[a] == s[b]);
        }
    }
}

/// The harvest is deterministic: two duplicate-free, key-sorted edge
/// lists holding the same records are the same list.  Together with
/// the harvest's contract this pins the emitted tree as a function of
/// the final classification maps and the graph alone.
pub proof fn lemma_harvest_deterministic(r1: Seq<(usize, usize, i64)>, r2: Seq<(usize, usize, i64)>)
    requires
        sorted_by_key(r1),
        r1.no_duplicates(),
        sorted_by_key(r2),
        r2.no_duplicates(),
        forall|t: (usize, usize, i64)| r1.contains(t) <==> #[trigger] r2.contains(t),
    ensures
        r1 == r2,
    decreases r1.len(),
{
    lemma_sorted_unique_strict(r1);
    lemma_sorted_unique_strict(r2);
    if r1.len() == 0 {
        if r2.len() > 0 {
            assert(r2.contains(r2[0]));
            assert(r1.contains(r2[0]));
        }
        assert(r1 =~= r2);
    } else {
        assert(r1.contains(r1[0]));
        assert(r2.contains(r1[0]));
        assert(r2.len() > 0);
        assert(r2.contains(r2[0]));
        assert(r1.contains(r2[0]));
        // The heads agree: each list holds the other's head, and a
        // head is its list's strict key minimum.
        let j = choose|j: int| 0 <= j < r2.len() && r2[j] == r1[0];
        let i = choose|i: int| 0 <= i < r1.len() && r1[i] == r2[0];
        if r1[0] != r2[0] {
            assert(j > 0 && i > 0);
            assert(triple_key(r2[0]).spec_lt(triple_key(r2[j])));
            assert(triple_key(r1[0]).spec_lt(triple_key(r1[i])));
            EdgeKey::lemma_lt_trans(triple_key(r1[0]), triple_key(r1[i]), triple_key(r2[j]));
            EdgeKey::lemma_lt_total(triple_key(r1[0]), triple_key(r2[j]));
        }
        let t1 = r1.drop_first();
        let t2 = r2.drop_first();
        assert forall|a: int, b: int|
            0 <= a < t1.len() && 0 <= b < t1.len() && a != b implies t1[a] != t1[b] by {
            assert(t1[a] == r1[a + 1] && t1[b] == r1[b + 1]);
        }
        assert forall|a: int, b: int|
            0 <= a < t2.len() && 0 <= b < t2.len() && a != b implies t2[a] != t2[b] by {
            assert(t2[a] == r2[a + 1] && t2[b] == r2[b + 1]);
        }
        assert forall|a: int, b: int|
            0 <= a < b < t1.len() implies !triple_key(#[trigger] t1[b]).spec_lt(
            triple_key(#[trigger] t1[a]),
        ) by {
            assert(t1[a] == r1[a + 1] && t1[b] == r1[b + 1]);
        }
        assert forall|a: int, b: int|
            0 <= a < b < t2.len() implies !triple_key(#[trigger] t2[b]).spec_lt(
            triple_key(#[trigger] t2[a]),
        ) by {
            assert(t2[a] == r2[a + 1] && t2[b] == r2[b + 1]);
        }
        // A tail holds exactly the records of its list other than the
        // head, so the two tails hold the same records.
        assert forall|t: (usize, usize, i64)| t1.contains(t) <==> #[trigger] t2.contains(t) by {
            if t1.contains(t) {
                let a = choose|a: int| 0 <= a < t1.len() && t1[a] == t;
                assert(r1[a + 1] == t);
                assert(r2.contains(t));
                let b = choose|b: int| 0 <= b < r2.len() && r2[b] == t;
                assert(t != r1[0]);
                assert(b > 0);
                assert(t2[b - 1] == t);
            }
            if t2.contains(t) {
                let b = choose|b: int| 0 <= b < t2.len() && t2[b] == t;
                assert(r2[b + 1] == t);
                assert(r2.contains(t));
                assert(r1.contains(t));
                let a = choose|a: int| 0 <= a < r1.len() && r1[a] == t;
                assert(t != r2[0]);
                assert(a > 0);
                assert(t1[a - 1] == t);
            }
        }
        lemma_harvest_deterministic(t1, t2);
        assert(r1 =~= r2) by {
            assert(r1.len() == r2.len());
            assert forall|k: int| 0 <= k < r1.len() implies r1[k] == r2[k] by {
                if k > 0 {
                    assert(r1[k] == t1[k - 1] && r2[k] == t2[k - 1]);
                }
            }
        }
    }
}

/// Inserting keeps exactly the old elements plus the new one.
proof fn lemma_insert_contains<T>(s: Seq<T>, p: int, x: T)
    requires
        0 <= p <= s.len(),
    ensures
        forall|y: T| #[trigger] s.insert(p, x).contains(y) <==> s.contains(y) || y == x,
{
    s.insert_ensures(p, x);
    assert forall|y: T| #[trigger] s.insert(p, x).contains(y) <==> s.contains(y) || y == x by {
        if s.insert(p, x).contains(y) {
            let i = choose|i: int| 0 <= i < s.insert(p, x).len() && s.insert(p, x)[i] == y;
            if i < p {
                assert(s[i] == y);
            } else if i == p {
                assert(y == x);
            } else {
                assert(s.insert(p, x)[(i - 1) + 1] == s[i - 1]);
                assert(s[i - 1] == y);
            }
        }
        if s.contains(y) {
            let i = choose|i: int| 0 <= i < s.len() && s[i] == y;
            if i < p {
                assert(s.insert(p, x)[i] == y);
            } else {
                assert(s.insert(p, x)[i + 1] == y);
            }
        }
        if y == x {
            assert(s.insert(p, x)[p] == y);
        }
    }
}

/// Decides whether the record at `p` sorts strictly below the key.
fn key_at_lt(out: &Vec<(usize, usize, i64)>, p: usize, k: &EdgeKey) -> (r: bool)
    requires
        p < out@.len(),
    ensures
        r == triple_key(out@[p as int]).spec_lt(*k),
{
    let t = out[p];
    let tk = EdgeKey { wt: t.2, lo: t.0, hi: t.1 };
    tk.lt(k)
}

/// Inserts a canonical edge record at its sorted position.
fn insert_sorted(out: &mut Vec<(usize, usize, i64)>, t: (usize, usize, i64))
    requires
        sorted_by_key(old(out)@),
        !old(out)@.contains(t),
        old(out)@.no_duplicates(),
    ensures
        sorted_by_key(final(out)@),
        final(out)@.len() == old(out)@.len() + 1,
        final(out)@.no_duplicates(),
        forall|y: (usize, usize, i64)| #[trigger]
            final(out)@.contains(y) <==> old(out)@.contains(y) || y == t,
{
    let k = EdgeKey { wt: t.2, lo: t.0, hi: t.1 };
    let mut p: usize = 0;
    while p < out.len() && key_at_lt(out, p, &k)
        invariant
            p <= out@.len(),
            k == triple_key(t),
            forall|j: int| 0 <= j < p ==> triple_key(#[trigger] out@[j]).spec_lt(k),
        decreases out@.len() - p,
    {
        p = p + 1;
    }
    let ghost out0 = out@;
    let ghost pp = p as int;
    out.insert(p, t);
    proof {
        assert(out@ == out0.insert(pp, t));
        out0.insert_ensures(pp, t);
        lemma_insert_contains(out0, pp, t);
        // The new record was absent, so no entry repeats.
        assert forall|j1: int, j2: int|
            0 <= j1 < out@.len() && 0 <= j2 < out@.len() && j1 != j2 implies out@[j1]
            != out@[j2] by {
            let o1: int = if j1 < pp {
                j1
            } else {
                j1 - 1
            };
            let o2: int = if j2 < pp {
                j2
            } else {
                j2 - 1
            };
            if j1 != pp && j2 != pp {
                assert(out@[j1] == out0[o1]);
                assert(out@[j2] == out0[o2]);
            } else if j1 == pp {
                assert(out@[j1] == t);
                assert(out@[j2] == out0[o2]);
                assert(out0.contains(out0[o2]));
            } else {
                assert(out@[j2] == t);
                assert(out@[j1] == out0[o1]);
                assert(out0.contains(out0[o1]));
            }
        }
        // Everything at or after the insertion point is at least `k`.
        assert forall|j: int| pp <= j < out0.len() implies !triple_key(
            #[trigger] out0[j],
        ).spec_lt(k) by {
            if triple_key(out0[j]).spec_lt(k) {
                if pp < out0.len() && j > pp {
                    // sorted: out0[pp] <= out0[j] < k, contradicting the
                    // loop's stopping condition at pp.
                    if triple_key(out0[pp]).spec_lt(k) {
                    } else {
                        EdgeKey::lemma_lt_total(triple_key(out0[pp]), triple_key(out0[j]));
                        if triple_key(out0[pp]).spec_lt(triple_key(out0[j])) {
                            EdgeKey::lemma_lt_trans(
                                triple_key(out0[pp]),
                                triple_key(out0[j]),
                                k,
                            );
                        } else if triple_key(out0[pp]) == triple_key(out0[j]) {
                        }
                    }
                }
            }
        }
        assert forall|a: int, b: int| 0 <= a < b < out@.len() implies !triple_key(
            #[trigger] out@[b],
        ).spec_lt(triple_key(#[trigger] out@[a])) by {
            if a < pp && b < pp {
                assert(out@[a] == out0[a]);
                assert(out@[b] == out0[b]);
            } else if a < pp && b == pp {
                assert(out@[a] == out0[a]);
                assert(out@[b] == t);
                // out0[a] < k, so k is not below out0[a].
                EdgeKey::lemma_lt_total(triple_key(out0[a]), k);
            } else if a < pp && b > pp {
                assert(out@[a] == out0[a]);
                assert(out@[b] == out0[b - 1]);
            } else if a == pp {
                assert(out@[a] == t);
                assert(out@[b] == out0[b - 1]);
                // out0[b-1] is not below k.
                EdgeKey::lemma_lt_total(triple_key(out0[b - 1]), k);
            } else {
                assert(out@[a] == out0[a - 1]);
                assert(out@[b] == out0[b - 1]);
            }
        }
    }
}

/// Reads the final classification maps and returns the tree: every
/// edge that both endpoints classify `Branch`, once, as
/// `(min, max, weight)`, sorted ascending by weight (ties broken by
/// the endpoint pair).  By `lemma_harvest_deterministic` these clauses
/// leave exactly one possible result for given maps and graph.
pub fn get_mst_from_data(nodes: &Vec<Node>, g: &GraphView) -> (r: Vec<(usize, usize, i64)>)
    requires
        g.wf(),
        nodes_wf(nodes@, *g),
    ensures
        forall|t: (usize, usize, i64)| #[trigger]
            r@.contains(t) <==> is_tree_triple(nodes@, *g, t),
        sorted_by_key(r@),
        r@.no_duplicates(),
{
    let n = g.vertex_count();
    let mut out: Vec<(usize, usize, i64)> = Vec::new();
    proof {
        assert(out@ =~= Seq::<(usize, usize, i64)>::empty());
    }
    let mut u: usize = 0;
    while u < n
        invariant
            g.wf(),
            nodes_wf(nodes@, *g),
            n == g.vcount(),
            u <= n,
            sorted_by_key(out@),
            out@.no_duplicates(),
            forall|t: (usize, usize, i64)| #[trigger]
                out@.contains(t) <==> is_tree_triple(nodes@, *g, t) && (t.0 as int) < u,
        decreases n - u,
    {
        let deg = g.degree(u);
        let mut i: usize = 0;
        while i < deg
            invariant
                g.wf(),
                nodes_wf(nodes@, *g),
                n == g.vcount(),
                u < n,
                deg == g.adj_of(u as int).len(),
                i <= deg,
                sorted_by_key(out@),
                out@.no_duplicates(),
                forall|t: (usize, usize, i64)| #[trigger]
                    out@.contains(t) <==> is_tree_triple(nodes@, *g, t) && ((t.0 as int) < u || (
                    t.0 == u && exists|j: int|
                        0 <= j < i && ((#[trigger] g.adj_of(u as int)[j]).0) == t.1)),
            decreases deg - i,
        {
            let (v, wt) = g.neighbor(u, i);
            proof {
                g.lemma_key_of_entry(u as int, i as int);
            }
            let ghost out_before = out@;
            if u < v && nodes[u].status[v] == Status::Branch && nodes[v].status[u]
                == Status::Branch {
                proof {
                    // The record is new: a duplicate would need `v` at
                    // an earlier position of the row, and the row holds
                    // each neighbor once.
                    if out@.contains((u, v, wt)) {
                        assert(g.row_ok(u as int));
                        let j = choose|j: int|
                            0 <= j < i && ((#[trigger] g.adj_of(u as int)[j]).0) == v;
                        assert(g.adj_of(u as int)[j].0 == g.adj_of(u as int)[i as int].0);
                        assert(false);
                    }
                }
                insert_sorted(&mut out, (u, v, wt));
                proof {
                    assert(is_tree_triple(nodes@, *g, (u, v, wt)));
                }
            }
            proof {
                assert forall|t: (usize, usize, i64)| #[trigger]
                    out@.contains(t) <==> (is_tree_triple(nodes@, *g, t) && ((t.0 as int) < u || (
                    t.0 == u && exists|j: int|
                        0 <= j < i + 1 && ((#[trigger] g.adj_of(u as int)[j]).0) == t.1))) by {
                    let row = g.adj_of(u as int);
                    if out@.contains(t) {
                        if out_before.contains(t) {
                            if t.0 == u && !((t.0 as int) < u) {
                                let j = choose|j: int| 0 <= j < i && (#[trigger] row[j]).0 == t.1;
                                assert(0 <= j < i + 1 && row[j].0 == t.1);
                            }
                        } else {
                            assert(t == (u, v, wt));
                            assert(row[i as int].0 == t.1);
                        }
                    }
                    if is_tree_triple(nodes@, *g, t) && t.0 == u && exists|j: int|
                        0 <= j < i + 1 && ((#[trigger] row[j]).0) == t.1 {
                        let j = choose|j: int| 0 <= j < i + 1 && (#[trigger] row[j]).0 == t.1;
                        if j < i {
                            assert(out_before.contains(t));
                        } else {
                            // The entry at i names v; the triple for v is
                            // exactly the one just inserted.
                            assert(row[i as int].0 == v);
                            assert(t.1 == v);
                            assert(t.0 == u && t.0 < t.1);
                            g.lemma_weight_unique(u as int, v as int, t.2, wt);
                            assert(t == (u, v, wt));
                            assert(out@.contains(t));
                        }
                    }
                }
            }
            i = i + 1;
        }
        proof {
            assert forall|t: (usize, usize, i64)| #[trigger]
                out@.contains(t) <==> (is_tree_triple(nodes@, *g, t) && (t.0 as int) < u + 1) by {
                let row = g.adj_of(u as int);
                if out@.contains(t) && t.0 == u {
                    assert((t.0 as int) < u + 1);
                }
                if is_tree_triple(nodes@, *g, t) && (t.0 as int) < u + 1 && !((t.0 as int) < u) {
                    // t.0 == u: the edge to t.1 appears somewhere in row u.
                    let w = choose|w: i64| g.has_edge_w(u as int, t.1 as int, w);
                    let j = choose|j: int|
                        0 <= j < row.len() && ((#[trigger] row[j]).0) as int == t.1 as int
                            && row[j].1 == w;
                    assert(0 <= j < deg && row[j].0 == t.1);
                }
            }
        }
        u = u + 1;
    }
    proof {
        assert forall|t: (usize, usize, i64)| #[trigger]
            out@.contains(t) <==> is_tree_triple(nodes@, *g, t) by {
            if is_tree_triple(nodes@, *g, t) {
                assert((t.0 as int) < g.vcount());
            }
        }
    }
    out
}

} // verus!
