//! The deterministic scheduler.
//!
//! The protocol is asynchronous: any fair delivery order computes the
//! same tree.  This module drives the vertex actors in one process,
//! deterministically — one inbox per vertex, visited round-robin, one
//! message handled per turn — until some actor detects global
//! termination, a handler reports a protocol fault, or the fuel runs
//! out.  Before the final states are handed out, the classification
//! maps are checked for the symmetry the protocol owes: a tree edge is
//! `Branch` on both sides, and a non-tree edge is `Branch` on neither
//! and `Reject` on at least one.

use vstd::prelude::*;
use crate::graph::GraphView;
use crate::inbox::Inbox;
use crate::key::EdgeKey;
use crate::node::Message;
use crate::node::Node;
use crate::node::NodeV;
use crate::node::State;
use crate::node::Status;
use crate::node::bcast_sends;
use crate::node::count_branch;
use crate::node::find_min_rel;
use crate::node::initial_node;
use crate::node::is_min_basic;
use crate::node::is_min_incident;
use crate::node::msg_wf;
use crate::node::sends_wf;

verus! {

/// Why a protocol run produced no tree.
#[derive(Clone, Copy, PartialEq, Eq, Structural, Debug)]
pub enum RunError {
    /// A handler detected a protocol-invariant violation.
    Fault,
    /// The fuel ran out before global termination was detected.
    OutOfFuel,
    /// The final classifications broke the symmetry the protocol owes.
    Asymmetric,
}

/// One node per vertex, each well formed and standing at its own
/// index.
pub open spec fn nodes_wf(nodes: Seq<Node>, g: GraphView) -> bool {
    &&& nodes.len() == g.vcount()
    &&& forall|i: int|
        0 <= i < nodes.len() ==> (#[trigger] nodes[i])@.wf(g) && nodes[i]@.index as int == i
}

/// Every queued message of every inbox is well formed.
pub open spec fn inboxes_wf(ibs: Seq<Inbox>, n: int) -> bool {
    forall|i: int, k: int|
        0 <= i < ibs.len() && 0 <= k < ibs[i]@.len() ==> msg_wf(#[trigger] ibs[i]@[k], n)
}

/// At termination each edge is `Branch` on both sides or on neither.
pub open spec fn branch_symmetric(nodes: Seq<Node>, g: GraphView) -> bool {
    forall|u: int, v: int|
        #[trigger] g.has_edge(u, v) && 0 <= u < nodes.len() && 0 <= v < nodes.len() ==> (
        nodes[u]@.status[v] == Status::Branch <==> nodes[v]@.status[u] == Status::Branch)
}

/// At termination an edge that is not `Branch` on both sides is
/// `Branch` on neither, and `Reject` on at least one.
pub open spec fn nontree_rejected(nodes: Seq<Node>, g: GraphView) -> bool {
    forall|u: int, v: int|
        #[trigger] g.has_edge(u, v) && 0 <= u < nodes.len() && 0 <= v < nodes.len() && !(
        nodes[u]@.status[v] == Status::Branch && nodes[v]@.status[u] == Status::Branch)
            ==> nodes[u]@.status[v] != Status::Branch && nodes[v]@.status[u] != Status::Branch && (
        nodes[u]@.status[v] == Status::Reject || nodes[v]@.status[u] == Status::Reject)
}

/// The protocol's smallest instance: two vertices joined by one edge.
pub open spec fn single_edge_graph(g: GraphView) -> bool {
    &&& g.vcount() == 2
    &&& g.adj_of(0).len() == 1
    &&& g.adj_of(1).len() == 1
}

/// The key of the only edge of a single-edge graph.
pub open spec fn k2_key(g: GraphView) -> EdgeKey {
    EdgeKey { wt: g.adj_of(0)[0].1, lo: 0, hi: 1 }
}

/// The other vertex of a single-edge graph.
pub open spec fn k2_other(j: usize) -> usize {
    if j == 0 {
        1usize
    } else {
        0usize
    }
}

/// A woken node of the single-edge graph: level zero, found, its only
/// edge `Branch`.
pub open spec fn k2_woken(j: usize) -> NodeV {
    let init = initial_node(2, j);
    NodeV { state: State::Found, status: init.status.update(k2_other(j) as int, Status::Branch), ..init }
}

/// A node of the single-edge graph after the merge: level one, named
/// by the edge, parent across the edge, search finished with nothing
/// outgoing.
pub open spec fn k2_done(g: GraphView, j: usize) -> NodeV {
    let init = initial_node(2, j);
    NodeV {
        state: State::Found,
        status: init.status.update(k2_other(j) as int, Status::Branch),
        name: k2_key(g),
        level: 1,
        parent: Some(k2_other(j)),
        ..init
    }
}

/// Where the run on the single-edge graph stands after `steps` turns:
/// the two wakes cross `Connect`s, the merge crosses `Initiate`s at
/// level one, both searches come up empty and cross infinite
/// `Report`s, and the first echo detects termination.
pub open spec fn k2_trace(
    g: GraphView,
    nodes: Seq<Node>,
    inboxes: Seq<Inbox>,
    turn: usize,
    steps: u64,
    halted: bool,
) -> bool {
    let c0 = Message::Connect { level: 0, sender: 0 };
    let c1 = Message::Connect { level: 0, sender: 1 };
    let i0 = Message::Initiate { level: 1, name: k2_key(g), state: State::Find, sender: 0 };
    let i1 = Message::Initiate { level: 1, name: k2_key(g), state: State::Find, sender: 1 };
    let r0 = Message::Report { best: None, sender: 0 };
    let r1 = Message::Report { best: None, sender: 1 };
    if halted {
        nodes[0]@ == k2_done(g, 0) && nodes[1]@ == k2_done(g, 1)
    } else {
        &&& steps <= 4
        &&& (steps == 0 ==> turn == 0 && nodes[0]@ == k2_woken(0) && nodes[1]@ == k2_woken(1)
            && inboxes[0]@ == seq![c1] && inboxes[1]@ == seq![c0])
        &&& (steps == 1 ==> turn == 1 && nodes[0]@ == k2_woken(0) && nodes[1]@ == k2_woken(1)
            && inboxes[0]@ == Seq::<Message>::empty() && inboxes[1]@ == seq![c0, i0])
        &&& (steps == 2 ==> turn == 0 && nodes[0]@ == k2_woken(0) && nodes[1]@ == k2_woken(1)
            && inboxes[0]@ == seq![i1] && inboxes[1]@ == seq![i0])
        &&& (steps == 3 ==> turn == 1 && nodes[0]@ == k2_done(g, 0) && nodes[1]@ == k2_woken(1)
            && inboxes[0]@ == Seq::<Message>::empty() && inboxes[1]@ == seq![i0, r0])
        &&& (steps == 4 ==> turn == 0 && nodes[0]@ == k2_done(g, 0) && nodes[1]@ == k2_done(g, 1)
            && inboxes[0]@ == seq![r1] && inboxes[1]@ == seq![r0])
    }
}

/// On a single-edge graph each row records the shared edge, seen from
/// its side, with one common weight and key.
proof fn lemma_k2_rows(g: GraphView)
    requires
        g.wf(),
        single_edge_graph(g),
    ensures
        g.adj_of(0)[0].0 == 1,
        g.adj_of(1)[0].0 == 0,
        g.adj_of(1)[0].1 == g.adj_of(0)[0].1,
        g.has_edge(0, 1),
        g.has_edge(1, 0),
        g.key_of(0, 1) == k2_key(g),
        g.key_of(1, 0) == k2_key(g),
{
    assert(g.row_ok(0));
    assert(g.row_ok(1));
    g.lemma_key_of_entry(0, 0);
    g.lemma_key_of_entry(1, 0);
    g.lemma_weight_unique(1, 0, g.adj_of(1)[0].1, g.adj_of(0)[0].1);
}

/// Both per-edge conditions for the ordered pair `(u, v)`.
pub open spec fn pair_ok(nodes: Seq<Node>, u: int, v: int) -> bool {
    &&& (nodes[u]@.status[v] == Status::Branch <==> nodes[v]@.status[u] == Status::Branch)
    &&& (!(nodes[u]@.status[v] == Status::Branch && nodes[v]@.status[u] == Status::Branch)
        ==> nodes[u]@.status[v] != Status::Branch && nodes[v]@.status[u] != Status::Branch && (
    nodes[u]@.status[v] == Status::Reject || nodes[v]@.status[u] == Status::Reject))
}

/// Removing an element and inserting another at the same place is a
/// point update.
proof fn lemma_remove_insert<T>(s: Seq<T>, i: int, x: T)
    requires
        0 <= i < s.len(),
    ensures
        s.remove(i).insert(i, x) == s.update(i, x),
{
    assert(s.remove(i).insert(i, x) =~= s.update(i, x));
}

/// The messages of `sends` addressed to `d`, in send order.
pub open spec fn sends_to(sends: Seq<(usize, Message)>, d: int) -> Seq<Message>
    decreases sends.len(),
{
    if sends.len() == 0 {
        Seq::<Message>::empty()
    } else {
        sends_to(sends.drop_last(), d) + if sends.last().0 as int == d {
            seq![sends.last().1]
        } else {
            Seq::<Message>::empty()
        }
    }
}

/// A single send reaches exactly its destination.
proof fn lemma_sends_to_single(d: usize, m: Message, i: int)
    ensures
        sends_to(seq![(d, m)], i) == if d as int == i {
            seq![m]
        } else {
            Seq::<Message>::empty()
        },
{
    assert(seq![(d, m)].drop_last() =~= Seq::<(usize, Message)>::empty());
    assert(sends_to(seq![(d, m)].drop_last(), i) == Seq::<Message>::empty());
    if d as int == i {
        assert(sends_to(seq![(d, m)], i) =~= seq![m]);
    } else {
        assert(sends_to(seq![(d, m)], i) =~= Seq::<Message>::empty());
    }
}

/// No sends reach nobody.
proof fn lemma_sends_to_none(i: int)
    ensures
        sends_to(Seq::<(usize, Message)>::empty(), i) == Seq::<Message>::empty(),
{
}

/// Posts every queued send to its destination inbox: each inbox ends
/// with exactly the messages addressed to it appended at its tail, in
/// send order — none lost, none reordered.
fn deliver(inboxes: &mut Vec<Inbox>, sends: &Vec<(usize, Message)>)
    requires
        sends_wf(sends@, old(inboxes)@.len() as int),
        inboxes_wf(old(inboxes)@, old(inboxes)@.len() as int),
    ensures
        final(inboxes)@.len() == old(inboxes)@.len(),
        inboxes_wf(final(inboxes)@, old(inboxes)@.len() as int),
        forall|i: int|
            0 <= i < old(inboxes)@.len() ==> (#[trigger] final(inboxes)@[i])@ == old(
                inboxes,
            )@[i]@ + sends_to(sends@, i),
{
    let n = inboxes.len();
    proof {
        assert forall|i: int| 0 <= i < n implies (#[trigger] inboxes@[i])@ == old(inboxes)@[i]@
            + sends_to(sends@.take(0), i) by {
            assert(sends@.take(0) =~= Seq::<(usize, Message)>::empty());
            assert(old(inboxes)@[i]@ + Seq::<Message>::empty() =~= old(inboxes)@[i]@);
        }
    }
    let mut k: usize = 0;
    while k < sends.len()
        invariant
            k <= sends@.len(),
            inboxes@.len() == n,
            n == old(inboxes)@.len(),
            sends_wf(sends@, n as int),
            inboxes_wf(inboxes@, n as int),
            forall|i: int|
                0 <= i < n ==> (#[trigger] inboxes@[i])@ == old(inboxes)@[i]@ + sends_to(
                    sends@.take(k as int),
                    i,
                ),
        decreases sends@.len() - k,
    {
        let (d, m) = sends[k];
        let ghost ibs0 = inboxes@;
        let mut ib = inboxes.remove(d);
        ib.post(m);
        inboxes.insert(d, ib);
        proof {
            lemma_remove_insert(ibs0, d as int, ib);
            assert forall|i: int, j: int|
                0 <= i < inboxes@.len() && 0 <= j < inboxes@[i]@.len() implies msg_wf(
                #[trigger] inboxes@[i]@[j],
                n as int,
            ) by {
                if i == d as int {
                    assert(inboxes@[i]@ == ibs0[i]@.push(m));
                    if j < ibs0[i]@.len() {
                        assert(inboxes@[i]@[j] == ibs0[i]@[j]);
                    } else {
                        assert(inboxes@[i]@[j] == m);
                    }
                } else {
                    assert(inboxes@[i] == ibs0[i]);
                }
            }
            assert(sends@.take(k as int + 1).drop_last() =~= sends@.take(k as int));
            assert(sends@.take(k as int + 1).last() == sends@[k as int]);
            assert forall|i: int| 0 <= i < n implies (#[trigger] inboxes@[i])@ == old(
                inboxes,
            )@[i]@ + sends_to(sends@.take(k as int + 1), i) by {
                let before = sends_to(sends@.take(k as int), i);
                if i == d as int {
                    assert(inboxes@[i]@ == ibs0[i]@.push(m));
                    assert(ibs0[i]@ == old(inboxes)@[i]@ + before);
                    assert(sends_to(sends@.take(k as int + 1), i) == before + seq![m]);
                    assert((old(inboxes)@[i]@ + before).push(m) =~= old(inboxes)@[i]@ + (before
                        + seq![m]));
                } else {
                    assert(inboxes@[i] == ibs0[i]);
                    assert(sends_to(sends@.take(k as int + 1), i) == before + Seq::<
                        Message,
                    >::empty());
                    assert(before + Seq::<Message>::empty() =~= before);
                }
            }
        }
        k = k + 1;
    }
    proof {
        assert(sends@.take(sends@.len() as int) =~= sends@);
    }
}

/// Checks the per-edge symmetry conditions of the final
/// classifications: tree edges `Branch` on both sides, other edges
/// `Branch` on neither and `Reject` on at least one.
pub fn check_outcome(nodes: &Vec<Node>, g: &GraphView) -> (r: bool)
    requires
        g.wf(),
        nodes_wf(nodes@, *g),
    ensures
        r == (branch_symmetric(nodes@, *g) && nontree_rejected(nodes@, *g)),
{
    let n = g.vertex_count();
    let mut u: usize = 0;
    while u < n
        invariant
            g.wf(),
            nodes_wf(nodes@, *g),
            n == g.vcount(),
            u <= n,
            forall|x: int, j: int|
                0 <= x < u && 0 <= j < g.adj_of(x).len() ==> pair_ok(
                    nodes@,
                    x,
                    ((#[trigger] g.adj_of(x)[j]).0) as int,
                ),
        decreases n - u,
    {
        let deg = g.degree(u);
        let mut i: usize = 0;
        while i < deg
            invariant
                g.wf(),
                nodes_wf(nodes@, *g),
                n == g.vcount(),
                u < n,
                deg == g.adj_of(u as int).len(),
                i <= deg,
                forall|x: int, j: int|
                    0 <= x < u && 0 <= j < g.adj_of(x).len() ==> pair_ok(
                        nodes@,
                        x,
                        ((#[trigger] g.adj_of(x)[j]).0) as int,
                    ),
                forall|j: int|
                    0 <= j < i ==> pair_ok(nodes@, u as int, ((#[trigger] g.adj_of(u as int)[j]).0) as int),
            decreases deg - i,
        {
            let (v, _w) = g.neighbor(u, i);
            let su = nodes[u].status[v];
            let sv = nodes[v].status[u];
            let both = su == Status::Branch && sv == Status::Branch;
            let ok = if both {
                true
            } else {
                su != Status::Branch && sv != Status::Branch && (su == Status::Reject || sv
                    == Status::Reject)
            };
            if !ok {
                proof {
                    assert(g.has_edge(u as int, v as int)) by {
                        g.lemma_key_of_entry(u as int, i as int);
                    }
                    assert(!pair_ok(nodes@, u as int, v as int));
                }
                return false;
            }
            i = i + 1;
        }
        u = u + 1;
    }
    proof {
        assert forall|x: int, y: int|
            #[trigger] g.has_edge(x, y) && 0 <= x < nodes@.len() && 0 <= y < nodes@.len() implies pair_ok(
            nodes@,
            x,
            y,
        ) by {
            let w = choose|w: i64| g.has_edge_w(x, y, w);
            let j = choose|j: int|
                0 <= j < g.adj_of(x).len() && ((#[trigger] g.adj_of(x)[j]).0) as int == y && g.adj_of(
                    x,
                )[j].1 == w;
            assert(pair_ok(nodes@, x, ((g.adj_of(x)[j]).0) as int));
        }
    }
    true
}

/// Runs the whole protocol deterministically: wakes every vertex, then
/// hands each vertex in turn one message from its inbox, until global
/// termination is detected.  `fuel` bounds the number of turns, so the
/// run always returns.  On success the final nodes are returned, their
/// classifications checked for the symmetry the protocol owes.
///
/// An isolated vertex cannot wake, so it forces exactly a fault; on a
/// graph without one, zero fuel forces exactly an out-of-fuel stop.
/// On the smallest instance — the single-edge graph — five turns
/// provably suffice: the contract owes success and the exact final
/// states.  Whether a given fuel suffices on a larger graph is the
/// protocol's liveness theorem and is not part of this contract: a
/// caller learns from the result, never from the fuel, whether the
/// run finished.
pub fn run_ghs(g: &GraphView, fuel: u64) -> (r: Result<Vec<Node>, RunError>)
    requires
        g.wf(),
        g.vcount() >= 1,
    ensures
        r matches Ok(nodes) ==> ({
            &&& nodes_wf(nodes@, *g)
            &&& branch_symmetric(nodes@, *g)
            &&& nontree_rejected(nodes@, *g)
        }),
        (exists|v: int| 0 <= v < g.vcount() && g.adj_of(v).len() == 0) ==> r == Err::<
            Vec<Node>,
            RunError,
        >(RunError::Fault),
        (forall|v: int| 0 <= v < g.vcount() ==> g.adj_of(v).len() > 0) && fuel == 0 ==> r == Err::<
            Vec<Node>,
            RunError,
        >(RunError::OutOfFuel),
        single_edge_graph(*g) && fuel >= 5 ==> (r matches Ok(nodes) && nodes@[0]@ == k2_done(*g, 0)
            && nodes@[1]@ == k2_done(*g, 1)),
{
    let n = g.vertex_count();
    let mut nodes: Vec<Node> = Vec::new();
    let mut i: usize = 0;
    while i < n
        invariant
            g.wf(),
            n == g.vcount(),
            i <= n,
            nodes@.len() == i,
            forall|j: int|
                0 <= j < i ==> (#[trigger] nodes@[j])@ == crate::node::initial_node(n as int, j as usize),
        decreases n - i,
    {
        nodes.push(Node::new(n, i));
        i = i + 1;
    }
    let mut inboxes: Vec<Inbox> = Vec::new();
    let mut i2: usize = 0;
    while i2 < n
        invariant
            i2 <= n,
            inboxes@.len() == i2,
            forall|j: int| 0 <= j < i2 ==> (#[trigger] inboxes@[j])@.len() == 0,
        decreases n - i2,
    {
        inboxes.push(Inbox::new());
        i2 = i2 + 1;
    }
    proof {
        assert forall|j: int| 0 <= j < n implies (#[trigger] nodes@[j])@.wf(*g) && nodes@[j]@.index
            as int == j by {
            assert(nodes@[j]@ == crate::node::initial_node(n as int, j as usize));
        }
    }
    // Wake every vertex.
    proof {
        if single_edge_graph(*g) {
            assert(inboxes@[0]@ =~= Seq::<Message>::empty());
            assert(inboxes@[1]@ =~= Seq::<Message>::empty());
        }
    }
    let mut w: usize = 0;
    while w < n
        invariant
            g.wf(),
            n == g.vcount(),
            w <= n,
            nodes_wf(nodes@, *g),
            inboxes@.len() == n,
            inboxes_wf(inboxes@, n as int),
            forall|j: int| 0 <= j < w ==> g.adj_of(j).len() > 0,
            forall|j: int|
                w <= j < n ==> (#[trigger] nodes@[j])@ == crate::node::initial_node(
                    n as int,
                    j as usize,
                ),
            single_edge_graph(*g) ==> ({
                &&& (w >= 1 ==> nodes@[0]@ == k2_woken(0))
                &&& (w >= 2 ==> nodes@[1]@ == k2_woken(1))
                &&& inboxes@[0]@ == (if w >= 2 {
                    seq![(Message::Connect { level: 0u64, sender: 1usize })]
                } else {
                    Seq::<Message>::empty()
                })
                &&& inboxes@[1]@ == (if w >= 1 {
                    seq![(Message::Connect { level: 0u64, sender: 0usize })]
                } else {
                    Seq::<Message>::empty()
                })
            }),
        decreases n - w,
    {
        let ghost nodes0 = nodes@;
        let ghost ibs_pre = inboxes@;
        let mut nd = nodes.remove(w);
        proof {
            assert(nd@ == crate::node::initial_node(n as int, w));
        }
        let eff = nd.initialize(g);
        nodes.insert(w, nd);
        proof {
            lemma_remove_insert(nodes0, w as int, nd);
            assert forall|j: int| 0 <= j < n implies ((#[trigger] nodes@[j])@.wf(*g) && nodes@[j]@.index
                as int == j) by {
                if j != w as int {
                    assert(nodes@[j] == nodes0[j]);
                }
            }
            assert forall|j: int| w + 1 <= j < n implies (#[trigger] nodes@[j])@
                == crate::node::initial_node(n as int, j as usize) by {
                assert(nodes@[j] == nodes0[j]);
            }
            if single_edge_graph(*g) {
                lemma_k2_rows(*g);
                let init = initial_node(2, w);
                let q = choose|q: usize|
                    {
                        &&& #[trigger] is_min_incident(*g, w as int, q as int)
                        &&& nd@ == NodeV {
                            state: State::Found,
                            status: init.status.update(q as int, Status::Branch),
                            ..init
                        }
                        &&& eff.sends@ == seq![
                            (q, Message::Connect { level: 0, sender: w }),
                        ]
                        &&& !eff.fault
                    };
                // The chosen neighbor is the only one.
                assert(g.has_edge(w as int, q as int));
                let ww = choose|ww: i64| g.has_edge_w(w as int, q as int, ww);
                let ii = choose|ii: int|
                    0 <= ii < g.adj_of(w as int).len() && ((#[trigger] g.adj_of(w as int)[ii]).0)
                        as int == q as int && g.adj_of(w as int)[ii].1 == ww;
                assert(q == k2_other(w));
                assert(nd@ == k2_woken(w));
                let s1 = eff.sends@;
                assert(s1.len() == 1);
                assert(s1.last() == (q, Message::Connect { level: 0u64, sender: w }));
                assert(s1.drop_last() =~= Seq::<(usize, Message)>::empty());
                assert(s1.drop_last().len() == 0);
                assert(sends_to(s1.drop_last(), q as int) == Seq::<Message>::empty());
                assert(sends_to(s1.drop_last(), k2_other(q) as int) == Seq::<Message>::empty());
                assert(sends_to(s1, q as int) =~= seq![
                    (Message::Connect { level: 0u64, sender: w }),
                ]);
                assert(q as int != k2_other(q) as int);
                assert(sends_to(s1, k2_other(q) as int) =~= Seq::<Message>::empty());
            }
        }
        if eff.fault {
            return Err(RunError::Fault);
        }
        deliver(&mut inboxes, &eff.sends);
        proof {
            if single_edge_graph(*g) {
                assert(inboxes@[0]@ == ibs_pre[0]@ + sends_to(eff.sends@, 0));
                assert(inboxes@[1]@ == ibs_pre[1]@ + sends_to(eff.sends@, 1));
                if w == 0 {
                    assert(inboxes@[1]@ =~= seq![
                        (Message::Connect { level: 0u64, sender: 0usize }),
                    ]);
                    assert(inboxes@[0]@ =~= Seq::<Message>::empty());
                } else {
                    assert(inboxes@[0]@ =~= seq![
                        (Message::Connect { level: 0u64, sender: 1usize }),
                    ]);
                    assert(inboxes@[1]@ =~= seq![
                        (Message::Connect { level: 0u64, sender: 0usize }),
                    ]);
                }
            }
        }
        w = w + 1;
    }
    // The event loop: one inbox message per turn, round-robin.
    let mut halted = false;
    let mut steps: u64 = 0;
    let mut turn: usize = 0;
    while steps < fuel && !halted
        invariant
            g.wf(),
            n == g.vcount(),
            turn < n,
            steps <= fuel,
            nodes_wf(nodes@, *g),
            inboxes@.len() == n,
            inboxes_wf(inboxes@, n as int),
            forall|j: int| 0 <= j < n ==> g.adj_of(j).len() > 0,
            halted ==> fuel > 0,
            single_edge_graph(*g) && fuel >= 5 ==> k2_trace(
                *g,
                nodes@,
                inboxes@,
                turn,
                steps,
                halted,
            ),
        decreases fuel - steps,
    {
        let ghost ibs0 = inboxes@;
        let mut ib = inboxes.remove(turn);
        let popped = ib.try_pop();
        inboxes.insert(turn, ib);
        proof {
            lemma_remove_insert(ibs0, turn as int, ib);
            assert forall|i3: int, j: int|
                0 <= i3 < inboxes@.len() && 0 <= j < inboxes@[i3]@.len() implies msg_wf(
                #[trigger] inboxes@[i3]@[j],
                n as int,
            ) by {
                if i3 == turn as int {
                    assert(ibs0[i3]@.len() > 0 ==> inboxes@[i3]@ == ibs0[i3]@.subrange(
                        1,
                        ibs0[i3]@.len() as int,
                    ));
                    if ibs0[i3]@.len() > 0 {
                        assert(inboxes@[i3]@[j] == ibs0[i3]@[j + 1]);
                    }
                } else {
                    assert(inboxes@[i3] == ibs0[i3]);
                }
            }
        }
        match popped {
            None => {},
            Some(msg) => {
                proof {
                    assert(msg == ibs0[turn as int]@[0]);
                    assert(msg_wf(msg, n as int));
                }
                let ghost nodes0 = nodes@;
                let ghost ibs_mid = inboxes@;
                let mut nd = nodes.remove(turn);
                let eff = match msg {
                    Message::Connect { .. } => nd.process_connect(msg, g),
                    Message::Initiate { .. } => nd.process_initiate(msg, g),
                    Message::Test { .. } => nd.process_test(msg, g),
                    Message::Accept { .. } => nd.process_accept(msg, g),
                    Message::Reject { .. } => nd.process_reject(msg, g),
                    Message::Report { .. } => nd.process_report(msg, g),
                    Message::ChangeRoot { .. } => nd.process_change_root(msg, g),
                };
                nodes.insert(turn, nd);
                proof {
                    lemma_remove_insert(nodes0, turn as int, nd);
                    assert forall|j: int| 0 <= j < n implies ((#[trigger] nodes@[j])@.wf(*g)
                        && nodes@[j]@.index as int == j) by {
                        if j != turn as int {
                            assert(nodes@[j] == nodes0[j]);
                        }
                    }
                    if single_edge_graph(*g) && fuel >= 5 {
                        lemma_k2_rows(*g);
                        let gg = *g;
                        if steps == 0 {
                            // Node 0 handles its neighbor's Connect at
                            // equal level over a Branch edge: merge.
                            assert(msg == Message::Connect { level: 0u64, sender: 1usize });
                            assert(nodes0[0]@ == k2_woken(0));
                            assert(k2_woken(0).status[1] == Status::Branch);
                            assert(nd@ == k2_woken(0));
                            assert(eff.sends@ == seq![
                                (
                                    1usize,
                                    Message::Initiate {
                                        level: 1u64,
                                        name: k2_key(gg),
                                        state: State::Find,
                                        sender: 0usize,
                                    },
                                ),
                            ]);
                            assert(!eff.fault && !eff.halt);
                        } else if steps == 1 {
                            assert(msg == Message::Connect { level: 0u64, sender: 0usize });
                            assert(nodes0[1]@ == k2_woken(1));
                            assert(k2_woken(1).status[0] == Status::Branch);
                            assert(nd@ == k2_woken(1));
                            assert(eff.sends@ == seq![
                                (
                                    0usize,
                                    Message::Initiate {
                                        level: 1u64,
                                        name: k2_key(gg),
                                        state: State::Find,
                                        sender: 1usize,
                                    },
                                ),
                            ]);
                            assert(!eff.fault && !eff.halt);
                        } else if steps == 2 {
                            // Node 0 adopts the merged identity; its
                            // only edge is the tree edge, so nothing is
                            // left to probe and it reports infinity.
                            assert(msg == Message::Initiate {
                                level: 1u64,
                                name: k2_key(gg),
                                state: State::Find,
                                sender: 1usize,
                            });
                            let pre = k2_woken(0);
                            assert(nodes0[0]@ == pre);
                            let mid = NodeV {
                                level: 1u64,
                                name: k2_key(gg),
                                state: State::Find,
                                parent: Some(1usize),
                                best_wt: None,
                                best_node: None,
                                test_node: None,
                                ..pre
                            };
                            let fwd = Message::Initiate {
                                level: 1u64,
                                name: k2_key(gg),
                                state: State::Find,
                                sender: 0usize,
                            };
                            assert(gg.adj_of(0).drop_last() =~= Seq::<(usize, i64)>::empty());
                            assert(bcast_sends(gg.adj_of(0).drop_last(), pre.status, 1usize, fwd)
                                == Seq::<(usize, Message)>::empty());
                            assert(gg.adj_of(0).last().0 == 1usize);
                            assert(bcast_sends(gg.adj_of(0), pre.status, 1usize, fwd) =~= Seq::<
                                (usize, Message),
                            >::empty());
                            let pre2 = NodeV { rec: 0, ..mid };
                            assert(pre2 == mid);
                            let tail = choose|tail: Seq<(usize, Message)>|
                                eff.sends@ == bcast_sends(gg.adj_of(0), pre.status, 1usize, fwd)
                                    + tail && #[trigger] find_min_rel(
                                    pre2,
                                    nd@,
                                    gg,
                                    tail,
                                    eff.fault,
                                );
                            assert(Seq::<(usize, Message)>::empty() + tail =~= tail);
                            assert(eff.sends@ == tail);
                            assert forall|qq: int| !is_min_basic(pre2, gg, qq) by {
                                if is_min_basic(pre2, gg, qq) {
                                    let ww2 = choose|ww2: i64| gg.has_edge_w(0, qq, ww2);
                                    let ii2 = choose|ii2: int|
                                        0 <= ii2 < gg.adj_of(0).len() && ((#[trigger] gg.adj_of(
                                            0,
                                        )[ii2]).0) as int == qq && gg.adj_of(0)[ii2].1 == ww2;
                                    assert(qq == 1);
                                    assert(pre2.status[1] == Status::Branch);
                                }
                            }
                            assert(NodeV { test_node: None, ..pre2 } == pre2);
                            assert(count_branch(
                                gg.adj_of(0).drop_last(),
                                pre2.status,
                                1usize,
                            ) == 0);
                            assert(count_branch(gg.adj_of(0), pre2.status, 1usize) == 0);
                            assert(nd@ == NodeV { state: State::Found, ..pre2 });
                            assert(nd@ == k2_done(gg, 0));
                            assert(eff.sends@ == seq![
                                (1usize, Message::Report { best: None, sender: 0usize }),
                            ]);
                            assert(!eff.fault && !eff.halt);
                        } else if steps == 3 {
                            assert(msg == Message::Initiate {
                                level: 1u64,
                                name: k2_key(gg),
                                state: State::Find,
                                sender: 0usize,
                            });
                            let pre = k2_woken(1);
                            assert(nodes0[1]@ == pre);
                            let mid = NodeV {
                                level: 1u64,
                                name: k2_key(gg),
                                state: State::Find,
                                parent: Some(0usize),
                                best_wt: None,
                                best_node: None,
                                test_node: None,
                                ..pre
                            };
                            let fwd = Message::Initiate {
                                level: 1u64,
                                name: k2_key(gg),
                                state: State::Find,
                                sender: 1usize,
                            };
                            assert(gg.adj_of(1).drop_last() =~= Seq::<(usize, i64)>::empty());
                            assert(bcast_sends(gg.adj_of(1).drop_last(), pre.status, 0usize, fwd)
                                == Seq::<(usize, Message)>::empty());
                            assert(gg.adj_of(1).last().0 == 0usize);
                            assert(bcast_sends(gg.adj_of(1), pre.status, 0usize, fwd) =~= Seq::<
                                (usize, Message),
                            >::empty());
                            let pre2 = NodeV { rec: 0, ..mid };
                            assert(pre2 == mid);
                            let tail = choose|tail: Seq<(usize, Message)>|
                                eff.sends@ == bcast_sends(gg.adj_of(1), pre.status, 0usize, fwd)
                                    + tail && #[trigger] find_min_rel(
                                    pre2,
                                    nd@,
                                    gg,
                                    tail,
                                    eff.fault,
                                );
                            assert(Seq::<(usize, Message)>::empty() + tail =~= tail);
                            assert(eff.sends@ == tail);
                            assert forall|qq: int| !is_min_basic(pre2, gg, qq) by {
                                if is_min_basic(pre2, gg, qq) {
                                    let ww2 = choose|ww2: i64| gg.has_edge_w(1, qq, ww2);
                                    let ii2 = choose|ii2: int|
                                        0 <= ii2 < gg.adj_of(1).len() && ((#[trigger] gg.adj_of(
                                            1,
                                        )[ii2]).0) as int == qq && gg.adj_of(1)[ii2].1 == ww2;
                                    assert(qq == 0);
                                    assert(pre2.status[0] == Status::Branch);
                                }
                            }
                            assert(NodeV { test_node: None, ..pre2 } == pre2);
                            assert(count_branch(
                                gg.adj_of(1).drop_last(),
                                pre2.status,
                                0usize,
                            ) == 0);
                            assert(count_branch(gg.adj_of(1), pre2.status, 0usize) == 0);
                            assert(nd@ == NodeV { state: State::Found, ..pre2 });
                            assert(nd@ == k2_done(gg, 1));
                            assert(eff.sends@ == seq![
                                (0usize, Message::Report { best: None, sender: 1usize }),
                            ]);
                            assert(!eff.fault && !eff.halt);
                        } else {
                            // steps == 4: the parent's echo carries the
                            // same infinite best: termination.
                            assert(steps == 4);
                            assert(msg == Message::Report { best: None, sender: 1usize });
                            assert(nodes0[0]@ == k2_done(gg, 0));
                            assert(nd@ == k2_done(gg, 0));
                            assert(eff.sends@.len() == 0);
                            assert(eff.halt && !eff.fault);
                        }
                    }
                }
                if eff.fault {
                    return Err(RunError::Fault);
                }
                deliver(&mut inboxes, &eff.sends);
                proof {
                    if single_edge_graph(*g) && fuel >= 5 {
                        let gg = *g;
                        let c0 = Message::Connect { level: 0u64, sender: 0usize };
                        let i0 = Message::Initiate {
                            level: 1u64,
                            name: k2_key(gg),
                            state: State::Find,
                            sender: 0usize,
                        };
                        let i1 = Message::Initiate {
                            level: 1u64,
                            name: k2_key(gg),
                            state: State::Find,
                            sender: 1usize,
                        };
                        let r0 = Message::Report { best: None, sender: 0usize };
                        let r1 = Message::Report { best: None, sender: 1usize };
                        if steps == 0 {
                            lemma_sends_to_single(1usize, i0, 0);
                            lemma_sends_to_single(1usize, i0, 1);
                            assert(ibs_mid[0]@ =~= Seq::<Message>::empty());
                            assert(inboxes@[0]@ =~= Seq::<Message>::empty());
                            assert(inboxes@[1]@ =~= seq![c0, i0]);
                        } else if steps == 1 {
                            lemma_sends_to_single(0usize, i1, 0);
                            lemma_sends_to_single(0usize, i1, 1);
                            assert(ibs_mid[1]@ =~= seq![i0]);
                            assert(inboxes@[0]@ =~= seq![i1]);
                            assert(inboxes@[1]@ =~= seq![i0]);
                        } else if steps == 2 {
                            lemma_sends_to_single(1usize, r0, 0);
                            lemma_sends_to_single(1usize, r0, 1);
                            assert(ibs_mid[0]@ =~= Seq::<Message>::empty());
                            assert(inboxes@[0]@ =~= Seq::<Message>::empty());
                            assert(inboxes@[1]@ =~= seq![i0, r0]);
                        } else if steps == 3 {
                            lemma_sends_to_single(0usize, r1, 0);
                            lemma_sends_to_single(0usize, r1, 1);
                            assert(ibs_mid[1]@ =~= seq![r0]);
                            assert(inboxes@[0]@ =~= seq![r1]);
                            assert(inboxes@[1]@ =~= seq![r0]);
                        } else {
                            assert(eff.sends@ =~= Seq::<(usize, Message)>::empty());
                            lemma_sends_to_none(0);
                            lemma_sends_to_none(1);
                            assert(inboxes@[0]@ =~= ibs_mid[0]@);
                            assert(inboxes@[1]@ =~= ibs_mid[1]@);
                        }
                    }
                }
                if eff.halt {
                    halted = true;
                }
            },
        }
        turn = if turn + 1 >= n {
            0
        } else {
            turn + 1
        };
        steps = steps + 1;
    }
    if !halted {
        return Err(RunError::OutOfFuel);
    }
    proof {
        if single_edge_graph(*g) && fuel >= 5 {
            // The final classifications are Branch on both sides of
            // the only edge, so the outcome check passes.
            lemma_k2_rows(*g);
            assert(nodes@[0]@ == k2_done(*g, 0));
            assert(nodes@[1]@ == k2_done(*g, 1));
            assert(k2_done(*g, 0).status[1] == Status::Branch);
            assert(k2_done(*g, 1).status[0] == Status::Branch);
            assert forall|u: int, v: int|
                #[trigger] g.has_edge(u, v) && 0 <= u < nodes@.len() && 0 <= v < nodes@.len()
                implies (nodes@[u]@.status[v] == Status::Branch && nodes@[v]@.status[u]
                == Status::Branch) by {
                let wv = choose|wv: i64| g.has_edge_w(u, v, wv);
                let iv = choose|iv: int|
                    0 <= iv < g.adj_of(u).len() && ((#[trigger] g.adj_of(u)[iv]).0) as int == v
                        && g.adj_of(u)[iv].1 == wv;
                assert((u == 0 && v == 1) || (u == 1 && v == 0));
            }
            assert(branch_symmetric(nodes@, *g));
            assert(nontree_rejected(nodes@, *g));
        }
    }
    if !check_outcome(&nodes, g) {
        return Err(RunError::Asymmetric);
    }
    Ok(nodes)
}

} // verus!
