//! The per-vertex protocol state machine.
//!
//! One `Node` exists per graph vertex.  A node reacts to one message
//! at a time: each handler mutates only the node's own state and
//! returns the messages it wants delivered, together with two flags —
//! `halt` when the node has detected global termination, and `fault`
//! when it has detected a protocol-invariant violation that must abort
//! the run.  Handlers never panic and never block; deferring a message
//! is expressed by addressing it to the node itself.

use vstd::prelude::*;
use crate::graph::GraphView;
use crate::key::EdgeKey;

verus! {

/// The search state of a node: asleep, searching for the minimum
/// outgoing edge, or done with the current search.
#[derive(Clone, Copy, PartialEq, Eq, Structural, Debug)]
pub enum State {
    Sleep,
    Find,
    Found,
}

/// The classification of an incident edge: undecided, on the tree, or
/// confirmed internal to the fragment.
#[derive(Clone, Copy, PartialEq, Eq, Structural, Debug)]
pub enum Status {
    Basic,
    Branch,
    Reject,
}

/// A protocol message.  `sender` is always the vertex that posted the
/// message.  Fragment names and edge weights travel as effective edge
/// keys; a `best` of `None` stands for an infinite weight.
#[derive(Clone, Copy, PartialEq, Eq, Structural, Debug)]
pub enum Message {
    /// The sender asks to join across the shared edge from its
    /// fragment at `level`.
    Connect { level: u64, sender: usize },
    /// The sender announces the fragment identity `(level, name)` and
    /// the search mode `state` down the tree.
    Initiate { level: u64, name: EdgeKey, state: State, sender: usize },
    /// The sender probes whether the shared edge leaves its fragment
    /// `(level, name)`.
    Test { level: u64, name: EdgeKey, sender: usize },
    /// The sender's fragment differs: the probed edge is outgoing.
    Accept { sender: usize },
    /// The sender's fragment is the same: the probed edge is internal.
    Reject { sender: usize },
    /// The sender reports the best outgoing weight of its subtree.
    Report { best: Option<EdgeKey>, sender: usize },
    /// The root moves toward the minimum outgoing edge.
    ChangeRoot { sender: usize },
}

/// The sender recorded in a message.
pub open spec fn msg_sender(m: Message) -> usize {
    match m {
        Message::Connect { sender, .. } => sender,
        Message::Initiate { sender, .. } => sender,
        Message::Test { sender, .. } => sender,
        Message::Accept { sender } => sender,
        Message::Reject { sender } => sender,
        Message::Report { sender, .. } => sender,
        Message::ChangeRoot { sender } => sender,
    }
}

/// A message is well formed for an `n`-vertex graph when its sender is
/// a vertex.
pub open spec fn msg_wf(m: Message, n: int) -> bool {
    (msg_sender(m) as int) < n
}

/// Every queued send goes to a vertex and carries a well-formed
/// message.
pub open spec fn sends_wf(sends: Seq<(usize, Message)>, n: int) -> bool {
    forall|k: int|
        0 <= k < sends.len() ==> ((#[trigger] sends[k]).0 as int) < n && msg_wf(sends[k].1, n)
}

/// What a handler asks of its surroundings: messages to deliver, and
/// the two run-control flags.
pub struct Effects {
    /// Messages to post, in order, as (destination, message) pairs.
    pub sends: Vec<(usize, Message)>,
    /// True when global termination was detected.
    pub halt: bool,
    /// True when a protocol invariant was found violated; the run must
    /// abort.
    pub fault: bool,
}

impl Effects {
    /// No sends, no flags.
    fn none() -> (eff: Effects)
        ensures
            eff.sends@ =~= Seq::<(usize, Message)>::empty(),
            !eff.halt,
            !eff.fault,
    {
        Effects { sends: Vec::new(), halt: false, fault: false }
    }

    /// One message, no flags.
    fn send1(dest: usize, m: Message) -> (eff: Effects)
        ensures
            eff.sends@ =~= seq![(dest, m)],
            !eff.halt,
            !eff.fault,
    {
        let mut sends: Vec<(usize, Message)> = Vec::new();
        sends.push((dest, m));
        Effects { sends, halt: false, fault: false }
    }

    /// A detected protocol-invariant violation.
    fn fault() -> (eff: Effects)
        ensures
            eff.sends@ =~= Seq::<(usize, Message)>::empty(),
            !eff.halt,
            eff.fault,
    {
        Effects { sends: Vec::new(), halt: false, fault: true }
    }

    /// Global termination detected.
    fn halting() -> (eff: Effects)
        ensures
            eff.sends@ =~= Seq::<(usize, Message)>::empty(),
            eff.halt,
            !eff.fault,
    {
        Effects { sends: Vec::new(), halt: true, fault: false }
    }
}

/// The mathematical value of a node's state.
pub ghost struct NodeV {
    pub index: usize,
    pub state: State,
    pub status: Seq<Status>,
    pub name: EdgeKey,
    pub level: u64,
    pub parent: Option<usize>,
    pub best_wt: Option<EdgeKey>,
    pub best_node: Option<usize>,
    pub rec: usize,
    pub test_node: Option<usize>,
}

/// The state of one vertex actor.
pub struct Node {
    /// The vertex this node stands for.
    pub index: usize,
    /// The search state.
    pub state: State,
    /// The classification of each vertex as a neighbor; entries for
    /// vertices that are not neighbors stay `Basic` forever.
    pub status: Vec<Status>,
    /// The current fragment name: the key of the fragment's core edge,
    /// seeded to a key naming the vertex itself.
    pub name: EdgeKey,
    /// The current fragment level.
    pub level: u64,
    /// The tree neighbor the latest `Initiate` came from.
    pub parent: Option<usize>,
    /// The best outgoing-edge key seen this search; `None` is infinite.
    pub best_wt: Option<EdgeKey>,
    /// The neighbor the best weight was learned from.
    pub best_node: Option<usize>,
    /// How many subtree children have reported this search.
    pub rec: usize,
    /// The neighbor currently being probed, if any.
    pub test_node: Option<usize>,
}

impl View for Node {
    type V = NodeV;

    open spec fn view(&self) -> NodeV {
        NodeV {
            index: self.index,
            state: self.state,
            status: self.status@,
            name: self.name,
            level: self.level,
            parent: self.parent,
            best_wt: self.best_wt,
            best_node: self.best_node,
            rec: self.rec,
            test_node: self.test_node,
        }
    }
}

impl NodeV {
    /// The node fits the graph: its index is a vertex, its
    /// classification row covers every vertex, and every recorded
    /// neighbor is a vertex.
    pub open spec fn wf(self, g: GraphView) -> bool {
        &&& (self.index as int) < g.vcount()
        &&& self.status.len() == g.vcount()
        &&& (self.parent matches Some(p) ==> (p as int) < g.vcount())
        &&& (self.best_node matches Some(b) ==> (b as int) < g.vcount())
        &&& (self.test_node matches Some(t) ==> (t as int) < g.vcount())
    }
}

/// A classification, once made, is never reverted to `Basic`, and a
/// `Branch` stays a `Branch`.
pub open spec fn classification_monotone(pre: NodeV, post: NodeV) -> bool {
    &&& post.status.len() == pre.status.len()
    &&& forall|j: int|
        0 <= j < pre.status.len() ==> ((pre.status[j] == Status::Branch
            ==> #[trigger] post.status[j] == Status::Branch) && (pre.status[j] == Status::Reject
            ==> post.status[j] != Status::Basic))
}

/// The strict order on optional keys, reading `None` as infinite.
pub open spec fn opt_lt(a: Option<EdgeKey>, b: Option<EdgeKey>) -> bool {
    match (a, b) {
        (Some(x), Some(y)) => x.spec_lt(y),
        (Some(_), None) => true,
        (None, _) => false,
    }
}

/// Decides the strict order on optional keys (`None` is infinite).
pub fn opt_key_lt(a: &Option<EdgeKey>, b: &Option<EdgeKey>) -> (r: bool)
    ensures
        r == opt_lt(*a, *b),
{
    match (a, b) {
        (Some(x), Some(y)) => x.lt(y),
        (Some(_), None) => true,
        (None, _) => false,
    }
}

/// `q` carries the smallest key among all edges incident to `u`.
pub open spec fn is_min_incident(g: GraphView, u: int, q: int) -> bool {
    &&& g.has_edge(u, q)
    &&& forall|i: int|
        0 <= i < g.adj_of(u).len() ==> !g.key_of(
            u,
            ((#[trigger] g.adj_of(u)[i]).0) as int,
        ).spec_lt(g.key_of(u, q))
}

/// `q` carries the smallest key among the `Basic`-classified edges
/// incident to the node.
pub open spec fn is_min_basic(nv: NodeV, g: GraphView, q: int) -> bool {
    &&& g.has_edge(nv.index as int, q)
    &&& nv.status[q] == Status::Basic
    &&& forall|i: int|
        0 <= i < g.adj_of(nv.index as int).len() && nv.status[((#[trigger] g.adj_of(
            nv.index as int,
        )[i]).0) as int] == Status::Basic ==> !g.key_of(
            nv.index as int,
            (g.adj_of(nv.index as int)[i].0) as int,
        ).spec_lt(g.key_of(nv.index as int, q))
}

/// How many adjacency entries of the row are classified `Branch` and
/// are not the parent: the number of subtree children.
pub open spec fn count_branch(adj: Seq<(usize, i64)>, status: Seq<Status>, parent: usize) -> int
    decreases adj.len(),
{
    if adj.len() == 0 {
        0
    } else {
        count_branch(adj.drop_last(), status, parent) + if status[adj.last().0 as int]
            == Status::Branch && adj.last().0 != parent {
            1int
        } else {
            0int
        }
    }
}

/// The outcome of the report step: with all children heard and the
/// probe resolved, the node turns `Found` and reports its best weight
/// to its parent; otherwise nothing happens.  A missing parent is a
/// protocol-invariant violation.
pub open spec fn report_rel(
    pre: NodeV,
    post: NodeV,
    g: GraphView,
    sends: Seq<(usize, Message)>,
    fault: bool,
) -> bool {
    match pre.parent {
        None => post == pre && sends.len() == 0 && fault,
        Some(p) => {
            if pre.rec as int == count_branch(g.adj_of(pre.index as int), pre.status, p)
                && pre.test_node is None {
                &&& post == NodeV { state: State::Found, ..pre }
                &&& sends == seq![
                    (p, Message::Report { best: pre.best_wt, sender: pre.index }),
                ]
                &&& !fault
            } else {
                post == pre && sends.len() == 0 && !fault
            }
        },
    }
}

/// The outcome of the minimum-outgoing-edge search: with a `Basic`
/// edge left, probe the cheapest one; with none, clear the probe and
/// fall through to the report step.
pub open spec fn find_min_rel(
    pre: NodeV,
    post: NodeV,
    g: GraphView,
    sends: Seq<(usize, Message)>,
    fault: bool,
) -> bool {
    if exists|q: int| is_min_basic(pre, g, q) {
        exists|q: usize|
            {
                &&& #[trigger] is_min_basic(pre, g, q as int)
                &&& post == NodeV { test_node: Some(q), ..pre }
                &&& sends == seq![
                    (q, Message::Test { level: pre.level, name: pre.name, sender: pre.index }),
                ]
                &&& !fault
            }
    } else {
        report_rel(NodeV { test_node: None, ..pre }, post, g, sends, fault)
    }
}

/// The messages of an `Initiate` broadcast: one copy of `m` to every
/// adjacency entry classified `Branch` other than `excl`, in row
/// order.
pub open spec fn bcast_sends(
    adj: Seq<(usize, i64)>,
    status: Seq<Status>,
    excl: usize,
    m: Message,
) -> Seq<(usize, Message)>
    decreases adj.len(),
{
    if adj.len() == 0 {
        Seq::<(usize, Message)>::empty()
    } else {
        bcast_sends(adj.drop_last(), status, excl, m) + if adj.last().0 != excl && status[adj.last().0 as int]
            == Status::Branch {
            seq![(adj.last().0, m)]
        } else {
            Seq::<(usize, Message)>::empty()
        }
    }
}

/// The outcome of the change-root step: toward a tree neighbor the
/// root request is forwarded; toward any other neighbor the edge is
/// promoted to `Branch` and a `Connect` crosses it.  A missing best
/// node is a protocol-invariant violation.
pub open spec fn change_root_rel(
    pre: NodeV,
    post: NodeV,
    g: GraphView,
    sends: Seq<(usize, Message)>,
    fault: bool,
) -> bool {
    match pre.best_node {
        None => post == pre && sends.len() == 0 && fault,
        Some(b) => {
            if pre.status[b as int] == Status::Branch {
                &&& post == pre
                &&& sends == seq![(b, Message::ChangeRoot { sender: pre.index })]
                &&& !fault
            } else {
                &&& post == NodeV { status: pre.status.update(b as int, Status::Branch), ..pre }
                &&& sends == seq![
                    (b, Message::Connect { level: pre.level, sender: pre.index }),
                ]
                &&& !fault
            }
        },
    }
}

/// The state of a fresh, sleeping node for vertex `index` of an
/// `n`-vertex graph: every edge `Basic`, level zero, and a fragment
/// name that names the vertex alone (its endpoints coincide, so it can
/// never equal the key of a real core edge).
pub open spec fn initial_node(n: int, index: usize) -> NodeV {
    NodeV {
        index: index,
        state: State::Sleep,
        status: Seq::new(n as nat, |j: int| Status::Basic),
        name: (EdgeKey { wt: 0, lo: index, hi: index }),
        level: 0,
        parent: None,
        best_wt: None,
        best_node: None,
        rec: 0,
        test_node: None,
    }
}

impl Node {
    /// A fresh, sleeping node for vertex `index` of an `n`-vertex
    /// graph.
    pub fn new(n: usize, index: usize) -> (node: Node)
        requires
            index < n,
        ensures
            node@ == initial_node(n as int, index),
    {
        let mut status: Vec<Status> = Vec::new();
        let mut j: usize = 0;
        while j < n
            invariant
                j <= n,
                status@.len() == j,
                forall|i: int| 0 <= i < j ==> status@[i] == Status::Basic,
            decreases n - j,
        {
            status.push(Status::Basic);
            j = j + 1;
        }
        let node = Node {
            index,
            state: State::Sleep,
            status,
            name: EdgeKey { wt: 0, lo: index, hi: index },
            level: 0,
            parent: None,
            best_wt: None,
            best_node: None,
            rec: 0,
            test_node: None,
        };
        proof {
            assert(node@.status =~= Seq::new(n as nat, |j: int| Status::Basic));
        }
        node
    }

    /// The wake step.  A sleeping node marks its cheapest incident
    /// edge `Branch`, becomes a found level-zero fragment of its own,
    /// and asks to connect across that edge.  A vertex without any
    /// incident edge cannot take part in the protocol: that is a
    /// fault.
    pub fn initialize(&mut self, g: &GraphView) -> (eff: Effects)
        requires
            g.wf(),
            old(self)@.wf(*g),
            old(self).state == State::Sleep,
            old(self).level == 0,
            old(self).rec == 0,
            forall|j: int| 0 <= j < old(self)@.status.len() ==> old(self)@.status[j] == Status::Basic,
        ensures
            final(self)@.wf(*g),
            sends_wf(eff.sends@, g.vcount()),
            final(self).index == old(self).index,
            classification_monotone(old(self)@, final(self)@),
            final(self).level == old(self).level,
            !eff.halt,
            if g.adj_of(old(self).index as int).len() == 0 {
                &&& eff.fault
                &&& final(self)@ == old(self)@
                &&& eff.sends@.len() == 0
            } else {
                exists|q: usize|
                    {
                        &&& #[trigger] is_min_incident(*g, old(self).index as int, q as int)
                        &&& final(self)@ == NodeV {
                            state: State::Found,
                            status: old(self)@.status.update(q as int, Status::Branch),
                            ..old(self)@
                        }
                        &&& eff.sends@ == seq![
                            (q, Message::Connect { level: 0, sender: old(self).index }),
                        ]
                        &&& !eff.fault
                    }
            },
    {
        let u = self.index;
        let deg = g.degree(u);
        if deg == 0 {
            return Effects::fault();
        }
        let (mut q, mut w) = g.neighbor(u, 0);
        let mut bk = EdgeKey::of_edge(u, q, w);
        proof {
            g.lemma_key_of_entry(u as int, 0);
        }
        let mut i: usize = 1;
        while i < deg
            invariant
                g.wf(),
                u < g.vcount(),
                deg == g.adj_of(u as int).len(),
                1 <= i <= deg,
                g.has_edge_w(u as int, q as int, w),
                bk == g.key_of(u as int, q as int),
                forall|j: int|
                    0 <= j < i ==> !g.key_of(
                        u as int,
                        ((#[trigger] g.adj_of(u as int)[j]).0) as int,
                    ).spec_lt(bk),
            decreases deg - i,
        {
            let (v2, w2) = g.neighbor(u, i);
            let k2 = EdgeKey::of_edge(u, v2, w2);
            let ghost prev_bk = bk;
            proof {
                g.lemma_key_of_entry(u as int, i as int);
            }
            if k2.lt(&bk) {
                q = v2;
                w = w2;
                bk = k2;
                proof {
                    assert forall|j: int| 0 <= j < i implies !g.key_of(
                        u as int,
                        ((#[trigger] g.adj_of(u as int)[j]).0) as int,
                    ).spec_lt(bk) by {
                        let kj = g.key_of(u as int, ((g.adj_of(u as int)[j]).0) as int);
                        if kj.spec_lt(bk) {
                            EdgeKey::lemma_lt_trans(kj, bk, prev_bk);
                        }
                    }
                }
            }
            i = i + 1;
        }
        proof {
            assert(is_min_incident(*g, u as int, q as int));
        }
        self.state = State::Found;
        self.status.set(q, Status::Branch);
        let eff = Effects::send1(q, Message::Connect { level: 0, sender: u });
        proof {
            assert(self@ == NodeV {
                state: State::Found,
                status: old(self)@.status.update(q as int, Status::Branch),
                ..old(self)@
            });
        }
        eff
    }

    /// The report step.  When every subtree child has reported and the
    /// node's own probe is resolved, the node turns `Found` and sends
    /// its best weight to its parent; otherwise nothing happens yet.
    /// Running without a parent is a protocol-invariant violation.
    pub fn report(&mut self, g: &GraphView) -> (eff: Effects)
        requires
            g.wf(),
            old(self)@.wf(*g),
        ensures
            final(self)@.wf(*g),
            sends_wf(eff.sends@, g.vcount()),
            final(self).index == old(self).index,
            classification_monotone(old(self)@, final(self)@),
            final(self).level == old(self).level,
            !eff.halt,
            report_rel(old(self)@, final(self)@, *g, eff.sends@, eff.fault),
    {
        let p = match self.parent {
            None => {
                return Effects::fault();
            },
            Some(p) => p,
        };
        let u = self.index;
        let deg = g.degree(u);
        let mut cnt: usize = 0;
        let mut i: usize = 0;
        while i < deg
            invariant
                g.wf(),
                self@.wf(*g),
                u == self.index,
                deg == g.adj_of(u as int).len(),
                i <= deg,
                cnt <= i,
                cnt as int == count_branch(
                    g.adj_of(u as int).take(i as int),
                    self@.status,
                    p,
                ),
            decreases deg - i,
        {
            let (v, _w) = g.neighbor(u, i);
            let is_child = self.status[v] == Status::Branch && v != p;
            proof {
                assert(g.adj_of(u as int).take(i + 1).drop_last() =~= g.adj_of(u as int).take(
                    i as int,
                ));
                assert(g.adj_of(u as int).take(i + 1).last() == g.adj_of(u as int)[i as int]);
            }
            if is_child {
                cnt = cnt + 1;
            }
            i = i + 1;
        }
        proof {
            assert(g.adj_of(u as int).take(deg as int) =~= g.adj_of(u as int));
        }
        if self.rec == cnt && self.test_node.is_none() {
            self.state = State::Found;
            Effects::send1(p, Message::Report { best: self.best_wt, sender: u })
        } else {
            Effects::none()
        }
    }

    /// The minimum-outgoing-edge search.  The cheapest `Basic` edge,
    /// if any, becomes the probe target and receives a `Test`; with no
    /// `Basic` edge left the probe is cleared and the report step
    /// runs.
    pub fn find_min(&mut self, g: &GraphView) -> (eff: Effects)
        requires
            g.wf(),
            old(self)@.wf(*g),
        ensures
            final(self)@.wf(*g),
            sends_wf(eff.sends@, g.vcount()),
            final(self).index == old(self).index,
            classification_monotone(old(self)@, final(self)@),
            final(self).level == old(self).level,
            !eff.halt,
            find_min_rel(old(self)@, final(self)@, *g, eff.sends@, eff.fault),
    {
        let u = self.index;
        let deg = g.degree(u);
        let mut found = false;
        let mut q: usize = 0;
        let mut bk = EdgeKey { wt: 0, lo: 0, hi: 0 };
        let mut i: usize = 0;
        while i < deg
            invariant
                g.wf(),
                self@.wf(*g),
                u == self.index,
                deg == g.adj_of(u as int).len(),
                i <= deg,
                !found ==> forall|j: int|
                    0 <= j < i ==> self@.status[((#[trigger] g.adj_of(u as int)[j]).0) as int]
                        != Status::Basic,
                found ==> g.has_edge(u as int, q as int) && (q as int) < g.vcount()
                    && self@.status[q as int] == Status::Basic && bk == g.key_of(u as int, q as int),
                found ==> forall|j: int|
                    0 <= j < i && self@.status[((#[trigger] g.adj_of(u as int)[j]).0) as int]
                        == Status::Basic ==> !g.key_of(
                        u as int,
                        (g.adj_of(u as int)[j].0) as int,
                    ).spec_lt(bk),
            decreases deg - i,
        {
            let (v, w) = g.neighbor(u, i);
            proof {
                g.lemma_key_of_entry(u as int, i as int);
            }
            if self.status[v] == Status::Basic {
                let k = EdgeKey::of_edge(u, v, w);
                let ghost prev_bk = bk;
                let ghost prev_found = found;
                if !found || k.lt(&bk) {
                    found = true;
                    q = v;
                    bk = k;
                    proof {
                        if prev_found {
                            assert forall|j: int|
                                0 <= j < i && self@.status[((#[trigger] g.adj_of(u as int)[j]).0) as int]
                                    == Status::Basic implies !g.key_of(
                                u as int,
                                (g.adj_of(u as int)[j].0) as int,
                            ).spec_lt(bk) by {
                                let kj = g.key_of(u as int, (g.adj_of(u as int)[j].0) as int);
                                if kj.spec_lt(bk) {
                                    EdgeKey::lemma_lt_trans(kj, bk, prev_bk);
                                }
                            }
                        }
                    }
                }
            }
            i = i + 1;
        }
        if found {
            proof {
                assert(is_min_basic(self@, *g, q as int));
            }
            self.test_node = Some(q);
            let eff = Effects::send1(
                q,
                Message::Test { level: self.level, name: self.name, sender: u },
            );
            proof {
                assert(final(self)@ == NodeV { test_node: Some(q), ..old(self)@ });
            }
            eff
        } else {
            proof {
                assert forall|qq: int| !is_min_basic(old(self)@, *g, qq) by {
                    if is_min_basic(old(self)@, *g, qq) {
                        let w = choose|w: i64| g.has_edge_w(u as int, qq, w);
                        let j = choose|j: int|
                            0 <= j < g.adj_of(u as int).len() && ((#[trigger] g.adj_of(
                                u as int,
                            )[j]).0) as int == qq && g.adj_of(u as int)[j].1 == w;
                        assert(old(self)@.status[((g.adj_of(u as int)[j]).0) as int]
                            != Status::Basic);
                    }
                }
            }
            self.test_node = None;
            self.report(g)
        }
    }

    /// The change-root step.  Toward a tree neighbor the root request
    /// is forwarded; toward any other neighbor the edge is promoted to
    /// `Branch` and a `Connect` crosses it.  Running without a best
    /// node is a protocol-invariant violation.
    pub fn change_root(&mut self, g: &GraphView) -> (eff: Effects)
        requires
            g.wf(),
            old(self)@.wf(*g),
        ensures
            final(self)@.wf(*g),
            sends_wf(eff.sends@, g.vcount()),
            final(self).index == old(self).index,
            classification_monotone(old(self)@, final(self)@),
            final(self).level == old(self).level,
            !eff.halt,
            change_root_rel(old(self)@, final(self)@, *g, eff.sends@, eff.fault),
    {
        let b = match self.best_node {
            None => {
                return Effects::fault();
            },
            Some(b) => b,
        };
        if self.status[b] == Status::Branch {
            Effects::send1(b, Message::ChangeRoot { sender: self.index })
        } else {
            self.status.set(b, Status::Branch);
            Effects::send1(b, Message::Connect { level: self.level, sender: self.index })
        }
    }

    /// Handles a `Connect`.  A strictly lower-level fragment is
    /// absorbed: its edge turns `Branch` and an `Initiate` carries our
    /// identity over.  At equal level across a still-`Basic` edge the
    /// decision is deferred by re-posting the message to ourselves.
    /// Otherwise the fragments merge: an `Initiate` at the next level
    /// crosses the edge, named by that edge's key.  A `Connect` from a
    /// non-neighbor, or at the top level, is a protocol-invariant
    /// violation.
    pub fn process_connect(&mut self, msg: Message, g: &GraphView) -> (eff: Effects)
        requires
            g.wf(),
            old(self)@.wf(*g),
            msg is Connect,
            msg_wf(msg, g.vcount()),
        ensures
            final(self)@.wf(*g),
            sends_wf(eff.sends@, g.vcount()),
            final(self).index == old(self).index,
            classification_monotone(old(self)@, final(self)@),
            final(self).level == old(self).level,
            !eff.halt,
            ({
                let l = msg->Connect_level;
                let s = msg->Connect_sender;
                let pre = old(self)@;
                if l < pre.level {
                    &&& final(self)@ == NodeV {
                        status: pre.status.update(s as int, Status::Branch),
                        ..pre
                    }
                    &&& eff.sends@ == seq![
                        (
                            s,
                            Message::Initiate {
                                level: pre.level,
                                name: pre.name,
                                state: pre.state,
                                sender: pre.index,
                            },
                        ),
                    ]
                    &&& !eff.fault
                } else if l == pre.level && pre.status[s as int] == Status::Basic {
                    &&& final(self)@ == pre
                    &&& eff.sends@ == seq![(pre.index, msg)]
                    &&& !eff.fault
                } else if !g.has_edge(pre.index as int, s as int) || pre.level == u64::MAX {
                    &&& final(self)@ == pre
                    &&& eff.sends@.len() == 0
                    &&& eff.fault
                } else {
                    &&& final(self)@ == pre
                    &&& eff.sends@ == seq![
                        (
                            s,
                            Message::Initiate {
                                level: (pre.level + 1) as u64,
                                name: g.key_of(pre.index as int, s as int),
                                state: State::Find,
                                sender: pre.index,
                            },
                        ),
                    ]
                    &&& !eff.fault
                }
            }),
    {
        if let Message::Connect { level: l, sender: s } = msg {
            if l < self.level {
                self.status.set(s, Status::Branch);
                Effects::send1(
                    s,
                    Message::Initiate {
                        level: self.level,
                        name: self.name,
                        state: self.state,
                        sender: self.index,
                    },
                )
            } else if l == self.level && self.status[s] == Status::Basic {
                Effects::send1(self.index, msg)
            } else {
                match g.weight_between(self.index, s) {
                    None => Effects::fault(),
                    Some(w) => {
                        if self.level == u64::MAX {
                            Effects::fault()
                        } else {
                            let k = EdgeKey::of_edge(self.index, s, w);
                            Effects::send1(
                                s,
                                Message::Initiate {
                                    level: self.level + 1,
                                    name: k,
                                    state: State::Find,
                                    sender: self.index,
                                },
                            )
                        }
                    },
                }
            }
        } else {
            unreached()
        }
    }

    /// Handles an `Initiate`: adopts the announced fragment identity
    /// and search mode, forwards the announcement to every tree
    /// neighbor other than the sender, and in `Find` mode restarts the
    /// minimum-outgoing-edge search.  The level moves to the announced
    /// one, so it never decreases under protocol-sound announcements.
    pub fn process_initiate(&mut self, msg: Message, g: &GraphView) -> (eff: Effects)
        requires
            g.wf(),
            old(self)@.wf(*g),
            msg is Initiate,
            msg_wf(msg, g.vcount()),
        ensures
            final(self)@.wf(*g),
            sends_wf(eff.sends@, g.vcount()),
            final(self).index == old(self).index,
            classification_monotone(old(self)@, final(self)@),
            final(self).level == msg->Initiate_level,
            old(self).level <= msg->Initiate_level ==> final(self).level >= old(self).level,
            !eff.halt,
            ({
                let l = msg->Initiate_level;
                let f = msg->Initiate_name;
                let m = msg->Initiate_state;
                let s = msg->Initiate_sender;
                let pre = old(self)@;
                let mid = NodeV {
                    level: l,
                    name: f,
                    state: m,
                    parent: Some(s),
                    best_wt: None,
                    best_node: None,
                    test_node: None,
                    ..pre
                };
                let bc = bcast_sends(
                    g.adj_of(pre.index as int),
                    pre.status,
                    s,
                    Message::Initiate { level: l, name: f, state: m, sender: pre.index },
                );
                if m is Find {
                    exists|tail: Seq<(usize, Message)>|
                        {
                            &&& eff.sends@ == bc + tail
                            &&& #[trigger] find_min_rel(
                                NodeV { rec: 0, ..mid },
                                final(self)@,
                                *g,
                                tail,
                                eff.fault,
                            )
                        }
                } else {
                    &&& final(self)@ == mid
                    &&& eff.sends@ == bc
                    &&& !eff.fault
                }
            }),
    {
        if let Message::Initiate { level: l, name: f, state: m, sender: s } = msg {
            let ghost pre = old(self)@;
            let ghost midg = NodeV {
                level: l,
                name: f,
                state: m,
                parent: Some(s),
                best_wt: None,
                best_node: None,
                test_node: None,
                ..pre
            };
            self.level = l;
            self.name = f;
            self.state = m;
            self.parent = Some(s);
            self.best_wt = None;
            self.best_node = None;
            self.test_node = None;
            let u = self.index;
            let fwd = Message::Initiate { level: l, name: f, state: m, sender: u };
            let mut sends: Vec<(usize, Message)> = Vec::new();
            let deg = g.degree(u);
            let mut i: usize = 0;
            while i < deg
                invariant
                    g.wf(),
                    self@.wf(*g),
                    u == self.index,
                    deg == g.adj_of(u as int).len(),
                    i <= deg,
                    fwd == (Message::Initiate { level: l, name: f, state: m, sender: u }),
                    sends@ == bcast_sends(
                        g.adj_of(u as int).take(i as int),
                        self@.status,
                        s,
                        fwd,
                    ),
                    sends_wf(sends@, g.vcount()),
                decreases deg - i,
            {
                let (v, _w) = g.neighbor(u, i);
                proof {
                    assert(g.adj_of(u as int).take(i + 1).drop_last() =~= g.adj_of(u as int).take(
                        i as int,
                    ));
                    assert(g.adj_of(u as int).take(i + 1).last() == g.adj_of(u as int)[i as int]);
                }
                let ghost sends0 = sends@;
                if v != s && self.status[v] == Status::Branch {
                    sends.push((v, fwd));
                    proof {
                        assert((v as int) < g.vcount());
                        assert(msg_wf(fwd, g.vcount()));
                        assert forall|k: int| 0 <= k < sends@.len() implies (((#[trigger] sends@[k]).0
                            as int) < g.vcount() && msg_wf(sends@[k].1, g.vcount())) by {
                            if k < sends0.len() {
                                assert(sends@[k] == sends0[k]);
                                assert(sends_wf(sends0, g.vcount()));
                                assert(((sends0[k]).0 as int) < g.vcount() && msg_wf(
                                    sends0[k].1,
                                    g.vcount(),
                                ));
                            } else {
                                assert(sends@[k] == (v, fwd));
                            }
                        }
                    }
                }
                i = i + 1;
            }
            proof {
                assert(g.adj_of(u as int).take(deg as int) =~= g.adj_of(u as int));
            }
            let ghost bcg = bcast_sends(g.adj_of(pre.index as int), pre.status, s, fwd);
            if m == State::Find {
                self.rec = 0;
                proof {
                    assert(self@ == NodeV { rec: 0, ..midg });
                }
                let mut eff2 = self.find_min(g);
                let ghost tail = eff2.sends@;
                let mut sends_all = sends;
                sends_all.append(&mut eff2.sends);
                let eff = Effects { sends: sends_all, halt: false, fault: eff2.fault };
                proof {
                    assert(eff.sends@ == bcg + tail);
                    assert(find_min_rel(NodeV { rec: 0, ..midg }, self@, *g, tail, eff.fault));
                }
                eff
            } else {
                proof {
                    assert(self@ == midg);
                }
                Effects { sends, halt: false, fault: false }
            }
        } else {
            unreached()
        }
    }

    /// Handles a `Test`.  A probe from a higher level is deferred; one
    /// from the same fragment marks the edge internal and answers
    /// `Reject` — unless the sender is our own probe target, in which
    /// case the moot probe is dropped and the search re-runs; a probe
    /// from a different fragment is answered `Accept`.
    pub fn process_test(&mut self, msg: Message, g: &GraphView) -> (eff: Effects)
        requires
            g.wf(),
            old(self)@.wf(*g),
            msg is Test,
            msg_wf(msg, g.vcount()),
        ensures
            final(self)@.wf(*g),
            sends_wf(eff.sends@, g.vcount()),
            final(self).index == old(self).index,
            classification_monotone(old(self)@, final(self)@),
            final(self).level == old(self).level,
            !eff.halt,
            ({
                let l = msg->Test_level;
                let f = msg->Test_name;
                let s = msg->Test_sender;
                let pre = old(self)@;
                if l > pre.level {
                    &&& final(self)@ == pre
                    &&& eff.sends@ == seq![(pre.index, msg)]
                    &&& !eff.fault
                } else if f == pre.name {
                    let st1 = if pre.status[s as int] == Status::Basic {
                        pre.status.update(s as int, Status::Reject)
                    } else {
                        pre.status
                    };
                    let mid = NodeV { status: st1, ..pre };
                    if pre.test_node != Some(s) {
                        &&& final(self)@ == mid
                        &&& eff.sends@ == seq![(s, Message::Reject { sender: pre.index })]
                        &&& !eff.fault
                    } else {
                        find_min_rel(mid, final(self)@, *g, eff.sends@, eff.fault)
                    }
                } else {
                    &&& final(self)@ == pre
                    &&& eff.sends@ == seq![(s, Message::Accept { sender: pre.index })]
                    &&& !eff.fault
                }
            }),
    {
        if let Message::Test { level: l, name: f, sender: s } = msg {
            if l > self.level {
                Effects::send1(self.index, msg)
            } else if f == self.name {
                if self.status[s] == Status::Basic {
                    self.status.set(s, Status::Reject);
                }
                let is_probe_target = match self.test_node {
                    Some(t) => t == s,
                    None => false,
                };
                if !is_probe_target {
                    Effects::send1(s, Message::Reject { sender: self.index })
                } else {
                    self.find_min(g)
                }
            } else {
                Effects::send1(s, Message::Accept { sender: self.index })
            }
        } else {
            unreached()
        }
    }

    /// Handles an `Accept`: the probed edge is outgoing.  The probe is
    /// cleared, the edge's key competes for the best outgoing edge,
    /// and the report step runs.  An `Accept` from a non-neighbor is a
    /// protocol-invariant violation.
    pub fn process_accept(&mut self, msg: Message, g: &GraphView) -> (eff: Effects)
        requires
            g.wf(),
            old(self)@.wf(*g),
            msg is Accept,
            msg_wf(msg, g.vcount()),
        ensures
            final(self)@.wf(*g),
            sends_wf(eff.sends@, g.vcount()),
            final(self).index == old(self).index,
            classification_monotone(old(self)@, final(self)@),
            final(self).level == old(self).level,
            !eff.halt,
            ({
                let s = msg->Accept_sender;
                let pre = old(self)@;
                let mid = NodeV { test_node: None, ..pre };
                if !g.has_edge(pre.index as int, s as int) {
                    &&& final(self)@ == mid
                    &&& eff.sends@.len() == 0
                    &&& eff.fault
                } else {
                    let k = g.key_of(pre.index as int, s as int);
                    let mid2 = if opt_lt(Some(k), pre.best_wt) {
                        NodeV { best_wt: Some(k), best_node: Some(s), ..mid }
                    } else {
                        mid
                    };
                    report_rel(mid2, final(self)@, *g, eff.sends@, eff.fault)
                }
            }),
    {
        if let Message::Accept { sender: s } = msg {
            self.test_node = None;
            match g.weight_between(self.index, s) {
                None => Effects::fault(),
                Some(w) => {
                    let k = EdgeKey::of_edge(self.index, s, w);
                    if opt_key_lt(&Some(k), &self.best_wt) {
                        self.best_wt = Some(k);
                        self.best_node = Some(s);
                    }
                    self.report(g)
                },
            }
        } else {
            unreached()
        }
    }

    /// Handles a `Reject`: the probed edge is internal.  A still-
    /// `Basic` edge is marked `Reject`, and the search moves on.
    pub fn process_reject(&mut self, msg: Message, g: &GraphView) -> (eff: Effects)
        requires
            g.wf(),
            old(self)@.wf(*g),
            msg is Reject,
            msg_wf(msg, g.vcount()),
        ensures
            final(self)@.wf(*g),
            sends_wf(eff.sends@, g.vcount()),
            final(self).index == old(self).index,
            classification_monotone(old(self)@, final(self)@),
            final(self).level == old(self).level,
            !eff.halt,
            ({
                let s = msg->Reject_sender;
                let pre = old(self)@;
                let st1 = if pre.status[s as int] == Status::Basic {
                    pre.status.update(s as int, Status::Reject)
                } else {
                    pre.status
                };
                find_min_rel(NodeV { status: st1, ..pre }, final(self)@, *g, eff.sends@, eff.fault)
            }),
    {
        if let Message::Reject { sender: s } = msg {
            if self.status[s] == Status::Basic {
                self.status.set(s, Status::Reject);
            }
            self.find_min(g)
        } else {
            unreached()
        }
    }

    /// Handles a `Report`.  A child's report competes for the best
    /// outgoing edge and is counted; the parent's echo is deferred
    /// while still searching, triggers the change-root step when the
    /// far side reports a worse weight, and detects global termination
    /// when both sides report infinity.  Running without a parent is a
    /// protocol-invariant violation.
    pub fn process_report(&mut self, msg: Message, g: &GraphView) -> (eff: Effects)
        requires
            g.wf(),
            old(self)@.wf(*g),
            msg is Report,
            msg_wf(msg, g.vcount()),
        ensures
            final(self)@.wf(*g),
            sends_wf(eff.sends@, g.vcount()),
            final(self).index == old(self).index,
            classification_monotone(old(self)@, final(self)@),
            final(self).level == old(self).level,
            ({
                let w = msg->Report_best;
                let s = msg->Report_sender;
                let pre = old(self)@;
                match pre.parent {
                    None => {
                        &&& final(self)@ == pre
                        &&& eff.sends@.len() == 0
                        &&& eff.fault
                        &&& !eff.halt
                    },
                    Some(p) => {
                        if s != p {
                            let mid = if opt_lt(w, pre.best_wt) {
                                NodeV { best_wt: w, best_node: Some(s), ..pre }
                            } else {
                                pre
                            };
                            if pre.rec == usize::MAX {
                                &&& final(self)@ == mid
                                &&& eff.sends@.len() == 0
                                &&& eff.fault
                                &&& !eff.halt
                            } else {
                                &&& report_rel(
                                    NodeV { rec: (pre.rec + 1) as usize, ..mid },
                                    final(self)@,
                                    *g,
                                    eff.sends@,
                                    eff.fault,
                                )
                                &&& !eff.halt
                            }
                        } else if pre.state is Find {
                            &&& final(self)@ == pre
                            &&& eff.sends@ == seq![(pre.index, msg)]
                            &&& !eff.fault
                            &&& !eff.halt
                        } else if opt_lt(pre.best_wt, w) {
                            &&& change_root_rel(pre, final(self)@, *g, eff.sends@, eff.fault)
                            &&& !eff.halt
                        } else if w is None && pre.best_wt is None {
                            &&& final(self)@ == pre
                            &&& eff.sends@.len() == 0
                            &&& !eff.fault
                            &&& eff.halt
                        } else {
                            &&& final(self)@ == pre
                            &&& eff.sends@.len() == 0
                            &&& !eff.fault
                            &&& !eff.halt
                        }
                    },
                }
            }),
    {
        if let Message::Report { best: w, sender: s } = msg {
            let p = match self.parent {
                None => {
                    return Effects::fault();
                },
                Some(p) => p,
            };
            if s != p {
                if opt_key_lt(&w, &self.best_wt) {
                    self.best_wt = w;
                    self.best_node = Some(s);
                }
                if self.rec == usize::MAX {
                    return Effects::fault();
                }
                self.rec = self.rec + 1;
                self.report(g)
            } else if self.state == State::Find {
                Effects::send1(self.index, msg)
            } else if opt_key_lt(&self.best_wt, &w) {
                self.change_root(g)
            } else if w.is_none() && self.best_wt.is_none() {
                Effects::halting()
            } else {
                Effects::none()
            }
        } else {
            unreached()
        }
    }

    /// Handles a `ChangeRoot`: the root keeps moving toward the
    /// minimum outgoing edge.
    pub fn process_change_root(&mut self, msg: Message, g: &GraphView) -> (eff: Effects)
        requires
            g.wf(),
            old(self)@.wf(*g),
            msg is ChangeRoot,
            msg_wf(msg, g.vcount()),
        ensures
            final(self)@.wf(*g),
            sends_wf(eff.sends@, g.vcount()),
            final(self).index == old(self).index,
            classification_monotone(old(self)@, final(self)@),
            final(self).level == old(self).level,
            !eff.halt,
            change_root_rel(old(self)@, final(self)@, *g, eff.sends@, eff.fault),
    {
        if let Message::ChangeRoot { sender: _s } = msg {
            self.change_root(g)
        } else {
            unreached()
        }
    }
}

} // verus!
