//! The per-vertex message queue.
//!
//! An inbox is an unbounded first-in-first-out queue with a single
//! consumer: the owning vertex.  Anyone may post to the tail; only the
//! owner pops from the head, without blocking.  The owner may also
//! post to itself to defer a message.  The contracts say exactly that
//! a post appends one message at the tail and a pop removes exactly
//! the head: no message is ever lost or reordered within the queue.

use vstd::prelude::*;
use crate::node::Message;

verus! {

/// A first-in-first-out queue of messages for one vertex.
pub struct Inbox {
    q: Vec<Message>,
}

impl View for Inbox {
    type V = Seq<Message>;

    closed spec fn view(&self) -> Seq<Message> {
        self.q@
    }
}

impl Inbox {
    /// An empty inbox.
    pub fn new() -> (ib: Inbox)
        ensures
            ib@ == Seq::<Message>::empty(),
    {
        let ib = Inbox { q: Vec::new() };
        proof {
            assert(ib@ =~= Seq::<Message>::empty());
        }
        ib
    }

    /// How many messages are queued.
    pub fn len(&self) -> (r: usize)
        ensures
            r == self@.len(),
    {
        self.q.len()
    }

    /// Appends a message at the tail.  Nothing already queued moves or
    /// is dropped.
    pub fn post(&mut self, m: Message)
        ensures
            final(self)@ == old(self)@.push(m),
    {
        self.q.push(m);
    }

    /// Removes and returns the head of the queue, or returns `None`
    /// when the queue is empty.  The rest of the queue keeps its
    /// order.
    pub fn try_pop(&mut self) -> (r: Option<Message>)
        ensures
            old(self)@.len() == 0 ==> r is None && final(self)@ == old(self)@,
            old(self)@.len() > 0 ==> r == Some(old(self)@[0]) && final(self)@ == old(self)@.subrange(
                1,
                old(self)@.len() as int,
            ),
    {
        if self.q.len() == 0 {
            None
        } else {
            let m = self.q.remove(0);
            proof {
                assert(self@ =~= old(self)@.subrange(1, old(self)@.len() as int));
            }
            Some(m)
        }
    }
}

/// The first-in-first-out law of the inbox, over its mathematical
/// contents: a post appends exactly one message, keeping every queued
/// message in place, and a pop removes exactly the head, shifting the
/// rest forward in order.  No message is lost or reordered within one
/// queue.
pub proof fn lemma_inbox_fifo(q: Seq<Message>, m: Message)
    ensures
        q.push(m).len() == q.len() + 1,
        forall|i: int| 0 <= i < q.len() ==> q.push(m)[i] == q[i],
        q.push(m)[q.len() as int] == m,
        q.len() > 0 ==> q.subrange(1, q.len() as int).len() == q.len() - 1,
        q.len() > 0 ==> forall|i: int|
            0 <= i < q.len() - 1 ==> q.subrange(1, q.len() as int)[i] == q[i + 1],
{
}

} // verus!
