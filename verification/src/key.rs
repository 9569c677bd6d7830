//! Effective edge keys.
//!
//! Edge weights are plain integers, but the protocol needs a total
//! order on edges even when two weights are equal.  The effective key
//! of an edge is the triple (weight, smaller endpoint, larger
//! endpoint), compared lexicographically; with pairwise distinct
//! weights it orders edges exactly as the weights do.  A fragment name
//! is the key of the fragment's core edge.

use vstd::prelude::*;

verus! {

/// The effective key of an undirected edge: its weight broken by the
/// ordered endpoint pair.  Two distinct edges never share a key.
#[derive(Clone, Copy, PartialEq, Eq, Structural, Debug)]
pub struct EdgeKey {
    /// The weight of the edge.
    pub wt: i64,
    /// The smaller endpoint.
    pub lo: usize,
    /// The larger endpoint.
    pub hi: usize,
}

impl EdgeKey {
    /// Lexicographic order on (wt, lo, hi).
    pub open spec fn spec_lt(self, other: EdgeKey) -> bool {
        self.wt < other.wt
            || (self.wt == other.wt && self.lo < other.lo)
            || (self.wt == other.wt && self.lo == other.lo && self.hi < other.hi)
    }

    /// The key of the edge between `u` and `v` with weight `w`.
    pub open spec fn spec_of_edge(u: int, v: int, w: int) -> EdgeKey {
        EdgeKey {
            wt: w as i64,
            lo: if u <= v { u as usize } else { v as usize },
            hi: if u <= v { v as usize } else { u as usize },
        }
    }

    /// Builds the key of the edge between `u` and `v` with weight `w`.
    pub fn of_edge(u: usize, v: usize, w: i64) -> (k: EdgeKey)
        ensures
            k == EdgeKey::spec_of_edge(u as int, v as int, w as int),
    {
        if u <= v {
            EdgeKey { wt: w, lo: u, hi: v }
        } else {
            EdgeKey { wt: w, lo: v, hi: u }
        }
    }

    /// Decides the strict key order.
    pub fn lt(&self, other: &EdgeKey) -> (r: bool)
        ensures
            r == self.spec_lt(*other),
    {
        self.wt < other.wt
            || (self.wt == other.wt && self.lo < other.lo)
            || (self.wt == other.wt && self.lo == other.lo && self.hi < other.hi)
    }

    /// The key order is total: of two distinct keys one is smaller.
    pub proof fn lemma_lt_total(a: EdgeKey, b: EdgeKey)
        ensures
            a == b || a.spec_lt(b) || b.spec_lt(a),
            !(a.spec_lt(b) && b.spec_lt(a)),
            !a.spec_lt(a),
    {
    }

    /// The key order is transitive.
    pub proof fn lemma_lt_trans(a: EdgeKey, b: EdgeKey, c: EdgeKey)
        requires
            a.spec_lt(b),
            b.spec_lt(c),
        ensures
            a.spec_lt(c),
    {
    }
}

} // verus!
