//! What earlier searches found out about the costs between edges.

use crate::graph::EdgeIndex;
use crate::hashed::{hops_get, hops_insert, hops_new, hops_of, HopTable};
use vstd::prelude::*;

verus! {

/// What is known of the cost between two edges.
pub enum HopCost {
    /// Nothing.
    Unknown,
    /// It is not below this cost.
    AtLeast(u32),
    /// It is this cost.
    Exactly(u32),
}

/// What is known of the costs between all edges.
pub type Known = spec_fn((usize, usize)) -> HopCost;

/// Remembers costs between edges, exactly or as lower bounds.
pub struct HopCache {
    /// A bound is stored as it is, an exact cost `c` as `-(c + 1)`.
    cache: HopTable,
}

/// What a stored number stands for.
spec fn decode(v: i64) -> HopCost {
    if v < 0 {
        HopCost::Exactly((-v - 1) as u32)
    } else {
        HopCost::AtLeast(v as u32)
    }
}

impl View for HopCache {
    type V = spec_fn((usize, usize)) -> HopCost;

    closed spec fn view(&self) -> spec_fn((usize, usize)) -> HopCost {
        |k: (usize, usize)|
            if hops_of(self.cache).contains_key(k) {
                decode(hops_of(self.cache)[k])
            } else {
                HopCost::Unknown
            }
    }
}

impl HopCache {
    /// Whether all stored numbers stand for costs.
    pub closed spec fn wf(&self) -> bool {
        forall|k: (usize, usize)| #[trigger]
            hops_of(self.cache).contains_key(k) ==> -0x1_0000_0000 <= hops_of(self.cache)[k]
                <= 0xffff_ffff
    }

    /// A cache that knows nothing.
    pub fn new() -> (r: Self)
        ensures
            r.wf(),
            forall|k: (usize, usize)| #[trigger] r@(k) == HopCost::Unknown,
    {
        HopCache { cache: hops_new() }
    }

    /// Remembers that the cost from `a` to `b` is not below `val`.
    pub fn set_min(&mut self, a: EdgeIndex, b: EdgeIndex, val: u32)
        requires
            old(self).wf(),
        ensures
            final(self).wf(),
            final(self)@((a, b)) == HopCost::AtLeast(val),
            forall|k: (usize, usize)| k != (a, b) ==> #[trigger] final(self)@(k) == old(self)@(k),
    {
        hops_insert(&mut self.cache, (a, b), val as i64);
    }

    /// Remembers that the cost from `a` to `b` is `val`.
    pub fn set_ex(&mut self, a: EdgeIndex, b: EdgeIndex, val: u32)
        requires
            old(self).wf(),
        ensures
            final(self).wf(),
            final(self)@((a, b)) == HopCost::Exactly(val),
            forall|k: (usize, usize)| k != (a, b) ==> #[trigger] final(self)@(k) == old(self)@(k),
    {
        let v: i64 = val as i64;
        hops_insert(&mut self.cache, (a, b), -(v + 1));
    }

    /// Remembers a lower bound of the cost from `a` to each of several edges.
    pub fn set_min_set(&mut self, a: EdgeIndex, b: &[EdgeIndex], val: u32)
        requires
            old(self).wf(),
        ensures
            final(self).wf(),
            forall|k: (usize, usize)| #[trigger]
                final(self)@(k) == (if k.0 == a && b@.contains(k.1) {
                    HopCost::AtLeast(val)
                } else {
                    old(self)@(k)
                }),
    {
        let mut i: usize = 0;
        while i < b.len()
            invariant
                i <= b@.len(),
                self.wf(),
                forall|k: (usize, usize)| #[trigger]
                    self@(k) == (if k.0 == a && b@.take(i as int).contains(k.1) {
                        HopCost::AtLeast(val)
                    } else {
                        old(self)@(k)
                    }),
            decreases b@.len() - i,
        {
            proof {
                lemma_take_contains(b@, i as int);
            }
            self.set_min(a, b[i], val);
            i = i + 1;
        }
        assert(b@.take(i as int) =~= b@);
    }

    /// Remembers a lower bound of the cost from each of several edges to `b`.
    pub fn set_min_from_set(&mut self, a: &[EdgeIndex], b: EdgeIndex, val: u32)
        requires
            old(self).wf(),
        ensures
            final(self).wf(),
            forall|k: (usize, usize)| #[trigger]
                final(self)@(k) == (if k.1 == b && a@.contains(k.0) {
                    HopCost::AtLeast(val)
                } else {
                    old(self)@(k)
                }),
    {
        let mut i: usize = 0;
        while i < a.len()
            invariant
                i <= a@.len(),
                self.wf(),
                forall|k: (usize, usize)| #[trigger]
                    self@(k) == (if k.1 == b && a@.take(i as int).contains(k.0) {
                        HopCost::AtLeast(val)
                    } else {
                        old(self)@(k)
                    }),
            decreases a@.len() - i,
        {
            proof {
                lemma_take_contains(a@, i as int);
            }
            self.set_min(a[i], b, val);
            i = i + 1;
        }
        assert(a@.take(i as int) =~= a@);
    }

    /// The cost that is known from `a` to `b`, zero if none is, and whether it is exact.
    pub fn get(&self, a: EdgeIndex, b: EdgeIndex) -> (r: (u32, bool))
        requires
            self.wf(),
        ensures
            r == (match self@((a, b)) {
                HopCost::Unknown => (0u32, false),
                HopCost::AtLeast(c) => (c, false),
                HopCost::Exactly(c) => (c, true),
            }),
    {
        match hops_get(&self.cache, (a, b)) {
            Some(v) => {
                if v < 0 {
                    ((-v - 1) as u32, true)
                } else {
                    (v as u32, false)
                }
            },
            None => (0, false),
        }
    }
}

pub proof fn lemma_take_contains(s: Seq<usize>, k: int)
    requires
        0 <= k < s.len(),
    ensures
        forall|x: usize| #[trigger]
            s.take(k + 1).contains(x) <==> s.take(k).contains(x) || x == s[k],
{
    let a = s.take(k);
    let b = s.take(k + 1);
    assert forall|x: usize| #[trigger] b.contains(x) <==> a.contains(x) || x == s[k] by {
        if a.contains(x) {
            let j = choose|j: int| 0 <= j < a.len() && a[j] == x;
            assert(b[j] == x);
        }
        assert(b[k] == s[k]);
        if b.contains(x) && x != s[k] {
            let j = choose|j: int| 0 <= j < b.len() && b[j] == x;
            assert(a[j] == x);
        }
    }
}

} // verus!
