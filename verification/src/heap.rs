//! A binary heap that hands out its cheapest entry first.

use vstd::multiset::Multiset;
use vstd::prelude::*;

verus! {

/// An entry of a search queue: a node, the cost `g` of the way that reached it, the cost by which
/// the queue is ordered, and the node where that way began.
#[derive(Clone, Copy, Debug, PartialEq, Eq, Structural)]
pub struct QueueItem {
    pub cost: u128,
    pub g: u128,
    pub node: usize,
    pub origin: usize,
}

/// Whether an entry is handed out before another, or is the same: the cheaper one is. Of two that cost
/// the same, it is the one reached at less cost, then the one of the lower node and origin.
pub open spec fn no_later(a: QueueItem, b: QueueItem) -> bool {
    if a.cost != b.cost {
        a.cost < b.cost
    } else if a.g != b.g {
        a.g < b.g
    } else if a.node != b.node {
        a.node < b.node
    } else {
        a.origin <= b.origin
    }
}

fn comes_first(a: QueueItem, b: QueueItem) -> (r: bool)
    ensures
        r == no_later(a, b),
{
    if a.cost != b.cost {
        a.cost < b.cost
    } else if a.g != b.g {
        a.g < b.g
    } else if a.node != b.node {
        a.node < b.node
    } else {
        a.origin <= b.origin
    }
}

/// The entry of a queue that is handed out first.
pub open spec fn foremost(m: Multiset<QueueItem>) -> QueueItem {
    choose|x: QueueItem| is_foremost(m, x)
}

pub open spec fn is_foremost(m: Multiset<QueueItem>, x: QueueItem) -> bool {
    &&& m.contains(x)
    &&& forall|y: QueueItem| #[trigger] m.contains(y) ==> no_later(x, y)
}

/// No two entries of a queue could be handed out first.
pub proof fn lemma_foremost(m: Multiset<QueueItem>, x: QueueItem)
    requires
        is_foremost(m, x),
    ensures
        foremost(m) == x,
{
    let y = foremost(m);
    assert(is_foremost(m, y));
    assert(no_later(x, y) && no_later(y, x));
}

/// A priority queue in the order of `no_later`.
pub struct MinHeap {
    items: Vec<QueueItem>,
}

impl View for MinHeap {
    type V = Multiset<QueueItem>;

    closed spec fn view(&self) -> Multiset<QueueItem> {
        self.items@.to_multiset()
    }
}

spec fn parent(i: int) -> int {
    (i - 1) / 2
}

/// The heap order, with the pair that `hole` forms with its parent left out.
spec fn ordered_above(s: Seq<QueueItem>, hole: int) -> bool {
    &&& forall|i: int|
        0 < i < s.len() && i != hole ==> no_later(s[#[trigger] parent(i)], s[i])
    &&& forall|i: int|
        0 < i < s.len() && parent(i) == hole && hole > 0 ==> no_later(s[parent(hole)], #[trigger] s[i])
}

/// The heap order, with the pairs that `hole` forms with its children left out.
spec fn ordered_below(s: Seq<QueueItem>, hole: int) -> bool {
    &&& forall|i: int|
        0 < i < s.len() && parent(i) != hole ==> no_later(s[#[trigger] parent(i)], s[i])
    &&& forall|i: int|
        0 < i < s.len() && parent(i) == hole && hole > 0 ==> no_later(s[parent(hole)], #[trigger] s[i])
}

spec fn ordered(s: Seq<QueueItem>) -> bool {
    forall|i: int| 0 < i < s.len() ==> no_later(s[#[trigger] parent(i)], s[i])
}

proof fn lemma_update_multiset(s: Seq<QueueItem>, i: int, a: QueueItem)
    requires
        0 <= i < s.len(),
    ensures
        s.update(i, a).to_multiset() == s.to_multiset().remove(s[i]).insert(a),
{
    broadcast use vstd::seq_lib::group_to_multiset_ensures;

    assert(s.update(i, a) =~= s.remove(i).insert(i, a));
    vstd::seq_lib::to_multiset_insert(s.remove(i), i, a);
    vstd::seq_lib::to_multiset_remove(s, i);
}

proof fn lemma_swap_multiset(s: Seq<QueueItem>, i: int, j: int)
    requires
        0 <= i < s.len(),
        0 <= j < s.len(),
    ensures
        s.update(i, s[j]).update(j, s[i]).to_multiset() == s.to_multiset(),
{
    broadcast use vstd::seq_lib::group_to_multiset_ensures;

    let m = s.to_multiset();
    assert(s.contains(s[i]));
    assert(s.contains(s[j]));
    lemma_update_multiset(s, i, s[j]);
    lemma_update_multiset(s.update(i, s[j]), j, s[i]);
    if i == j {
        assert(s.update(i, s[j]).update(j, s[i]) =~= s);
    } else {
        assert(m.remove(s[i]).insert(s[j]).remove(s[j]).insert(s[i]) =~= m);
    }
}

/// The first entry of an ordered sequence is a cheapest one.
proof fn lemma_root_is_least(s: Seq<QueueItem>, i: int)
    requires
        ordered(s),
        0 <= i < s.len(),
    ensures
        no_later(s[0], s[i]),
    decreases i,
{
    if i > 0 {
        lemma_root_is_least(s, parent(i));
        assert(no_later(s[parent(i)], s[i]));
    }
}

/// `Vec::capacity`: for how many entries there is room. This rests on what has been allocated, so
/// nothing is said of it but that the present entries have room.
#[verifier::external_body]
fn items_capacity(v: &Vec<QueueItem>) -> (r: usize)
    ensures
        v@.len() <= r,
{
    v.capacity()
}

impl MinHeap {
    /// For how many entries the queue has room.
    pub fn capacity(&self) -> (r: usize)
        ensures
            self@.len() <= r,
    {
        broadcast use vstd::seq_lib::group_to_multiset_ensures;

        items_capacity(&self.items)
    }

    /// Whether the entries are in heap order.
    pub closed spec fn wf(&self) -> bool {
        ordered(self.items@)
    }

    /// An empty queue.
    pub fn new() -> (h: Self)
        ensures
            h.wf(),
            h@ == Multiset::<QueueItem>::empty(),
    {
        broadcast use vstd::seq_lib::group_to_multiset_ensures;

        let h = MinHeap { items: Vec::new() };
        assert(h@.len() == 0);
        assert(h@ =~= Multiset::<QueueItem>::empty());
        h
    }

    /// The number of entries.
    pub fn len(&self) -> (n: usize)
        ensures
            n == self@.len(),
    {
        broadcast use vstd::seq_lib::group_to_multiset_ensures;

        self.items.len()
    }

    /// Whether there are no entries.
    pub fn is_empty(&self) -> (b: bool)
        ensures
            b <==> self@.len() == 0,
    {
        broadcast use vstd::seq_lib::group_to_multiset_ensures;

        self.items.len() == 0
    }

    /// Removes all entries.
    pub fn clear(&mut self)
        ensures
            final(self).wf(),
            final(self)@ == Multiset::<QueueItem>::empty(),
    {
        broadcast use vstd::seq_lib::group_to_multiset_ensures;

        self.items.clear();
        assert(self@.len() == 0);
        assert(self@ =~= Multiset::<QueueItem>::empty());
    }

    /// The foremost entry, a cheapest one, or none if the queue is empty.
    pub fn peek(&self) -> (r: Option<QueueItem>)
        requires
            self.wf(),
        ensures
            match r {
                Some(x) => x == foremost(self@) && self@.contains(x) && forall|y: QueueItem|
                    #[trigger] self@.contains(y) ==> x.cost <= y.cost,
                None => self@.len() == 0,
            },
    {
        broadcast use vstd::seq_lib::group_to_multiset_ensures;

        if self.items.len() == 0 {
            return None;
        }
        let x = self.items[0];
        proof {
            assert(self.items@.contains(x));
            assert forall|y: QueueItem| #[trigger] self@.contains(y) implies no_later(x, y) by {
                assert(self.items@.contains(y));
                let i = choose|i: int| 0 <= i < self.items@.len() && self.items@[i] == y;
                lemma_root_is_least(self.items@, i);
            }
            lemma_foremost(self@, x);
        }
        Some(x)
    }

    /// Adds an entry.
    pub fn push(&mut self, item: QueueItem)
        requires
            old(self).wf(),
        ensures
            final(self).wf(),
            final(self)@ == old(self)@.insert(item),
    {
        broadcast use vstd::seq_lib::group_to_multiset_ensures;

        self.items.push(item);
        let mut pos: usize = self.items.len() - 1;
        proof {
            assert(self.items@ =~= old(self).items@.push(item));
            assert forall|i: int| 0 < i < self.items@.len() && i != pos implies no_later(self.items@[#[trigger] parent( i, )], self.items@[i]) by {
                assert(no_later(old(self).items@[parent(i)], old(self).items@[i]));
            }
        }
        while pos > 0
            invariant
                pos < self.items@.len(),
                ordered_above(self.items@, pos as int),
                self@ == old(self)@.insert(item),
            ensures
                ordered(self.items@),
                self@ == old(self)@.insert(item),
            decreases pos,
        {
            let up: usize = (pos - 1) / 2;
            let a = self.items[pos];
            let b = self.items[up];
            assert(up == parent(pos as int));
            if comes_first(b, a) {
                break ;
            }
            let ghost s = self.items@;
            self.items[pos] = b;
            self.items[up] = a;
            proof {
                let t = self.items@;
                assert(t == s.update(pos as int, b).update(up as int, a));
                lemma_swap_multiset(s, pos as int, up as int);
                assert forall|i: int| 0 < i < t.len() && i != up implies no_later(t[#[trigger] parent(i)], t[i]) by {
                    assert(i != pos ==> no_later(s[parent(i)], s[i]));
                    assert(parent(i) == pos ==> no_later(s[parent(pos as int)], s[i]));
                }
                assert forall|i: int|
                    0 < i < t.len() && parent(i) == up && up > 0 implies no_later(t[parent(up as int)], #[trigger] t[i]) by {
                    assert(no_later(s[parent(up as int)], s[up as int]));
                    if i != pos {
                        assert(no_later(s[parent(i)], s[i]));
                    }
                }
            }
            pos = up;
        }
    }

    /// Removes and returns the foremost entry, a cheapest one, or returns none if the queue is empty.
    pub fn pop(&mut self) -> (r: Option<QueueItem>)
        requires
            old(self).wf(),
        ensures
            final(self).wf(),
            match r {
                Some(x) => {
                    &&& x == foremost(old(self)@)
                    &&& old(self)@.contains(x)
                    &&& final(self)@ == old(self)@.remove(x)
                    &&& forall|y: QueueItem| #[trigger]
                        old(self)@.contains(y) ==> x.cost <= y.cost
                },
                None => old(self)@.len() == 0 && final(self)@ == old(self)@,
            },
    {
        broadcast use vstd::seq_lib::group_to_multiset_ensures;

        let n: usize = self.items.len();
        if n == 0 {
            return None;
        }
        let ghost s0 = self.items@;
        let top = self.items[0];
        let last = self.items[n - 1];
        proof {
            assert(s0.contains(top));
            assert forall|y: QueueItem| #[trigger] old(self)@.contains(y) implies no_later(top, y) by {
                assert(s0.contains(y));
                let i = choose|i: int| 0 <= i < s0.len() && s0[i] == y;
                lemma_root_is_least(s0, i);
            }
            lemma_foremost(old(self)@, top);
        }
        self.items.pop();
        let ghost s1 = self.items@;
        proof {
            assert(s1.push(last) =~= s0);
            assert(s1.to_multiset().insert(last) == s0.to_multiset());
        }
        if n == 1 {
            proof {
                assert(top == last);
                assert(self@ =~= old(self)@.remove(top));
            }
            return Some(top);
        }
        self.items[0] = last;
        proof {
            lemma_update_multiset(s1, 0, last);
            assert(s1[0] == top);
            assert(s1.contains(top));
            assert(self@ =~= old(self)@.remove(top));
            assert forall|i: int| 0 < i < self.items@.len() && parent(i) != 0 implies no_later(self.items@[#[trigger] parent( i, )], self.items@[i]) by {
                assert(no_later(s0[parent(i)], s0[i]));
            }
        }
        let mut pos: usize = 0;
        let m: usize = n - 1;
        loop
            invariant
                pos < m,
                m == self.items@.len(),
                ordered_below(self.items@, pos as int),
                self@ == old(self)@.remove(top),
            ensures
                ordered(self.items@),
                self@ == old(self)@.remove(top),
            decreases m - pos,
        {
            if pos >= (m - 1) / 2 + 1 || 2 * pos + 1 >= m {
                proof {
                    let s = self.items@;
                    assert forall|i: int| 0 < i < s.len() implies no_later(s[#[trigger] parent(i)], s[i]) by {
                        assert(parent(i) != pos);
                    }
                }
                break ;
            }
            let left: usize = 2 * pos + 1;
            let mut child: usize = left;
            if left + 1 < m && !comes_first(self.items[left], self.items[left + 1]) {
                child = left + 1;
            }
            let a = self.items[pos];
            let b = self.items[child];
            proof {
                let s = self.items@;
                assert(parent(child as int) == pos);
                assert(parent(left as int) == pos);
                assert(parent(left + 1) == pos);
                assert forall|i: int| 0 < i < s.len() && parent(i) == pos implies i == left || i == left
                    + 1 by {}
            }
            if comes_first(a, b) {
                proof {
                    let s = self.items@;
                    assert forall|i: int| 0 < i < s.len() implies no_later(s[#[trigger] parent(i)], s[i]) by {
                        if parent(i) == pos {
                            assert(i == left || i == left + 1);
                        }
                    }
                }
                break ;
            }
            let ghost s = self.items@;
            self.items[pos] = b;
            self.items[child] = a;
            proof {
                let t = self.items@;
                assert(t == s.update(pos as int, b).update(child as int, a));
                lemma_swap_multiset(s, pos as int, child as int);
                assert forall|i: int| 0 < i < t.len() && parent(i) != child implies no_later(t[#[trigger] parent( i, )], t[i]) by {
                    if parent(i) == pos {
                        assert(i == left || i == left + 1);
                    } else {
                        assert(no_later(s[parent(i)], s[i]));
                        if i == pos {
                            assert(no_later(s[parent(pos as int)], s[child as int]));
                        }
                    }
                }
                assert forall|i: int|
                    0 < i < t.len() && parent(i) == child && child > 0 implies no_later(t[parent( child as int, )], #[trigger] t[i]) by {
                    assert(no_later(s[parent(i)], s[i]));
                }
            }
            pos = child;
        }
        Some(top)
    }
}

} // verus!
