//! Numbering the components of a graph.

use crate::collapse::lemma_same_ends_wf;
use crate::graph::{Edge, EdgePL, Graph, NodeIndex, NodePL};
use std::collections::VecDeque;
use vstd::prelude::*;

verus! {

/// Whether an edge joins two nodes, in whatever direction.
pub open spec fn linked(edges: Seq<Edge<EdgePL>>, a: int, b: int) -> bool {
    exists|k: int|
        0 <= k < edges.len() && (((#[trigger] edges[k]).from == a && edges[k].to == b) || (
        edges[k].from == b && edges[k].to == a))
}

/// Whether a walk of `n` edges, whatever their direction, leads from `a` to `b`.
pub open spec fn reaches(edges: Seq<Edge<EdgePL>>, a: int, b: int, n: nat) -> bool
    decreases n,
{
    if n == 0 {
        a == b
    } else {
        exists|c: int| reaches(edges, a, c, (n - 1) as nat) && #[trigger] linked(edges, c, b)
    }
}

/// Whether two nodes belong to one component.
pub open spec fn connected(edges: Seq<Edge<EdgePL>>, a: int, b: int) -> bool {
    exists|n: nat| reaches(edges, a, b, n)
}

/// Whether a node has the lowest index of its component.
pub open spec fn is_first(edges: Seq<Edge<EdgePL>>, a: int) -> bool {
    forall|b: int| 0 <= b < a ==> !#[trigger] connected(edges, b, a)
}

/// How many components begin among the first `n` nodes.
pub open spec fn firsts(edges: Seq<Edge<EdgePL>>, n: int) -> nat
    decreases n,
{
    if n <= 0 {
        0
    } else {
        firsts(edges, n - 1) + if is_first(edges, n - 1) {
            1nat
        } else {
            0
        }
    }
}

/// Whether `r` is the node with the lowest index in the component of `v`.
pub open spec fn first_of(edges: Seq<Edge<EdgePL>>, r: int, v: int) -> bool {
    0 <= r <= v && is_first(edges, r) && connected(edges, r, v)
}

/// Whether a number is that of the component of `v`: components are numbered from one, in the order
/// of their lowest nodes.
pub open spec fn is_number(edges: Seq<Edge<EdgePL>>, v: int, number: int) -> bool {
    exists|r: int| #[trigger] first_of(edges, r, v) && number == firsts(edges, r + 1)
}

proof fn lemma_prepend(edges: Seq<Edge<EdgePL>>, x: int, a: int, b: int, n: nat)
    requires
        linked(edges, x, a),
        reaches(edges, a, b, n),
    ensures
        reaches(edges, x, b, n + 1),
    decreases n,
{
    if n == 0 {
        assert(reaches(edges, x, x, 0));
    } else {
        let c = choose|c: int|
            reaches(edges, a, c, (n - 1) as nat) && #[trigger] linked(edges, c, b);
        lemma_prepend(edges, x, a, c, (n - 1) as nat);
        assert(reaches(edges, x, c, n));
    }
}

proof fn lemma_reverse(edges: Seq<Edge<EdgePL>>, a: int, b: int, n: nat)
    requires
        reaches(edges, a, b, n),
    ensures
        reaches(edges, b, a, n),
    decreases n,
{
    if n > 0 {
        let c = choose|c: int|
            reaches(edges, a, c, (n - 1) as nat) && #[trigger] linked(edges, c, b);
        lemma_reverse(edges, a, c, (n - 1) as nat);
        assert(linked(edges, b, c));
        lemma_prepend(edges, b, c, a, (n - 1) as nat);
    }
}

/// Connection is symmetric.
pub proof fn lemma_connected_symmetric(edges: Seq<Edge<EdgePL>>, a: int, b: int)
    requires
        connected(edges, a, b),
    ensures
        connected(edges, b, a),
{
    let n = choose|n: nat| reaches(edges, a, b, n);
    lemma_reverse(edges, a, b, n);
}

proof fn lemma_append(edges: Seq<Edge<EdgePL>>, a: int, b: int, c: int, n: nat)
    requires
        connected(edges, a, b),
        reaches(edges, b, c, n),
    ensures
        connected(edges, a, c),
    decreases n,
{
    if n > 0 {
        let d = choose|d: int|
            reaches(edges, b, d, (n - 1) as nat) && #[trigger] linked(edges, d, c);
        lemma_append(edges, a, b, d, (n - 1) as nat);
        lemma_step(edges, a, d, c);
    }
}

/// Connection is transitive.
pub proof fn lemma_connected_transitive(edges: Seq<Edge<EdgePL>>, a: int, b: int, c: int)
    requires
        connected(edges, a, b),
        connected(edges, b, c),
    ensures
        connected(edges, a, c),
{
    let n = choose|n: nat| reaches(edges, b, c, n);
    lemma_append(edges, a, b, c, n);
}

proof fn lemma_step(edges: Seq<Edge<EdgePL>>, a: int, b: int, c: int)
    requires
        connected(edges, a, b),
        linked(edges, b, c),
    ensures
        connected(edges, a, c),
{
    let n = choose|n: nat| reaches(edges, a, b, n);
    assert(reaches(edges, a, c, n + 1)) by {
        assert(reaches(edges, a, b, ((n + 1) - 1) as nat));
    }
}

proof fn lemma_firsts_grow(edges: Seq<Edge<EdgePL>>, m: int, n: int)
    requires
        m <= n,
    ensures
        firsts(edges, m) <= firsts(edges, n),
        n >= 0 ==> firsts(edges, n) <= n,
    decreases n,
{
    if m < n && 0 < n {
        lemma_firsts_grow(edges, m, n - 1);
    } else if 0 < n {
        lemma_firsts_grow(edges, n - 1, n - 1);
    }
}

/// Two nodes have the same number exactly if they are connected.
pub proof fn lemma_same_number(
    edges: Seq<Edge<EdgePL>>,
    a: int,
    b: int,
    number_a: int,
    number_b: int,
)
    requires
        is_number(edges, a, number_a),
        is_number(edges, b, number_b),
    ensures
        number_a == number_b <==> connected(edges, a, b),
{
    let r = choose|r: int|
        #[trigger] first_of(edges, r, a) && number_a == firsts(edges, r + 1);
    let s = choose|s: int|
        #[trigger] first_of(edges, s, b) && number_b == firsts(edges, s + 1);
    lemma_connected_symmetric(edges, r, a);
    lemma_connected_symmetric(edges, s, b);
    if connected(edges, a, b) {
        lemma_connected_transitive(edges, r, a, b);
        lemma_connected_transitive(edges, r, b, s);
        lemma_connected_symmetric(edges, r, s);
        assert(r == s);
    } else if r == s {
        lemma_connected_transitive(edges, a, r, b);
    } else if r < s {
        lemma_firsts_grow(edges, r + 1, s);
    } else {
        lemma_firsts_grow(edges, s + 1, r);
    }
}

// Walking the graph.

spec fn seen(visited: Seq<bool>, v: int) -> bool {
    0 <= v < visited.len() && visited[v]
}

/// Whether the neighbours of every node that has been walked have been seen, but for the edges that
/// leave (`leave`) and enter (`enter`) one node.
spec fn settled(
    edges: Seq<Edge<EdgePL>>,
    visited: Seq<bool>,
    queue: Seq<usize>,
    node: int,
    leave: bool,
    enter: bool,
) -> bool {
    forall|k: int|
        #![trigger edges[k]]
        0 <= k < edges.len() ==> {
            &&& visited[edges[k].from as int] && !queue.contains(edges[k].from) && (leave
                || edges[k].from != node) ==> visited[edges[k].to as int]
            &&& visited[edges[k].to as int] && !queue.contains(edges[k].to) && (enter
                || edges[k].to != node) ==> visited[edges[k].from as int]
        }
}

spec fn all_settled(edges: Seq<Edge<EdgePL>>, visited: Seq<bool>) -> bool {
    settled(edges, visited, Seq::empty(), 0, true, true)
}

proof fn lemma_reached_seen(
    edges: Seq<Edge<EdgePL>>,
    visited: Seq<bool>,
    a: int,
    b: int,
    n: nat,
)
    requires
        all_settled(edges, visited),
        0 <= a < visited.len(),
        visited[a],
        forall|k: int|
            #![trigger edges[k]]
            0 <= k < edges.len() ==> edges[k].from < visited.len() && edges[k].to < visited.len(),
        reaches(edges, a, b, n),
    ensures
        0 <= b < visited.len(),
        visited[b],
    decreases n,
{
    if n > 0 {
        let c = choose|c: int|
            reaches(edges, a, c, (n - 1) as nat) && #[trigger] linked(edges, c, b);
        lemma_reached_seen(edges, visited, a, c, (n - 1) as nat);
        let k = choose|k: int|
            0 <= k < edges.len() && (((#[trigger] edges[k]).from == c && edges[k].to == b) || (
            edges[k].from == b && edges[k].to == c));
        assert(edges[k].from < visited.len());
    }
}

/// How many nodes have not been seen.
spec fn unseen(visited: Seq<bool>) -> nat
    decreases visited.len(),
{
    if visited.len() == 0 {
        0
    } else {
        unseen(visited.drop_last()) + if visited.last() {
            0nat
        } else {
            1
        }
    }
}

proof fn lemma_see(visited: Seq<bool>, v: int)
    requires
        0 <= v < visited.len(),
        !visited[v],
    ensures
        unseen(visited.update(v, true)) == unseen(visited) - 1,
    decreases visited.len(),
{
    let u = visited.update(v, true);
    if v == visited.len() - 1 {
        assert(u.drop_last() =~= visited.drop_last());
    } else {
        lemma_see(visited.drop_last(), v);
        assert(u.drop_last() =~= visited.drop_last().update(v, true));
    }
}

proof fn lemma_unseen_bound(visited: Seq<bool>)
    ensures
        unseen(visited) <= visited.len(),
    decreases visited.len(),
{
    if visited.len() > 0 {
        lemma_unseen_bound(visited.drop_last());
    }
}

/// Whether the nodes that wait in the queue belong to the component that begins at `top`, and those
/// that have been walked have their number.
spec fn numbered(
    edges: Seq<Edge<EdgePL>>,
    visited: Seq<bool>,
    queue: Seq<usize>,
    ids: Seq<usize>,
    top: int,
) -> bool {
    &&& queue.no_duplicates()
    &&& forall|i: int|
        #![trigger queue[i]]
        0 <= i < queue.len() ==> seen(visited, queue[i] as int) && first_of(
            edges,
            top,
            queue[i] as int,
        )
    &&& forall|v: int|
        #![trigger visited[v]]
        0 <= v < visited.len() && visited[v] && !queue.contains(v as usize) ==> is_number(
            edges,
            v,
            ids[v] as int,
        )
    &&& forall|v: int|
        #![trigger visited[v]]
        0 <= v < visited.len() && visited[v] ==> begins_upto(edges, v, top)
}

/// Whether a node's component begins at `top` or before.
spec fn begins_upto(edges: Seq<Edge<EdgePL>>, v: int, top: int) -> bool {
    exists|r: int| #[trigger] first_of(edges, r, v) && r <= top
}

/// Puts the unseen one of a node's neighbours in the queue.
fn see(
    visited: &mut Vec<bool>,
    queue: &mut VecDeque<NodeIndex>,
    node: NodeIndex,
    next: NodeIndex,
    Ghost(edges): Ghost<Seq<Edge<EdgePL>>>,
    Ghost(ids): Ghost<Seq<usize>>,
    Ghost(top): Ghost<int>,
    Ghost(leave): Ghost<bool>,
)
    requires
        next < old(visited)@.len(),
        node < old(visited)@.len(),
        forall|b: int| 0 <= b < top ==> seen(old(visited)@, b),
        0 <= top,
        first_of(edges, top, node as int),
        linked(edges, node as int, next as int),
        numbered(edges, old(visited)@, old(queue)@, ids, top),
        settled(edges, old(visited)@, old(queue)@, node as int, leave, false),
        old(visited)@[node as int],
        !old(queue)@.contains(node),
        old(queue)@.len() + unseen(old(visited)@) <= usize::MAX,
        forall|k: int|
            #![trigger edges[k]]
            0 <= k < edges.len() ==> edges[k].from < old(visited)@.len() && edges[k].to < old(
                visited,
            )@.len(),
    ensures
        final(visited)@.len() == old(visited)@.len(),
        final(visited)@[next as int],
        forall|v: int|
            #![trigger final(visited)@[v]]
            0 <= v < old(visited)@.len() && old(visited)@[v] ==> final(visited)@[v],
        numbered(edges, final(visited)@, final(queue)@, ids, top),
        settled(edges, final(visited)@, final(queue)@, node as int, leave, false),
        !final(queue)@.contains(node),
        final(queue)@.len() + unseen(final(visited)@) <= old(queue)@.len() + unseen(
            old(visited)@,
        ),
        final(queue)@.len() + 2 * unseen(final(visited)@) <= old(queue)@.len() + 2 * unseen(
            old(visited)@,
        ),
{
    if !visited[next] {
        let ghost v0 = visited@;
        let ghost q0 = queue@;
        proof {
            lemma_see(visited@, next as int);
            lemma_step(edges, top, node as int, next as int);
            if next < top {
                assert(seen(v0, next as int));
            }
            assert(first_of(edges, top, next as int));
        }
        visited.set(next, true);
        queue.push_back(next);
        proof {
            let q = queue@;
            let v1 = visited@;
            assert(q[q0.len() as int] == next);
            assert forall|x: usize| q0.contains(x) implies q.contains(x) by {
                let i = choose|i: int| 0 <= i < q0.len() && q0[i] == x;
                assert(q[i] == x);
            }
            assert forall|x: usize| q.contains(x) implies q0.contains(x) || x == next by {
                let i = choose|i: int| 0 <= i < q.len() && q[i] == x;
                if i < q0.len() {
                    assert(q0[i] == x);
                }
            }
            assert(q.contains(next));
            assert(!q0.contains(next)) by {
                if q0.contains(next) {
                    let i = choose|i: int| 0 <= i < q0.len() && q0[i] == next;
                    assert(seen(v0, q0[i] as int));
                }
            }
            assert(q.no_duplicates()) by {
                assert forall|i: int, j: int| 0 <= i < q.len() && 0 <= j < q.len() && i != j implies q[i]
                    != q[j] by {
                    if i < q0.len() {
                        assert(q0.contains(q0[i]));
                    }
                    if j < q0.len() {
                        assert(q0.contains(q0[j]));
                    }
                }
            }
            assert forall|i: int| #![trigger q[i]] 0 <= i < q.len() implies seen(v1, q[i] as int)
                && first_of(edges, top, q[i] as int) by {
                if i < q0.len() {
                    assert(q[i] == q0[i]);
                    assert(seen(v0, q0[i] as int));
                }
            }
            assert forall|v: int|
                #![trigger v1[v]]
                0 <= v < v1.len() && v1[v] && !q.contains(v as usize) implies is_number(
                edges,
                v,
                ids[v] as int,
            ) by {
                assert(v != next);
                assert(v0[v]);
            }
            assert forall|v: int| #![trigger v1[v]] 0 <= v < v1.len() && v1[v] implies begins_upto(
                edges,
                v,
                top,
            ) by {
                if v != next {
                    assert(v0[v]);
                }
            }
        }
    }
}

/// Sees the neighbours of a node along the edges that leave it, then along those that enter it.
fn walk_node(
    graph: &Graph<NodePL, EdgePL>,
    visited: &mut Vec<bool>,
    queue: &mut VecDeque<NodeIndex>,
    node: NodeIndex,
    Ghost(ids): Ghost<Seq<usize>>,
    Ghost(top): Ghost<int>,
)
    requires
        graph.wf(),
        old(visited)@.len() == graph.nodes@.len(),
        node < old(visited)@.len(),
        0 <= top,
        forall|b: int| 0 <= b < top ==> seen(old(visited)@, b),
        first_of(graph.edges@, top, node as int),
        numbered(graph.edges@, old(visited)@, old(queue)@, ids, top),
        settled(graph.edges@, old(visited)@, old(queue)@, node as int, false, false),
        old(visited)@[node as int],
        !old(queue)@.contains(node),
        old(queue)@.len() + unseen(old(visited)@) <= usize::MAX,
    ensures
        final(visited)@.len() == old(visited)@.len(),
        forall|v: int|
            #![trigger final(visited)@[v]]
            0 <= v < old(visited)@.len() && old(visited)@[v] ==> final(visited)@[v],
        numbered(graph.edges@, final(visited)@, final(queue)@, ids, top),
        settled(graph.edges@, final(visited)@, final(queue)@, node as int, true, true),
        final(queue)@.len() + unseen(final(visited)@) <= old(queue)@.len() + unseen(
            old(visited)@,
        ),
        final(queue)@.len() + 2 * unseen(final(visited)@) <= old(queue)@.len() + 2 * unseen(
            old(visited)@,
        ),
{
    let ghost edges = graph.edges@;
    let ghost v0 = visited@;
    let ghost q0 = queue@;
    let mut i: usize = 0;
    while i < graph.nodes[node].out_edges.len()
        invariant
            graph.wf(),
            edges == graph.edges@,
            visited@.len() == graph.nodes@.len(),
            v0.len() == visited@.len(),
            node < visited@.len(),
            0 <= top,
            forall|b: int| 0 <= b < top ==> seen(v0, b),
            first_of(edges, top, node as int),
            numbered(edges, visited@, queue@, ids, top),
            settled(edges, visited@, queue@, node as int, false, false),
            visited@[node as int],
            !queue@.contains(node),
            queue@.len() + unseen(visited@) <= q0.len() + unseen(v0),
            queue@.len() + 2 * unseen(visited@) <= q0.len() + 2 * unseen(v0),
            q0.len() + unseen(v0) <= usize::MAX,
            forall|v: int|
                #![trigger visited@[v]]
                0 <= v < v0.len() && v0[v] ==> visited@[v],
            i <= graph.nodes@[node as int].out_edges@.len(),
            forall|m: int|
                #![trigger graph.nodes@[node as int].out_edges@[m]]
                0 <= m < i
                    ==> visited@[edges[graph.nodes@[node as int].out_edges@[m] as int].to as int],
        decreases graph.nodes@[node as int].out_edges@.len() - i,
    {
        let k: usize = graph.nodes[node].out_edges[i];
        assert(graph.nodes@[node as int].out_edges@[i as int] == k);
        let next: usize = graph.edges[k].to;
        assert(edges[k as int].from == node);
        assert forall|b: int| 0 <= b < top implies seen(visited@, b) by {
            assert(seen(v0, b));
        }
        let ghost before = visited@;
        see(visited, queue, node, next, Ghost(edges), Ghost(ids), Ghost(top), Ghost(false));
        proof {
            assert forall|m: int|
                #![trigger graph.nodes@[node as int].out_edges@[m]]
                0 <= m < i + 1 implies visited@[edges[graph.nodes@[node as int].out_edges@[m] as int].to as int] by {
                if m < i {
                    let e = graph.nodes@[node as int].out_edges@[m];
                    assert(before[edges[e as int].to as int]);
                    assert(edges[e as int].to < graph.nodes@.len());
                }
            }
        }
        i = i + 1;
    }
    proof {
        assert(settled(edges, visited@, queue@, node as int, true, false)) by {
            assert forall|k: int| #![trigger edges[k]] 0 <= k < edges.len() && edges[k].from
                == node implies visited@[edges[k].to as int] by {
                let list = graph.nodes@[node as int].out_edges@;
                assert(graph.edges@[k].from == node);
                assert(graph.nodes@[graph.edges@[k].from as int].out_edges@.contains(k as usize));
                assert(list.contains(k as usize));
                let m = choose|m: int| 0 <= m < list.len() && list[m] == k as usize;
                assert(graph.nodes@[node as int].out_edges@[m] == k as usize);
                assert(graph.edges.len() == graph.edges@.len());
            }
        }
    }
    let mut j: usize = 0;
    while j < graph.nodes[node].in_edges.len()
        invariant
            graph.wf(),
            edges == graph.edges@,
            visited@.len() == graph.nodes@.len(),
            v0.len() == visited@.len(),
            node < visited@.len(),
            0 <= top,
            forall|b: int| 0 <= b < top ==> seen(v0, b),
            first_of(edges, top, node as int),
            numbered(edges, visited@, queue@, ids, top),
            settled(edges, visited@, queue@, node as int, true, false),
            visited@[node as int],
            !queue@.contains(node),
            queue@.len() + unseen(visited@) <= q0.len() + unseen(v0),
            queue@.len() + 2 * unseen(visited@) <= q0.len() + 2 * unseen(v0),
            q0.len() + unseen(v0) <= usize::MAX,
            forall|v: int|
                #![trigger visited@[v]]
                0 <= v < v0.len() && v0[v] ==> visited@[v],
            j <= graph.nodes@[node as int].in_edges@.len(),
            forall|m: int|
                #![trigger graph.nodes@[node as int].in_edges@[m]]
                0 <= m < j
                    ==> visited@[edges[graph.nodes@[node as int].in_edges@[m] as int].from as int],
        decreases graph.nodes@[node as int].in_edges@.len() - j,
    {
        let k: usize = graph.nodes[node].in_edges[j];
        assert(graph.nodes@[node as int].in_edges@[j as int] == k);
        let next: usize = graph.edges[k].from;
        assert(edges[k as int].to == node);
        assert forall|b: int| 0 <= b < top implies seen(visited@, b) by {
            assert(seen(v0, b));
        }
        let ghost before = visited@;
        see(visited, queue, node, next, Ghost(edges), Ghost(ids), Ghost(top), Ghost(true));
        proof {
            assert forall|m: int|
                #![trigger graph.nodes@[node as int].in_edges@[m]]
                0 <= m < j + 1 implies visited@[edges[graph.nodes@[node as int].in_edges@[m] as int].from as int] by {
                if m < j {
                    let e = graph.nodes@[node as int].in_edges@[m];
                    assert(before[edges[e as int].from as int]);
                    assert(edges[e as int].from < graph.nodes@.len());
                }
            }
        }
        j = j + 1;
    }
    proof {
        assert(settled(edges, visited@, queue@, node as int, true, true)) by {
            assert forall|k: int| #![trigger edges[k]] 0 <= k < edges.len() && edges[k].to
                == node implies visited@[edges[k].from as int] by {
                let list = graph.nodes@[node as int].in_edges@;
                assert(graph.edges@[k].to == node);
                assert(graph.nodes@[graph.edges@[k].to as int].in_edges@.contains(k as usize));
                assert(list.contains(k as usize));
                let m = choose|m: int| 0 <= m < list.len() && list[m] == k as usize;
                assert(graph.nodes@[node as int].in_edges@[m] == k as usize);
                assert(graph.edges.len() == graph.edges@.len());
            }
        }
    }
}

/// Walks the component that begins at a node and numbers its nodes.
fn number_component(
    graph: &Graph<NodePL, EdgePL>,
    visited: &mut Vec<bool>,
    ids: &mut Vec<usize>,
    start: NodeIndex,
    number: usize,
)
    requires
        graph.wf(),
        old(visited)@.len() == graph.nodes@.len(),
        old(ids)@.len() == graph.nodes@.len(),
        start < old(visited)@.len(),
        !old(visited)@[start as int],
        forall|b: int| 0 <= b < start ==> seen(old(visited)@, b),
        all_settled(graph.edges@, old(visited)@),
        numbered(graph.edges@, old(visited)@, Seq::empty(), old(ids)@, start - 1),
        is_first(graph.edges@, start as int),
        number == firsts(graph.edges@, start + 1),
    ensures
        final(visited)@.len() == old(visited)@.len(),
        final(ids)@.len() == old(ids)@.len(),
        final(visited)@[start as int],
        forall|b: int| 0 <= b < start ==> seen(final(visited)@, b),
        all_settled(graph.edges@, final(visited)@),
        numbered(graph.edges@, final(visited)@, Seq::empty(), final(ids)@, start as int),
{
    let ghost edges = graph.edges@;
    let ghost v0 = visited@;
    let mut queue: VecDeque<NodeIndex> = VecDeque::new();
    proof {
        lemma_see(visited@, start as int);
        lemma_unseen_bound(visited@);
        assert(visited.len() == visited@.len());
        assert(reaches(edges, start as int, start as int, 0));
        assert(first_of(edges, start as int, start as int));
    }
    visited.set(start, true);
    queue.push_back(start);
    proof {
        let q = queue@;
        assert(q.len() == 1 && q[0] == start);
        assert(q.contains(start));
        assert forall|b: int| 0 <= b <= start implies seen(visited@, b) by {
            if b < start {
                assert(seen(v0, b));
            }
        }
        assert forall|v: int| #![trigger visited@[v]] 0 <= v < visited@.len() && visited@[v] implies {
            &&& !q.contains(v as usize) ==> is_number(edges, v, ids@[v] as int)
            &&& begins_upto(edges, v, start as int)
        } by {
            if v != start {
                assert(v0[v]);
                assert(!Seq::<usize>::empty().contains(v as usize));
                let r = choose|r: int| #[trigger] first_of(edges, r, v) && r <= start - 1;
                assert(first_of(edges, r, v));
            }
        }
        assert(settled(edges, visited@, q, start as int, true, true)) by {
            assert forall|k: int| #![trigger edges[k]] 0 <= k < edges.len() implies {
                &&& visited@[edges[k].from as int] && !q.contains(edges[k].from)
                    ==> visited@[edges[k].to as int]
                &&& visited@[edges[k].to as int] && !q.contains(edges[k].to)
                    ==> visited@[edges[k].from as int]
            } by {
                assert(!Seq::<usize>::empty().contains(edges[k].from));
                assert(!Seq::<usize>::empty().contains(edges[k].to));
                assert(edges[k].from < visited@.len() && edges[k].to < visited@.len());
            }
        }
    }
    let ghost mut last = start as int;
    loop
        invariant
            graph.wf(),
            edges == graph.edges@,
            visited@.len() == graph.nodes@.len(),
            ids@.len() == graph.nodes@.len(),
            start < visited@.len(),
            forall|b: int| 0 <= b <= start ==> seen(visited@, b),
            numbered(edges, visited@, queue@, ids@, start as int),
            settled(edges, visited@, queue@, last, true, true),
            is_first(edges, start as int),
            number == firsts(edges, start + 1),
            queue@.len() + unseen(visited@) <= usize::MAX,
        ensures
            visited@.len() == graph.nodes@.len(),
            ids@.len() == graph.nodes@.len(),
            forall|b: int| 0 <= b <= start ==> seen(visited@, b),
            numbered(edges, visited@, Seq::empty(), ids@, start as int),
            all_settled(edges, visited@),
        decreases queue@.len() + 2 * unseen(visited@),
    {
        let ghost q0 = queue@;
        let ghost ids0 = ids@;
        match queue.pop_front() {
            None => {
                assert(q0 =~= Seq::<usize>::empty());
                break;
            },
            Some(node) => {
                proof {
                    assert(q0[0] == node);
                    assert(seen(visited@, node as int));
                    assert forall|x: usize| queue@.contains(x) implies q0.contains(x) by {
                        let i = choose|i: int| 0 <= i < queue@.len() && queue@[i] == x;
                        assert(q0[i + 1] == x);
                    }
                    assert forall|x: usize| q0.contains(x) && x != node implies queue@.contains(
                        x,
                    ) by {
                        let i = choose|i: int| 0 <= i < q0.len() && q0[i] == x;
                        assert(queue@[i - 1] == x);
                    }
                }
                ids.set(node, number);
                proof {
                    assert(numbered(edges, visited@, queue@, ids@, start as int)) by {
                        assert forall|i: int| #![trigger queue@[i]] 0 <= i < queue@.len() implies seen(
                            visited@,
                            queue@[i] as int,
                        ) && first_of(edges, start as int, queue@[i] as int) by {
                            assert(queue@[i] == q0[i + 1]);
                        }
                        assert forall|v: int|
                            #![trigger visited@[v]]
                            0 <= v < visited@.len() && visited@[v] && !queue@.contains(
                                v as usize,
                            ) implies is_number(edges, v, ids@[v] as int) by {
                            if v == node {
                                assert(first_of(edges, start as int, v));
                            } else {
                                assert(!q0.contains(v as usize));
                                assert(ids@[v] == ids0[v]);
                            }
                        }
                    }
                    assert(!queue@.contains(node)) by {
                        if queue@.contains(node) {
                            let i = choose|i: int| 0 <= i < queue@.len() && queue@[i] == node;
                            assert(q0[i + 1] == q0[0]);
                        }
                    }
                }
                let ghost before = visited@;
                walk_node(graph, visited, &mut queue, node, Ghost(ids@), Ghost(start as int));
                proof {
                    last = node as int;
                    assert forall|b: int| 0 <= b <= start implies seen(visited@, b) by {
                        assert(seen(before, b));
                        assert(before[b] ==> visited@[b]);
                    }
                }
            },
        }
    }
    assert(seen(visited@, start as int));
}

/// The numbers of the components of all nodes.
pub fn component_ids(graph: &Graph<NodePL, EdgePL>) -> (ids: Vec<usize>)
    requires
        graph.wf(),
    ensures
        ids@.len() == graph.nodes@.len(),
        forall|v: int|
            #![trigger ids@[v]]
            0 <= v < ids@.len() ==> is_number(graph.edges@, v, ids@[v] as int),
{
    let n: usize = graph.nodes.len();
    let ghost edges = graph.edges@;
    let mut visited: Vec<bool> = vec![false; n];
    let mut ids: Vec<usize> = vec![0; n];
    let mut comp_id: usize = 0;
    let mut start: usize = 0;
    while start < n
        invariant
            graph.wf(),
            edges == graph.edges@,
            n == graph.nodes@.len(),
            visited@.len() == n,
            ids@.len() == n,
            start <= n,
            comp_id == firsts(edges, start as int),
            forall|b: int| 0 <= b < start ==> seen(visited@, b),
            all_settled(edges, visited@),
            numbered(edges, visited@, Seq::empty(), ids@, start - 1),
        decreases n - start,
    {
        if !visited[start] {
            proof {
                assert(is_first(edges, start as int)) by {
                    assert forall|b: int| 0 <= b < start implies !#[trigger] connected(
                        edges,
                        b,
                        start as int,
                    ) by {
                        assert(seen(visited@, b));
                        if connected(edges, b, start as int) {
                            let k = choose|k: nat| reaches(edges, b, start as int, k);
                            lemma_reached_seen(edges, visited@, b, start as int, k);
                        }
                    }
                }
                lemma_firsts_grow(edges, start + 1, start + 1);
            }
            comp_id = comp_id + 1;
            number_component(graph, &mut visited, &mut ids, start, comp_id);
        } else {
            proof {
                assert(begins_upto(edges, start as int, start - 1));
                let r = choose|r: int| #[trigger] first_of(edges, r, start as int) && r <= start
                    - 1;
                assert(connected(edges, r, start as int));
                assert(!is_first(edges, start as int));
                assert forall|v: int|
                    #![trigger visited@[v]]
                    0 <= v < visited@.len() && visited@[v] implies begins_upto(
                    edges,
                    v,
                    start as int,
                ) by {
                    let r = choose|r: int| #[trigger] first_of(edges, r, v) && r <= start - 1;
                    assert(first_of(edges, r, v));
                }
            }
        }
        start = start + 1;
    }
    proof {
        assert forall|v: int| #![trigger ids@[v]] 0 <= v < ids@.len() implies is_number(
            graph.edges@,
            v,
            ids@[v] as int,
        ) by {
            assert(seen(visited@, v));
            assert(visited@[v]);
            assert(!Seq::<usize>::empty().contains(v as usize));
        }
    }
    ids
}

/// Writes the numbers of the components to the nodes.
pub fn write_components(graph: &mut Graph<NodePL, EdgePL>)
    requires
        old(graph).wf(),
    ensures
        final(graph).wf(),
        final(graph).edges@ == old(graph).edges@,
        final(graph).transit_lines@ == old(graph).transit_lines@,
        final(graph).nodes@.len() == old(graph).nodes@.len(),
        forall|v: int|
            #![trigger final(graph).nodes@[v]]
            0 <= v < old(graph).nodes@.len() ==> {
                let a = old(graph).nodes@[v];
                let b = final(graph).nodes@[v];
                &&& b.payload.point == a.payload.point
                &&& is_number(old(graph).edges@, v, b.payload.comp_id as int)
                &&& b.out_edges@ == a.out_edges@
                &&& b.in_edges@ == a.in_edges@
            },
{
    let ids = component_ids(graph);
    let ghost g0 = *graph;
    let mut v: usize = 0;
    while v < graph.nodes.len()
        invariant
            g0 == *old(graph),
            ids@.len() == g0.nodes@.len(),
            graph.nodes@.len() == g0.nodes@.len(),
            graph.edges@ == g0.edges@,
            graph.transit_lines@ == g0.transit_lines@,
            v <= graph.nodes@.len(),
            forall|u: int|
                #![trigger ids@[u]]
                0 <= u < ids@.len() ==> is_number(g0.edges@, u, ids@[u] as int),
            forall|u: int|
                #![trigger graph.nodes@[u]]
                0 <= u < graph.nodes@.len() ==> {
                    let a = g0.nodes@[u];
                    let b = graph.nodes@[u];
                    &&& b.payload.point == a.payload.point
                    &&& u < v ==> b.payload.comp_id == ids@[u]
                    &&& b.out_edges@ == a.out_edges@
                    &&& b.in_edges@ == a.in_edges@
                },
        decreases graph.nodes@.len() - v,
    {
        let number: usize = ids[v];
        graph.nodes[v].payload.comp_id = number;
        v = v + 1;
    }
    proof {
        lemma_same_ends_wf(g0, *graph);
    }
}

} // verus!
