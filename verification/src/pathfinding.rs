//! Shortest ways between nodes of the routing graph.

use crate::geometry::{BBox, Point};
use crate::graph::{EdgePL, Graph, NodeIndex, NodePL};
use crate::hashed::{
    labels_capacity, labels_clear, labels_get, labels_insert, labels_new, labels_of, IndexSet, Label, Labels,
};
use crate::heap::{foremost, MinHeap, QueueItem};
use crate::search::{heuristic_m, Query, TransitMatch, MAX_PULL};
use vstd::multiset::Multiset;
use vstd::prelude::*;

verus! {

/// One of the two searches: the nodes to look at, and what is known of the nodes reached.
struct Side {
    open: MinHeap,
    labels: Labels,
}

/// Where a search begins, which way it goes and where it is drawn.
#[derive(Clone, Copy)]
struct Aim {
    fwd: bool,
    root: usize,
    goal: Point,
    cos: u32,
}

/// What the proof remembers of a search: when each label was set, and a way of that cost.
struct Trail {
    ord: Map<usize, nat>,
    wit: Map<usize, Seq<usize>>,
    clock: nat,
}

/// The cost of a way found, and the edge (with its two ends) on which the two searches met.
#[derive(Clone, Copy)]
struct Meeting {
    cost: u128,
    u: usize,
    v: usize,
    edge: usize,
}

spec fn lure(q: Query, a: Aim, n: usize) -> nat {
    crate::search::pull(q.allowed_modes, q.graph.nodes@[n as int].payload.point, a.goal, a.cos)
}

/// Whether the edges lead from `root` to `v`, seen in the direction of the search, and the search
/// may enter every node on the way.
spec fn trace_ok(q: Query, a: Aim, es: Seq<usize>, v: usize) -> bool {
    if a.fwd {
        &&& q.walk(es, a.root, v)
        &&& forall|i: int| 0 < i <= es.len() ==> q.admits(#[trigger] q.node_at(es, a.root, i))
    } else {
        &&& q.walk(es, v, a.root)
        &&& forall|i: int| 0 <= i < es.len() ==> q.admits(#[trigger] q.node_at(es, v, i))
    }
}

#[verifier::opaque]
spec fn label_ok(q: Query, a: Aim, f: Map<usize, Label>, t: Trail, v: usize) -> bool {
    &&& v < q.graph.nodes@.len()
    &&& t.ord.contains_key(v)
    &&& t.ord[v] < t.clock
    &&& t.wit.contains_key(v)
    &&& trace_ok(q, a, t.wit[v], v)
    &&& q.cost(t.wit[v]) == f[v].g
    &&& f[v].g <= (f.dom().len() - 1) * crate::search::step_bound()
    &&& f[v].origin == a.root
    &&& v == a.root ==> f[v].g == 0 && f[v].via is None
    &&& v != a.root ==> {
        &&& f[v].via is Some
        &&& f.contains_key((f[v].via->0).0)
        &&& q.arc(a.fwd, (f[v].via->0).0, (f[v].via->0).1, v)
        &&& f[(f[v].via->0).0].g + q.step((f[v].via->0).1) <= f[v].g
        &&& f[(f[v].via->0).0].g < f[v].g || t.ord[(f[v].via->0).0] < t.ord[v]
    }
}

spec fn entry(q: Query, a: Aim, f: Map<usize, Label>, u: usize) -> QueueItem {
    QueueItem { cost: (f[u].g + lure(q, a, u)) as u128, g: f[u].g, node: u, origin: a.root }
}

spec fn side_inv(
    q: Query,
    a: Aim,
    f: Map<usize, Label>,
    open: Multiset<QueueItem>,
    t: Trail,
) -> bool {
    &&& f.dom().finite()
    &&& f.contains_key(a.root)
    &&& forall|v: usize| #[trigger] f.contains_key(v) ==> label_ok(q, a, f, t, v)
    &&& forall|x: QueueItem| #[trigger]
        open.contains(x) ==> f.contains_key(x.node) && f[x.node].g <= x.g && x.cost == x.g + lure(
            q,
            a,
            x.node,
        )
}

/// Whether a label has been dealt with or waits to be: the node waits in the queue, all edges
/// that go on from it are relaxed, or going on from it cannot improve on the way found.
spec fn covered(
    q: Query,
    a: Aim,
    f: Map<usize, Label>,
    open: Multiset<QueueItem>,
    best: Option<Meeting>,
    u: usize,
) -> bool {
    ||| open.contains(entry(q, a, f, u))
    ||| crate::search::closed_node(q, a.fwd, f, u)
    ||| best is Some && f[u].g + lure(q, a, u) >= best->0.cost
}

spec fn cover_inv(
    q: Query,
    a: Aim,
    f: Map<usize, Label>,
    open: Multiset<QueueItem>,
    best: Option<Meeting>,
    except: Option<usize>,
) -> bool {
    forall|u: usize| #[trigger]
        f.contains_key(u) && except != Some(u) ==> covered(q, a, f, open, best, u)
}

/// Whether the best way found is as good as every node at which the searches have met.
spec fn meet_inv(
    q: Query,
    f: Map<usize, Label>,
    b: Map<usize, Label>,
    best: Option<Meeting>,
) -> bool {
    forall|v: usize|
        #![trigger f.contains_key(v), b.contains_key(v)]
        f.contains_key(v) && b.contains_key(v) ==> best is Some && best->0.cost <= f[v].g + b[v].g
}

/// Whether the best way found is one.
spec fn best_ok(
    q: Query,
    s: usize,
    t: usize,
    f: Map<usize, Label>,
    b: Map<usize, Label>,
    best: Option<Meeting>,
) -> bool {
    best is Some ==> {
        let m = best->0;
        &&& q.usable(m.edge)
        &&& q.edge_at(m.edge).from == m.u
        &&& q.edge_at(m.edge).to == m.v
        &&& f.contains_key(m.u)
        &&& b.contains_key(m.v)
        &&& f[m.u].g + q.step(m.edge) + b[m.v].g <= m.cost
        &&& exists|es: Seq<usize>| #[trigger] q.open_walk(es, s, t) && q.cost(es) == m.cost
    }
}

// The course of a search.

/// One of the two searches, and the best way found by both.
struct Front {
    labels: Map<usize, Label>,
    open: Multiset<QueueItem>,
    best: Option<Meeting>,
}

/// Both searches, and the best way found.
struct Progress {
    f: Map<usize, Label>,
    open_f: Multiset<QueueItem>,
    b: Map<usize, Label>,
    open_b: Multiset<QueueItem>,
    best: Option<Meeting>,
}

/// The node that an edge leads to from `u`.
spec fn across(q: Query, u: usize, e: usize) -> usize {
    if q.edge_at(e).from == u {
        q.edge_at(e).to
    } else {
        q.edge_at(e).from
    }
}

/// A search after it has looked at an edge by which it can go on from `u`, reached at cost `g`.
spec fn looked_at(
    q: Query,
    a: Aim,
    other: Map<usize, Label>,
    u: usize,
    g: u128,
    e: usize,
    s: Front,
) -> Front {
    let v = across(q, u, e);
    let tentative = (g + q.step(e)) as u128;
    if !q.usable(e) || !q.admits(v) || (s.labels.contains_key(v) && s.labels[v].g <= tentative) {
        s
    } else {
        let dist = (tentative + other[v].g) as u128;
        Front {
            labels: s.labels.insert(v, Label { g: tentative, origin: a.root, via: Some((u, e)) }),
            open: s.open.insert(
                QueueItem {
                    cost: (tentative + lure(q, a, v)) as u128,
                    g: tentative,
                    node: v,
                    origin: a.root,
                },
            ),
            best: if other.contains_key(v) && (s.best is None || dist < s.best->0.cost) {
                Some(
                    if a.fwd {
                        Meeting { cost: dist, u: u, v: v, edge: e }
                    } else {
                        Meeting { cost: dist, u: v, v: u, edge: e }
                    },
                )
            } else {
                s.best
            },
        }
    }
}

/// A search after it has looked at the first `k` of a list of edges.
spec fn looked_upto(
    q: Query,
    a: Aim,
    other: Map<usize, Label>,
    u: usize,
    g: u128,
    list: Seq<usize>,
    k: int,
    s: Front,
) -> Front
    decreases k,
{
    if k <= 0 {
        s
    } else {
        looked_at(
            q,
            a,
            other,
            u,
            g,
            list[k - 1],
            looked_upto(q, a, other, u, g, list, k - 1, s),
        )
    }
}

/// The edges by which a search goes on from `u`.
spec fn ways_on(q: Query, a: Aim, u: usize) -> Seq<usize> {
    if a.fwd {
        q.graph.nodes@[u as int].out_edges@
    } else {
        q.graph.nodes@[u as int].in_edges@
    }
}

/// A search after it has dealt with the foremost node of its queue.
spec fn advanced(q: Query, a: Aim, other: Map<usize, Label>, s: Front) -> Front {
    let item = foremost(s.open);
    let u = item.node;
    let g = s.labels[u].g;
    let rest = Front { open: s.open.remove(item), ..s };
    if item.g > g || (s.best is Some && g + lure(q, a, u) >= s.best->0.cost) {
        rest
    } else {
        let list = ways_on(q, a, u);
        looked_upto(q, a, other, u, g, list, list.len() as int, rest)
    }
}

/// Whether going on cannot pay.
spec fn stopped(p: Progress) -> bool {
    ||| p.open_f.len() == 0
    ||| p.open_b.len() == 0
    ||| p.best is Some && foremost(p.open_f).cost + foremost(p.open_b).cost >= p.best->0.cost
}

/// Both searches after another step: the one with fewer nodes to look at goes on.
spec fn next(q: Query, a: Aim, b: Aim, p: Progress) -> Progress {
    if p.open_f.len() <= p.open_b.len() {
        let s = advanced(q, a, p.b, Front { labels: p.f, open: p.open_f, best: p.best });
        Progress { f: s.labels, open_f: s.open, best: s.best, ..p }
    } else {
        let s = advanced(q, b, p.f, Front { labels: p.b, open: p.open_b, best: p.best });
        Progress { b: s.labels, open_b: s.open, best: s.best, ..p }
    }
}

/// How a search ends, if it does so within `n` steps.
spec fn run(q: Query, a: Aim, b: Aim, p: Progress, n: nat) -> Option<Progress>
    decreases n,
{
    if stopped(p) {
        Some(p)
    } else if n == 0 {
        None
    } else {
        run(q, a, b, next(q, a, b, p), (n - 1) as nat)
    }
}

proof fn lemma_run_unique(q: Query, a: Aim, b: Aim, p: Progress, n: nat, m: nat)
    requires
        run(q, a, b, p, n) is Some,
        run(q, a, b, p, m) is Some,
    ensures
        run(q, a, b, p, n) == run(q, a, b, p, m),
    decreases n,
{
    if !stopped(p) {
        lemma_run_unique(q, a, b, next(q, a, b, p), (n - 1) as nat, (m - 1) as nat);
    }
}

spec fn ahead(q: Query, start: usize, end: usize, cos_end: u32) -> Aim {
    Aim { fwd: true, root: start, goal: q.graph.nodes@[end as int].payload.point, cos: cos_end }
}

spec fn behind(q: Query, start: usize, end: usize, cos_start: u32) -> Aim {
    Aim { fwd: false, root: end, goal: q.graph.nodes@[start as int].payload.point, cos: cos_start }
}

spec fn first_item(q: Query, a: Aim) -> QueueItem {
    QueueItem { cost: lure(q, a, a.root) as u128, g: 0, node: a.root, origin: a.root }
}

/// Both searches at the beginning.
spec fn first_progress(q: Query, a: Aim, b: Aim) -> Progress {
    Progress {
        f: Map::<usize, Label>::empty().insert(
            a.root,
            Label { g: 0, origin: a.root, via: None },
        ),
        open_f: Multiset::<QueueItem>::empty().insert(first_item(q, a)),
        b: Map::<usize, Label>::empty().insert(b.root, Label { g: 0, origin: b.root, via: None }),
        open_b: Multiset::<QueueItem>::empty().insert(first_item(q, b)),
        best: None,
    }
}

/// Both searches at the end.
spec fn last_progress(q: Query, a: Aim, b: Aim) -> Progress {
    let n = choose|n: nat| run(q, a, b, first_progress(q, a, b), n) is Some;
    run(q, a, b, first_progress(q, a, b), n)->0
}

/// The node that is `k` steps before `from` on the way by which it was reached.
spec fn back_at(f: Map<usize, Label>, from: usize, k: int) -> usize
    decreases k,
{
    if k <= 0 {
        from
    } else {
        (f[back_at(f, from, k - 1)].via->0).0
    }
}

/// Whether the edges are the last ones on the way by which `from` was reached, from `at` on and the
/// last one first.
#[verifier::opaque]
spec fn is_part_trace(f: Map<usize, Label>, from: usize, path: Seq<usize>, at: usize) -> bool {
    &&& at == back_at(f, from, path.len() as int)
    &&& forall|i: int|
        #![trigger path[i]]
        0 <= i < path.len() ==> f[back_at(f, from, i)].via == Some(
            (back_at(f, from, i + 1), path[i]),
        )
}

proof fn lemma_trace_longer(
    f: Map<usize, Label>,
    from: usize,
    path: Seq<usize>,
    at: usize,
    parent: usize,
    e: usize,
)
    requires
        is_part_trace(f, from, path, at),
        f[at].via == Some((parent, e)),
    ensures
        is_part_trace(f, from, path.push(e), parent),
{
    reveal(is_part_trace);
    let longer = path.push(e);
    assert forall|i: int| #![trigger longer[i]] 0 <= i < longer.len() implies f[back_at(
        f,
        from,
        i,
    )].via == Some((back_at(f, from, i + 1), longer[i])) by {
        if i < path.len() {
            assert(longer[i] == path[i]);
        }
    }
    assert(longer.len() == path.len() + 1);
    assert(parent == back_at(f, from, longer.len() as int));
}

/// Whether the edges are those by which `from` was reached, the last one first.
spec fn is_trace(f: Map<usize, Label>, from: usize, path: Seq<usize>) -> bool {
    let at = back_at(f, from, path.len() as int);
    is_part_trace(f, from, path, at) && f[at].via is None
}

spec fn trace_of(f: Map<usize, Label>, from: usize) -> Seq<usize> {
    choose|path: Seq<usize>| is_trace(f, from, path)
}

proof fn lemma_trace_of(f: Map<usize, Label>, from: usize, path: Seq<usize>)
    requires
        is_trace(f, from, path),
    ensures
        trace_of(f, from) == path,
{
    reveal(is_part_trace);
    let other = trace_of(f, from);
    assert(is_trace(f, from, other));
    if path.len() < other.len() {
        let e = other[path.len() as int];
        assert(false);
    }
    if other.len() < path.len() {
        let e = path[other.len() as int];
        assert(false);
    }
    assert(path =~= other);
}

/// What a search from both ends comes to: the cost of the way it finds, and the edges of that way.
/// Nothing but the query has a part in it.
pub closed spec fn found(
    q: Query,
    start: NodeIndex,
    end: NodeIndex,
    cos_start: u32,
    cos_end: u32,
) -> Option<(u128, Seq<usize>)> {
    if start == end {
        Some((0u128, Seq::<usize>::empty()))
    } else {
        let p = last_progress(q, ahead(q, start, end, cos_end), behind(q, start, end, cos_start));
        match p.best {
            None => None,
            Some(m) => Some(
                (m.cost, trace_of(p.f, m.u).reverse().push(m.edge) + trace_of(p.b, m.v)),
            ),
        }
    }
}

/// Whether a result is what a search comes to.
pub open spec fn is_found(
    q: Query,
    start: NodeIndex,
    end: NodeIndex,
    cos_start: u32,
    cos_end: u32,
    r: Option<(u128, Vec<usize>)>,
) -> bool {
    found(q, start, end, cos_start, cos_end) == (match r {
        Some((cost, path)) => Some((cost, path@)),
        None => None,
    })
}

/// Whether a result is the cost of what a search comes to.
pub open spec fn is_found_cost(
    q: Query,
    start: NodeIndex,
    end: NodeIndex,
    cos_start: u32,
    cos_end: u32,
    r: Option<u128>,
) -> bool {
    r == (match found(q, start, end, cos_start, cos_end) {
        Some((cost, _)) => Some(cost),
        None => None,
    })
}

/// A search for the cost alone gives the cost that a search for the way gives, whatever contexts the
/// two are made in.
pub proof fn lemma_cost_search_agrees(
    q: Query,
    start: NodeIndex,
    end: NodeIndex,
    cos_start: u32,
    cos_end: u32,
    way: Option<(u128, Vec<usize>)>,
    cost: Option<u128>,
)
    requires
        is_found(q, start, end, cos_start, cos_end, way),
        is_found_cost(q, start, end, cos_start, cos_end, cost),
    ensures
        cost == (match way {
            Some((c, _)) => Some(c),
            None => None,
        }),
{
}

/// Two searches for the same way give the same, whatever contexts they are made in.
pub proof fn lemma_context_plays_no_part(
    q: Query,
    start: NodeIndex,
    end: NodeIndex,
    cos_start: u32,
    cos_end: u32,
    a: Option<(u128, Vec<usize>)>,
    b: Option<(u128, Vec<usize>)>,
)
    requires
        is_found(q, start, end, cos_start, cos_end, a),
        is_found(q, start, end, cos_start, cos_end, b),
    ensures
        a is Some <==> b is Some,
        a is Some ==> (a->0).0 == (b->0).0 && (a->0).1@ == (b->0).1@,
{
}

// Bounds and termination.

proof fn lemma_bounded_set(s: Set<usize>, n: nat)
    requires
        s.finite(),
        forall|x: usize| s.contains(x) ==> x < n,
    ensures
        s.len() <= n,
    decreases n,
{
    if n == 0 {
        assert(s =~= Set::<usize>::empty());
    } else {
        let top = (n - 1) as usize;
        let rest = s.remove(top);
        lemma_bounded_set(rest, (n - 1) as nat);
    }
}

spec fn cap(q: Query) -> nat {
    q.graph.nodes@.len() * crate::search::step_bound() + 1
}

/// Labels stay below a bound that fits into 102 bits.
proof fn lemma_label_bound(q: Query, a: Aim, f: Map<usize, Label>, open: Multiset<QueueItem>, t: Trail, v: usize)
    requires
        side_inv(q, a, f, open, t),
        f.contains_key(v),
        q.graph.nodes@.len() <= usize::MAX,
    ensures
        f.dom().len() <= q.graph.nodes@.len(),
        f[v].g + crate::search::step_bound() < cap(q),
        cap(q) <= 0xffff_ffff_ffff_ffff * crate::search::step_bound() + 1,
{
    reveal(label_ok);
    let n = q.graph.nodes@.len();
    assert forall|x: usize| f.dom().contains(x) implies x < n by {
        assert(f.contains_key(x));
        assert(label_ok(q, a, f, t, x));
    }
    lemma_bounded_set(f.dom(), n);
    assert(label_ok(q, a, f, t, v));
    let m = crate::search::step_bound();
    let d = f.dom().len();
    assert((d - 1) * m <= (n - 1) * m) by (nonlinear_arith)
        requires
            d <= n,
            m >= 0,
    ;
    assert((n - 1) * m + m == n * m) by (nonlinear_arith);
    assert(n * m <= 0xffff_ffff_ffff_ffff * m) by (nonlinear_arith)
        requires
            n <= 0xffff_ffff_ffff_ffff,
            m >= 0,
    ;
}

// Joining ways.

proof fn lemma_node_at_join(q: Query, a: Seq<usize>, b: Seq<usize>, s: usize, m: usize, i: int)
    requires
        0 <= i <= a.len() + b.len(),
        q.node_at(a, s, a.len() as int) == m,
    ensures
        q.node_at(a + b, s, i) == (if i <= a.len() {
            q.node_at(a, s, i)
        } else {
            q.node_at(b, m, i - a.len())
        }),
{
    if 0 < i <= a.len() {
        assert((a + b)[i - 1] == a[i - 1]);
    } else if i > a.len() {
        assert((a + b)[i - 1] == b[i - 1 - a.len()]);
    }
}

/// A way of the forward search and one of the backward search that end at the same node.
proof fn lemma_traces_meet(
    q: Query,
    af: Aim,
    ab: Aim,
    x: Seq<usize>,
    y: Seq<usize>,
    v: usize,
)
    requires
        af.fwd,
        !ab.fwd,
        trace_ok(q, af, x, v),
        trace_ok(q, ab, y, v),
    ensures
        q.open_walk(x + y, af.root, ab.root),
        q.cost(x + y) == q.cost(x) + q.cost(y),
{
    crate::search::lemma_walk_join(q, x, y, af.root, v, ab.root);
    crate::search::lemma_cost_join(q, x, y);
    crate::search::lemma_walk_nodes(q, x, af.root, v);
    assert forall|i: int| 0 < i < (x + y).len() implies q.admits(
        #[trigger] q.node_at(x + y, af.root, i),
    ) by {
        lemma_node_at_join(q, x, y, af.root, v, i);
        if i <= x.len() {
            assert(q.admits(q.node_at(x, af.root, i)));
        } else {
            assert(q.admits(q.node_at(y, v, i - x.len())));
        }
    }
}

/// The way to `v` by way of `u`.
spec fn extend(fwd: bool, es: Seq<usize>, e: usize) -> Seq<usize> {
    if fwd {
        es.push(e)
    } else {
        seq![e] + es
    }
}

proof fn lemma_extend(q: Query, a: Aim, es: Seq<usize>, u: usize, e: usize, v: usize)
    requires
        trace_ok(q, a, es, u),
        q.arc(a.fwd, u, e, v),
    ensures
        trace_ok(q, a, extend(a.fwd, es, e), v),
        q.cost(extend(a.fwd, es, e)) == q.cost(es) + q.step(e),
{
    let x = extend(a.fwd, es, e);
    assert(seq![e].drop_last() =~= Seq::<usize>::empty());
    if a.fwd {
        crate::search::lemma_walk_push(q, es, a.root, e);
        crate::search::lemma_cost_push(q, es, e);
        assert forall|i: int| 0 < i <= x.len() implies q.admits(
            #[trigger] q.node_at(x, a.root, i),
        ) by {
            if i <= es.len() {
                assert(x[i - 1] == es[i - 1]);
                assert(q.node_at(x, a.root, i) == q.node_at(es, a.root, i));
            }
        }
    } else {
        assert(q.walk(seq![e], v, u)) by {
            reveal_with_fuel(Query::walk, 2);
        }
        assert(q.cost(seq![e]) == q.step(e)) by {
            reveal_with_fuel(Query::cost, 2);
        }
        crate::search::lemma_walk_join(q, seq![e], es, v, u, a.root);
        crate::search::lemma_cost_join(q, seq![e], es);
        assert forall|i: int| 0 <= i < x.len() implies q.admits(#[trigger] q.node_at(x, v, i)) by {
            lemma_node_at_join(q, seq![e], es, v, u, i);
            if i >= 1 {
                assert(q.node_at(es, u, i - 1) == q.node_at(x, v, i));
                assert(q.admits(q.node_at(es, u, i - 1)));
            }
        }
    }
}

/// A label may be improved: what is known of the others stays true.
proof fn lemma_side_insert(
    q: Query,
    a: Aim,
    f: Map<usize, Label>,
    open: Multiset<QueueItem>,
    t: Trail,
    u: usize,
    e: usize,
    v: usize,
    l: Label,
    item: QueueItem,
) -> (t2: Trail)
    requires
        side_inv(q, a, f, open, t),
        f.contains_key(u),
        q.arc(a.fwd, u, e, v),
        v < q.graph.nodes@.len(),
        u != v,
        q.graph.nodes@.len() <= usize::MAX,
        l.g == f[u].g + q.step(e),
        q.step(e) <= crate::search::step_bound(),
        l.origin == a.root,
        l.via == Some((u, e)),
        f.contains_key(v) ==> l.g < f[v].g,
        item.node == v,
        item.g == l.g,
        item.cost == l.g + lure(q, a, v),
        item.origin == a.root,
    ensures
        side_inv(q, a, f.insert(v, l), open.insert(item), t2),
        t2.wit[v] == extend(a.fwd, t.wit[u], e),
        trace_ok(q, a, t2.wit[v], v),
        q.cost(t2.wit[v]) == l.g,
{
    reveal(label_ok);
    let f2 = f.insert(v, l);
    let w = extend(a.fwd, t.wit[u], e);
    let t2 = Trail { ord: t.ord.insert(v, t.clock), wit: t.wit.insert(v, w), clock: t.clock + 1 };
    let m = crate::search::step_bound();
    assert(label_ok(q, a, f, t, u));
    lemma_extend(q, a, t.wit[u], u, e, v);
    if v == a.root {
        assert(label_ok(q, a, f, t, v));
        assert(false);
    }
    assert(f2.dom() =~= f.dom().insert(v));
    let d = f.dom().len();
    let d2 = f2.dom().len();
    assert(d <= d2);
    assert((d - 1) * m <= (d2 - 1) * m) by (nonlinear_arith)
        requires
            d <= d2,
            m >= 0,
    ;
    if f.contains_key(v) {
        assert(label_ok(q, a, f, t, v));
    } else {
        assert(d2 == d + 1);
        assert((d - 1) * m + m == (d2 - 1) * m) by (nonlinear_arith)
            requires
                d2 == d + 1,
        ;
    }
    assert forall|x: usize| #[trigger] f2.contains_key(x) implies label_ok(q, a, f2, t2, x) by {
        if x != v {
            assert(f.contains_key(x));
            assert(label_ok(q, a, f, t, x));
            assert(t2.wit[x] == t.wit[x]);
            if x != a.root {
                let p = (f[x].via->0).0;
                if p == v {
                    assert(f2[p].g < f[p].g);
                }
            }
        } else {
            assert(f2[u] == f[u]);
        }
    }
    assert forall|x: QueueItem| #[trigger] open.insert(item).contains(x) implies f2.contains_key(
        x.node,
    ) && f2[x.node].g <= x.g && x.cost == x.g + lure(q, a, x.node) by {
        if x != item {
            assert(open.contains(x));
        }
    }
    t2
}

/// Improving the label of `v` and queueing it leaves every other node covered.
proof fn lemma_cover_insert(
    q: Query,
    a: Aim,
    f: Map<usize, Label>,
    open: Multiset<QueueItem>,
    best: Option<Meeting>,
    u: usize,
    v: usize,
    l: Label,
    item: QueueItem,
)
    requires
        cover_inv(q, a, f, open, best, Some(u)),
        f.contains_key(v) ==> l.g < f[v].g,
        item == (QueueItem {
            cost: (l.g + lure(q, a, v)) as u128,
            g: l.g,
            node: v,
            origin: a.root,
        }),
    ensures
        cover_inv(q, a, f.insert(v, l), open.insert(item), best, Some(u)),
{
    let f2 = f.insert(v, l);
    let open2 = open.insert(item);
    assert forall|x: usize| #[trigger] f2.contains_key(x) && Some(u) != Some(x) implies covered(
        q,
        a,
        f2,
        open2,
        best,
        x,
    ) by {
        if x == v {
            assert(entry(q, a, f2, v) == item);
        } else {
            assert(f.contains_key(x));
            assert(covered(q, a, f, open, best, x));
            assert(entry(q, a, f2, x) == entry(q, a, f, x));
            if crate::search::closed_node(q, a.fwd, f, x) {
                assert forall|e: usize, y: usize| #[trigger] q.arc(a.fwd, x, e, y) implies crate::search::relaxed(
                q, f2, x, e, y) by {
                    assert(crate::search::relaxed(q, f, x, e, y));
                }
            }
        }
    }
}

/// A better way found leaves every node covered.
proof fn lemma_cover_best(
    q: Query,
    a: Aim,
    f: Map<usize, Label>,
    open: Multiset<QueueItem>,
    old_best: Option<Meeting>,
    best: Option<Meeting>,
    except: Option<usize>,
)
    requires
        cover_inv(q, a, f, open, old_best, except),
        old_best is Some ==> best is Some && best->0.cost <= old_best->0.cost,
    ensures
        cover_inv(q, a, f, open, best, except),
{
    assert forall|x: usize| #[trigger] f.contains_key(x) && except != Some(x) implies covered(
        q,
        a,
        f,
        open,
        best,
        x,
    ) by {
        assert(covered(q, a, f, open, old_best, x));
    }
}

/// A node from which the search could still go on waits in the queue, or is not worth it.
proof fn lemma_stuck(
    q: Query,
    a: Aim,
    f: Map<usize, Label>,
    open: Multiset<QueueItem>,
    t: Trail,
    best: Option<Meeting>,
    x: usize,
    e: usize,
    x2: usize,
)
    requires
        q.graph.nodes@.len() <= usize::MAX,
        side_inv(q, a, f, open, t),
        cover_inv(q, a, f, open, best, None),
        f.contains_key(x),
        q.arc(a.fwd, x, e, x2),
        !crate::search::relaxed(q, f, x, e, x2),
        lure(q, a, x) <= MAX_PULL,
    ensures
        ({
            ||| best is Some && f[x].g + lure(q, a, x) >= best->0.cost
            ||| open.contains(entry(q, a, f, x)) && entry(q, a, f, x).cost == f[x].g + lure(q, a, x)
        }),
{
    lemma_label_bound(q, a, f, open, t, x);
    assert(covered(q, a, f, open, best, x));
    assert(!crate::search::closed_node(q, a.fwd, f, x));
}

/// When the two searches may stop, the way found is hardly longer than any other.
proof fn lemma_search_done(
    q: Query,
    af: Aim,
    ab: Aim,
    f: Map<usize, Label>,
    b: Map<usize, Label>,
    open_f: Multiset<QueueItem>,
    open_b: Multiset<QueueItem>,
    tf: Trail,
    tb: Trail,
    best: Option<Meeting>,
    min_f: nat,
    min_b: nat,
    es: Seq<usize>,
    hf: nat,
    hb: nat,
)
    requires
        af.fwd,
        !ab.fwd,
        q.graph.nodes@.len() <= usize::MAX,
        side_inv(q, af, f, open_f, tf),
        side_inv(q, ab, b, open_b, tb),
        cover_inv(q, af, f, open_f, best, None),
        cover_inv(q, ab, b, open_b, best, None),
        meet_inv(q, f, b, best),
        ({
            ||| open_f.len() == 0
            ||| open_b.len() == 0
            ||| best is Some && min_f + min_b >= best->0.cost
        }),
        forall|x: QueueItem| #[trigger] open_f.contains(x) ==> min_f <= x.cost,
        forall|x: QueueItem| #[trigger] open_b.contains(x) ==> min_b <= x.cost,
        q.open_walk(es, af.root, ab.root),
        q.admits(af.root),
        q.admits(ab.root),
        forall|i: int|
            0 <= i <= es.len() ==> lure(q, af, #[trigger] q.node_at(es, af.root, i)) <= hf,
        forall|i: int|
            0 <= i <= es.len() ==> lure(q, ab, #[trigger] q.node_at(es, af.root, i)) <= hb,
        hf <= MAX_PULL,
        hb <= MAX_PULL,
    ensures
        best is Some,
        best->0.cost <= q.cost(es) + hf + hb,
{
    let s = af.root;
    let t = ab.root;
    let n = es.len() as int;
    assert(q.node_at(es, s, n) == t) by {
        crate::search::lemma_walk_nodes(q, es, s, t);
    }
    assert(f[s].g == 0 && b[t].g == 0) by {
        assert(label_ok(q, af, f, tf, s));
        assert(label_ok(q, ab, b, tb, t));
        reveal(label_ok);
    }
    let i = crate::search::lemma_reached_from_start(q, f, es, s, 0, n);
    let j = crate::search::lemma_reached_from_end(q, b, es, s, t, 0);
    let x = q.node_at(es, s, i);
    let y = q.node_at(es, s, j);
    assert(f.contains_key(x) && f[x].g <= q.cost(es.take(i)));
    assert(b.contains_key(y) && b[y].g <= q.cost(es.skip(j)));
    crate::search::lemma_cost_split(q, es, i);
    crate::search::lemma_cost_split(q, es, j);
    if j <= i {
        assert(b.contains_key(q.node_at(es, s, i)) && b[x].g <= q.cost(es.skip(i)));
        assert(best is Some && best->0.cost <= f[x].g + b[x].g);
    } else {
        // The forward search is stuck at `x`, the backward search at `y`.
        let x2 = q.node_at(es, s, i + 1);
        assert(q.arc(true, x, es[i], x2)) by {
            crate::search::lemma_walk_edge(q, es, s, t, i);
            if i + 1 < n {
                assert(q.admits(q.node_at(es, s, i + 1)));
            }
        }
        let y2 = q.node_at(es, s, j - 1);
        assert(q.arc(false, y, es[j - 1], y2)) by {
            crate::search::lemma_walk_edge(q, es, s, t, j - 1);
            if j - 1 > 0 {
                assert(q.admits(q.node_at(es, s, j - 1)));
            }
        }
        assert(x < q.graph.nodes@.len()) by {
            assert(label_ok(q, af, f, tf, x));
            reveal(label_ok);
        }
        assert(y < q.graph.nodes@.len()) by {
            assert(label_ok(q, ab, b, tb, y));
            reveal(label_ok);
        }
        assert(lure(q, af, x) <= hf);
        assert(lure(q, ab, y) <= hb);
        lemma_stuck(q, af, f, open_f, tf, best, x, es[i], x2);
        lemma_stuck(q, ab, b, open_b, tb, best, y, es[j - 1], y2);
        assert(q.cost(es.take(i)) + q.cost(es.skip(j)) <= q.cost(es)) by {
            let mid = es.subrange(i, j);
            assert(es.take(i) + mid =~= es.take(j));
            crate::search::lemma_cost_join(q, es.take(i), mid);
        }
    }
}

/// How many entries queues and tables of these sizes keep, a table counting twice, as far as that can
/// be counted.
pub open spec fn retained_sum(open_fwd: usize, open_bwd: usize, fwd: usize, bwd: usize) -> usize {
    let sum = open_fwd + open_bwd + 2 * fwd + 2 * bwd;
    if sum > usize::MAX {
        usize::MAX
    } else {
        sum as usize
    }
}

/// How many entries queues and tables of these sizes keep.
pub fn retained_in(open_fwd: usize, open_bwd: usize, fwd: usize, bwd: usize) -> (r: usize)
    ensures
        r == retained_sum(open_fwd, open_bwd, fwd, bwd),
{
    open_fwd.saturating_add(open_bwd).saturating_add(fwd).saturating_add(bwd).saturating_add(
        fwd,
    ).saturating_add(bwd)
}

/// The states of the two searches, kept to be used again.
pub struct PathfinderContext {
    fwd: Side,
    bwd: Side,
}

impl PathfinderContext {
    /// A context for first use.
    pub fn new() -> (r: Self)
        ensures
            r.is_clear(),
    {
        PathfinderContext {
            fwd: Side { open: MinHeap::new(), labels: labels_new() },
            bwd: Side { open: MinHeap::new(), labels: labels_new() },
        }
    }

    /// Whether nothing is left of an earlier search.
    pub closed spec fn is_clear(&self) -> bool {
        &&& self.fwd.open.wf() && self.fwd.open@ == Multiset::<QueueItem>::empty()
        &&& self.bwd.open.wf() && self.bwd.open@ == Multiset::<QueueItem>::empty()
        &&& labels_of(self.fwd.labels) == Map::<usize, Label>::empty()
        &&& labels_of(self.bwd.labels) == Map::<usize, Label>::empty()
    }

    /// Forgets everything.
    pub fn reset(&mut self)
        ensures
            final(self).is_clear(),
    {
        self.fwd.open.clear();
        self.bwd.open.clear();
        labels_clear(&mut self.fwd.labels);
        labels_clear(&mut self.bwd.labels);
    }

    /// How many entries the queues and tables hold now.
    pub closed spec fn entries(&self) -> nat {
        self.fwd.open@.len() + self.bwd.open@.len() + labels_of(self.fwd.labels).len() + labels_of(
            self.bwd.labels,
        ).len()
    }

    /// Whether the four numbers are no smaller than the lengths of the two queues and the two tables.
    pub closed spec fn has_room(&self, open_fwd: int, open_bwd: int, fwd: int, bwd: int) -> bool {
        &&& self.fwd.open@.len() <= open_fwd
        &&& self.bwd.open@.len() <= open_bwd
        &&& labels_of(self.fwd.labels).len() <= fwd
        &&& labels_of(self.bwd.labels).len() <= bwd
    }

    /// For how many entries the queues and tables have room, each label counting twice: once for
    /// its cost and once for where it came from. How much room there is rests on what has been
    /// allocated: it is enough for what they hold.
    pub fn retained_entries(&self) -> (r: usize)
        ensures
            r >= self.entries() || r == usize::MAX,
            exists|open_fwd: usize, open_bwd: usize, fwd: usize, bwd: usize|
                {
                    &&& #[trigger] self.has_room(
                        open_fwd as int,
                        open_bwd as int,
                        fwd as int,
                        bwd as int,
                    )
                    &&& r == retained_sum(open_fwd, open_bwd, fwd, bwd)
                },
    {
        let open_fwd: usize = self.fwd.open.capacity();
        let open_bwd: usize = self.bwd.open.capacity();
        let fwd: usize = labels_capacity(&self.fwd.labels);
        let bwd: usize = labels_capacity(&self.bwd.labels);
        assert(self.has_room(open_fwd as int, open_bwd as int, fwd as int, bwd as int));
        retained_in(open_fwd, open_bwd, fwd, bwd)
    }

    /// Starts afresh if the context has room for more than `maximum_entries`, which it has if it
    /// holds more.
    pub fn discard_if_oversized(&mut self, maximum_entries: usize)
        ensures
            *final(self) == *old(self) || final(self).is_clear(),
            old(self).entries() > maximum_entries && maximum_entries < usize::MAX
                ==> final(self).is_clear(),
    {
        let retained: usize = self.retained_entries();
        self.discard_above(retained, maximum_entries);
    }

    /// Starts afresh if `retained` exceeds `maximum_entries`.
    pub fn discard_above(&mut self, retained: usize, maximum_entries: usize)
        ensures
            retained > maximum_entries ==> final(self).is_clear(),
            retained <= maximum_entries ==> *final(self) == *old(self),
    {
        if retained > maximum_entries {
            *self = PathfinderContext::new();
        }
    }
}

spec fn front(side: Side, best: Option<Meeting>) -> Front {
    Front { labels: labels_of(side.labels), open: side.open@, best }
}

/// Looks at all edges by which the search can go on from `u`.
fn expand(
    q: &Query,
    a: Aim,
    side: &mut Side,
    other: &Labels,
    best: Option<Meeting>,
    u: usize,
    Ghost(ab): Ghost<Aim>,
    Ghost(t): Ghost<Trail>,
    Ghost(t2): Ghost<Trail>,
    Ghost(open2): Ghost<Multiset<QueueItem>>,
) -> (r: (Option<Meeting>, Ghost<Trail>))
    requires
        q.graph.wf(),
        a.cos <= 1_000_000_000,
        ab.fwd == !a.fwd,
        old(side).open.wf(),
        side_inv(*q, a, labels_of(old(side).labels), old(side).open@, t),
        cover_inv(*q, a, labels_of(old(side).labels), old(side).open@, best, Some(u)),
        side_inv(*q, ab, labels_of(*other), open2, t2),
        cover_inv(*q, ab, labels_of(*other), open2, best, None),
        labels_of(old(side).labels).contains_key(u),
        meet_inv(*q, labels_of(old(side).labels), labels_of(*other), best),
        a.fwd ==> best_ok(*q, a.root, ab.root, labels_of(old(side).labels), labels_of(*other), best),
        !a.fwd ==> best_ok(*q, ab.root, a.root, labels_of(*other), labels_of(old(side).labels), best),
    ensures
        final(side).open.wf(),
        side_inv(*q, a, labels_of(final(side).labels), final(side).open@, r.1@),
        cover_inv(*q, a, labels_of(final(side).labels), final(side).open@, r.0, None),
        cover_inv(*q, ab, labels_of(*other), open2, r.0, None),
        meet_inv(*q, labels_of(final(side).labels), labels_of(*other), r.0),
        a.fwd ==> best_ok(*q, a.root, ab.root, labels_of(final(side).labels), labels_of(*other), r.0),
        !a.fwd ==> best_ok(*q, ab.root, a.root, labels_of(*other), labels_of(final(side).labels), r.0),
        ({
            let n = q.graph.nodes@.len();
            let before = crate::search::potential(labels_of(old(side).labels), n, cap(*q));
            let after = crate::search::potential(labels_of(final(side).labels), n, cap(*q));
            after < before || after == before && final(side).open@ == old(side).open@
        }),
        ({
            let list = ways_on(*q, a, u);
            front(*final(side), r.0) == looked_upto(
                *q,
                a,
                labels_of(*other),
                u,
                labels_of(old(side).labels)[u].g,
                list,
                list.len() as int,
                front(*old(side), best),
            )
        }),
{
    let ghost n = q.graph.nodes@.len();
    proof {
        assert(q.graph.nodes.len() == n);
        assert(label_ok(*q, a, labels_of(side.labels), t, u));
        reveal(label_ok);
    }
    let g_u: u128 = match labels_get(&side.labels, u) {
        Some(l) => l.g,
        None => 0,
    };
    let ghost begun = front(*side, best);
    let mut best = best;
    let ghost mut trail = t;
    let ghost before = crate::search::potential(labels_of(side.labels), n, cap(*q));
    let ghost open_before = side.open@;
    let node = q.graph.node(u);
    let ghost list = if a.fwd {
        node.out_edges@
    } else {
        node.in_edges@
    };
    let count: usize = if a.fwd { node.out_edges.len() } else { node.in_edges.len() };
    let mut k: usize = 0;
    while k < count
        invariant
            n == q.graph.nodes@.len(),
            n == q.graph.nodes.len(),
            u < n,
            *node == q.graph.nodes@[u as int],
            list == (if a.fwd {
                node.out_edges@
            } else {
                node.in_edges@
            }),
            count == list.len(),
            k <= count,
            q.graph.wf(),
            a.cos <= 1_000_000_000,
            ab.fwd == !a.fwd,
            side.open.wf(),
            side_inv(*q, a, labels_of(side.labels), side.open@, trail),
            cover_inv(*q, a, labels_of(side.labels), side.open@, best, Some(u)),
            side_inv(*q, ab, labels_of(*other), open2, t2),
            cover_inv(*q, ab, labels_of(*other), open2, best, None),
            labels_of(side.labels).contains_key(u),
            labels_of(side.labels)[u].g == g_u,
            meet_inv(*q, labels_of(side.labels), labels_of(*other), best),
            a.fwd ==> best_ok(*q, a.root, ab.root, labels_of(side.labels), labels_of(*other), best),
            !a.fwd ==> best_ok(*q, ab.root, a.root, labels_of(*other), labels_of(side.labels), best),
            forall|j: int, v: usize|
                #![trigger q.arc(
                    a.fwd,
                    u,
                    list[j],
                    v,
                )]
                0 <= j < k && q.arc(
                    a.fwd,
                    u,
                    list[j],
                    v,
                ) ==> crate::search::relaxed(
                    *q,
                    labels_of(side.labels),
                    u,
                    list[j],
                    v,
                ),
            crate::search::potential(labels_of(side.labels), n, cap(*q)) < before || crate::search::potential(
                labels_of(side.labels),
                n,
                cap(*q),
            ) == before && side.open@ == open_before,
            list == ways_on(*q, a, u),
            front(*side, best) == looked_upto(
                *q,
                a,
                labels_of(*other),
                u,
                g_u,
                list,
                k as int,
                begun,
            ),
        decreases count - k,
    {
        let ghost so_far = front(*side, best);
        let e: usize = if a.fwd { node.out_edges[k] } else { node.in_edges[k] };
        proof {
            if a.fwd {
                assert(q.graph.nodes@[u as int].out_edges@[k as int] == e);
            } else {
                assert(q.graph.nodes@[u as int].in_edges@[k as int] == e);
            }
        }
        let edge = q.graph.edge(e);
        let v: usize = if edge.from == u { edge.to } else { edge.from };
        assert(q.edge_at(e) == *edge);
        assert(v == (if a.fwd {
            edge.to
        } else {
            edge.from
        }));
        if q.is_usable(e) && q.is_admitted(v) {
            assert(q.arc(a.fwd, u, e, v));
            let step: u64 = q.get_edge_cost(e);
            proof {
                lemma_label_bound(*q, a, labels_of(side.labels), side.open@, trail, u);
            }
            let tentative: u128 = g_u + step as u128;
            let known: Option<Label> = labels_get(&side.labels, v);
            let better = match known {
                Some(l) => tentative < l.g,
                None => true,
            };
            if better {
                let ghost f0 = labels_of(side.labels);
                let ghost o0 = side.open@;
                let pull: u64 = heuristic_m(
                    q.allowed_modes,
                    q.graph.node(v).payload.point,
                    a.goal,
                    a.cos,
                );
                let label = Label { g: tentative, origin: a.root, via: Some((u, e)) };
                let item = QueueItem {
                    cost: tentative + pull as u128,
                    g: tentative,
                    node: v,
                    origin: a.root,
                };
                labels_insert(&mut side.labels, v, label);
                side.open.push(item);
                proof {
                    let t3 = lemma_side_insert(*q, a, f0, o0, trail, u, e, v, label, item);
                    lemma_cover_insert(*q, a, f0, o0, best, u, v, label, item);
                    crate::search::lemma_potential_insert(f0, n, cap(*q), v, label);
                    trail = t3;
                }
                let ghost old_best = best;
                let met: Option<Label> = labels_get(other, v);
                if let Some(l) = met {
                    proof {
                        lemma_label_bound(*q, ab, labels_of(*other), open2, t2, v);
                        assert(label_ok(*q, ab, labels_of(*other), t2, v));
                        reveal(label_ok);
                    }
                    let dist: u128 = tentative + l.g;
                    let shorter = match best {
                        Some(m) => dist < m.cost,
                        None => true,
                    };
                    if shorter {
                        best = Some(
                            if a.fwd {
                                Meeting { cost: dist, u: u, v: v, edge: e }
                            } else {
                                Meeting { cost: dist, u: v, v: u, edge: e }
                            },
                        );
                        proof {
                            let w = trail.wit[v];
                            let w2 = t2.wit[v];
                            if a.fwd {
                                lemma_traces_meet(*q, a, ab, w, w2, v);
                                assert(q.open_walk(w + w2, a.root, ab.root));
                            } else {
                                lemma_traces_meet(*q, ab, a, w2, w, v);
                                assert(q.open_walk(w2 + w, ab.root, a.root));
                            }
                        }
                    }
                }
                proof {
                    let f1 = labels_of(side.labels);
                    lemma_cover_best(*q, a, f1, side.open@, old_best, best, Some(u));
                    lemma_cover_best(*q, ab, labels_of(*other), open2, old_best, best, None);
                    assert(meet_inv(*q, f1, labels_of(*other), best)) by {
                        assert forall|x: usize|
                            #![trigger f1.contains_key(x), labels_of(*other).contains_key(x)]
                            f1.contains_key(x) && labels_of(*other).contains_key(x) implies best is Some
                            && best->0.cost <= f1[x].g + labels_of(*other)[x].g by {
                            if x != v {
                                assert(f0.contains_key(x));
                            }
                        }
                    }
                }
            }
        }
        proof {
            let f1 = labels_of(side.labels);
            assert(front(*side, best) == looked_at(*q, a, labels_of(*other), u, g_u, e, so_far));
            assert forall|j: int, v2: usize|
                #![trigger q.arc(
                    a.fwd,
                    u,
                    list[j],
                    v2,
                )]
                0 <= j < k + 1 && q.arc(
                    a.fwd,
                    u,
                    list[j],
                    v2,
                ) implies crate::search::relaxed(
                *q,
                f1,
                u,
                list[j],
                v2,
            ) by {}
        }
        k = k + 1;
    }
    proof {
        let f1 = labels_of(side.labels);
        assert(crate::search::closed_node(*q, a.fwd, f1, u)) by {
            assert forall|e: usize, v: usize| #[trigger] q.arc(a.fwd, u, e, v) implies crate::search::relaxed(
            *q, f1, u, e, v) by {
                assert(q.graph.edges@[e as int] == q.edge_at(e));
                assert(list.contains(e));
                let j = choose|j: int| 0 <= j < list.len() && list[j] == e;
                assert(q.arc(
                    a.fwd,
                    u,
                    list[j],
                    v,
                ));
            }
        }
        assert(cover_inv(*q, a, f1, side.open@, best, None)) by {
            assert forall|x: usize| #[trigger] f1.contains_key(x) implies covered(
            *q, a, f1, side.open@, best, x) by {
                if x != u {
                    assert(Some(u) != Some(x));
                    assert(covered(*q, a, f1, side.open@, best, x));
                }
            }
        }
    }
    (best, Ghost(trail))
}

/// The edges by which a search reached `start`, the last one first.
fn trace_back(
    q: &Query,
    labels: &Labels,
    start: usize,
    Ghost(a): Ghost<Aim>,
    Ghost(open): Ghost<Multiset<QueueItem>>,
    Ghost(t): Ghost<Trail>,
) -> (path: Vec<usize>)
    requires
        side_inv(*q, a, labels_of(*labels), open, t),
        labels_of(*labels).contains_key(start),
    ensures
        trace_ok(
            *q,
            a,
            (if a.fwd {
                path@.reverse()
            } else {
                path@
            }),
            start,
        ),
        q.cost(path@) <= labels_of(*labels)[start].g,
        path@ == trace_of(labels_of(*labels), start),
{
    let mut path: Vec<usize> = Vec::new();
    let mut current: usize = start;
    let ghost f = labels_of(*labels);
    proof {
        assert(path@.reverse() =~= Seq::<usize>::empty());
        assert(is_part_trace(f, start, path@, start)) by {
            reveal(is_part_trace);
        }
    }
    loop
        invariant
            f == labels_of(*labels),
            side_inv(*q, a, f, open, t),
            f.contains_key(start),
            f.contains_key(current),
            segment_ok(*q, a, path@, current, start),
            q.cost(path@) + f[current].g <= f[start].g,
            is_part_trace(f, start, path@, current),
        ensures
            is_trace(f, start, path@),
            segment_ok(*q, a, path@, a.root, start),
            q.cost(path@) <= f[start].g,
        decreases f[current].g, t.ord[current],
    {
        proof {
            assert(label_ok(*q, a, f, t, current));
            reveal(label_ok);
        }
        let via = match labels_get(labels, current) {
            Some(l) => l.via,
            None => None,
        };
        match via {
            None => {
                proof {
                    assert(is_trace(f, start, path@)) by {
                        reveal(is_part_trace);
                    }
                }
                break ;
            },
            Some(step) => {
                let (parent, edge) = step;
                let ghost p0 = path@;
                proof {
                    assert(label_ok(*q, a, f, t, parent));
                }
                path.push(edge);
                proof {
                    crate::search::lemma_cost_push(*q, p0, edge);
                    lemma_segment_extend(*q, a, p0, parent, edge, current, start);
                    lemma_trace_longer(f, start, p0, current, parent, edge);
                }
                current = parent;
            },
        }
    }
    proof {
        lemma_segment_trace(*q, a, path@, start);
        lemma_trace_of(f, start, path@);
    }
    path
}

/// Whether the edges, last one first, lead from `from` to `to` in the direction of the search.
spec fn segment_ok(q: Query, a: Aim, path: Seq<usize>, from: usize, to: usize) -> bool {
    if a.fwd {
        &&& q.walk(path.reverse(), from, to)
        &&& forall|i: int|
            0 < i <= path.len() ==> q.admits(#[trigger] q.node_at(path.reverse(), from, i))
    } else {
        &&& q.walk(path, to, from)
        &&& forall|i: int| 0 <= i < path.len() ==> q.admits(#[trigger] q.node_at(path, to, i))
    }
}

#[verifier::rlimit(60)]
#[verifier::spinoff_prover]
proof fn lemma_segment_extend(
    q: Query,
    a: Aim,
    path: Seq<usize>,
    parent: usize,
    e: usize,
    from: usize,
    to: usize,
)
    requires
        segment_ok(q, a, path, from, to),
        q.arc(a.fwd, parent, e, from),
    ensures
        segment_ok(q, a, path.push(e), parent, to),
{
    let p2 = path.push(e);
    assert(seq![e].drop_last() =~= Seq::<usize>::empty());
    if a.fwd {
        assert(p2.reverse() =~= seq![e] + path.reverse());
        assert(q.walk(seq![e], parent, from)) by {
            reveal_with_fuel(Query::walk, 2);
        }
        crate::search::lemma_walk_join(q, seq![e], path.reverse(), parent, from, to);
        assert forall|i: int| 0 < i <= p2.len() implies q.admits(
            #[trigger] q.node_at(p2.reverse(), parent, i),
        ) by {
            lemma_node_at_join(q, seq![e], path.reverse(), parent, from, i);
            if i > 1 {
                assert(q.admits(q.node_at(path.reverse(), from, i - 1)));
            }
        }
    } else {
        crate::search::lemma_walk_push(q, path, to, e);
        crate::search::lemma_walk_nodes(q, path, to, from);
        assert forall|i: int| 0 <= i < p2.len() implies q.admits(#[trigger] q.node_at(p2, to, i)) by {
            if i > 0 {
                assert(p2[i - 1] == path[i - 1]);
            }
            assert(q.node_at(p2, to, i) == q.node_at(path, to, i));
            if i < path.len() {
                assert(q.admits(q.node_at(path, to, i)));
            }
        }
    }
}

proof fn lemma_segment_trace(q: Query, a: Aim, path: Seq<usize>, to: usize)
    requires
        segment_ok(q, a, path, a.root, to),
    ensures
        trace_ok(
            q,
            a,
            (if a.fwd {
                path.reverse()
            } else {
                path
            }),
            to,
        ),
{
    assert(path.reverse().len() == path.len());
}

/// Takes a cheapest node out of the queue and goes on from it, if that is worth it.
fn advance(
    q: &Query,
    a: Aim,
    side: &mut Side,
    other: &Labels,
    best: Option<Meeting>,
    Ghost(ab): Ghost<Aim>,
    Ghost(t): Ghost<Trail>,
    Ghost(t2): Ghost<Trail>,
    Ghost(open2): Ghost<Multiset<QueueItem>>,
) -> (r: (Option<Meeting>, Ghost<Trail>))
    requires
        q.graph.wf(),
        a.cos <= 1_000_000_000,
        ab.fwd == !a.fwd,
        old(side).open.wf(),
        old(side).open@.len() > 0,
        side_inv(*q, a, labels_of(old(side).labels), old(side).open@, t),
        cover_inv(*q, a, labels_of(old(side).labels), old(side).open@, best, None),
        side_inv(*q, ab, labels_of(*other), open2, t2),
        cover_inv(*q, ab, labels_of(*other), open2, best, None),
        meet_inv(*q, labels_of(old(side).labels), labels_of(*other), best),
        a.fwd ==> best_ok(*q, a.root, ab.root, labels_of(old(side).labels), labels_of(*other), best),
        !a.fwd ==> best_ok(*q, ab.root, a.root, labels_of(*other), labels_of(old(side).labels), best),
    ensures
        final(side).open.wf(),
        side_inv(*q, a, labels_of(final(side).labels), final(side).open@, r.1@),
        cover_inv(*q, a, labels_of(final(side).labels), final(side).open@, r.0, None),
        cover_inv(*q, ab, labels_of(*other), open2, r.0, None),
        meet_inv(*q, labels_of(final(side).labels), labels_of(*other), r.0),
        a.fwd ==> best_ok(*q, a.root, ab.root, labels_of(final(side).labels), labels_of(*other), r.0),
        !a.fwd ==> best_ok(*q, ab.root, a.root, labels_of(*other), labels_of(final(side).labels), r.0),
        ({
            let n = q.graph.nodes@.len();
            let before = crate::search::potential(labels_of(old(side).labels), n, cap(*q));
            let after = crate::search::potential(labels_of(final(side).labels), n, cap(*q));
            after < before || after == before && final(side).open@.len() + 1 == old(
                side,
            ).open@.len()
        }),
        front(*final(side), r.0) == advanced(*q, a, labels_of(*other), front(*old(side), best)),
{
    let ghost open0 = side.open@;
    let ghost f = labels_of(side.labels);
    let popped = side.open.pop();
    let item = match popped {
        Some(x) => x,
        None => {
            return (best, Ghost(t));
        },
    };
    let u: usize = item.node;
    let current: u128 = match labels_get(&side.labels, u) {
        Some(l) => l.g,
        None => 0,
    };
    proof {
        assert(open0.contains(item));
        assert(f.contains_key(u));
        assert(label_ok(*q, a, f, t, u));
        assert(u < q.graph.nodes@.len()) by {
            reveal(label_ok);
        }
        assert(q.graph.nodes.len() == q.graph.nodes@.len());
        lemma_label_bound(*q, a, f, open0, t, u);
        assert forall|x: QueueItem| #[trigger] side.open@.contains(x) implies open0.contains(x) by {}
        assert(side_inv(*q, a, f, side.open@, t));
        assert forall|x: usize| #[trigger] f.contains_key(x) && Some(u) != Some(x) implies covered(
            *q,
            a,
            f,
            side.open@,
            best,
            x,
        ) by {
            assert(covered(*q, a, f, open0, best, x));
            assert(entry(*q, a, f, x) != item);
        }
    }
    if item.g > current {
        proof {
            assert(covered(*q, a, f, open0, best, u));
            assert(entry(*q, a, f, u) != item);
            assert(cover_inv(*q, a, f, side.open@, best, None)) by {
                assert forall|x: usize| #[trigger] f.contains_key(x) implies covered(
                *q, a, f, side.open@, best, x) by {
                    if x != u {
                        assert(Some(u) != Some(x));
                    }
                }
            }
        }
        return (best, Ghost(t));
    }
    let pull: u64 = heuristic_m(q.allowed_modes, q.graph.node(u).payload.point, a.goal, a.cos);
    if let Some(m) = best {
        if current + pull as u128 >= m.cost {
            proof {
                assert(cover_inv(*q, a, f, side.open@, best, None)) by {
                    assert forall|x: usize| #[trigger] f.contains_key(x) implies covered(
                    *q, a, f, side.open@, best, x) by {
                        if x != u {
                            assert(Some(u) != Some(x));
                        }
                    }
                }
            }
            return (best, Ghost(t));
        }
    }
    expand(q, a, side, other, best, u, Ghost(ab), Ghost(t), Ghost(t2), Ghost(open2))
}

/// The query that the parameters of a search describe.
pub open spec fn query<'a>(
    graph: &'a Graph<NodePL, EdgePL>,
    allowed_modes: u8,
    fallback_modes: u8,
    allowed_edges: Option<&'a IndexSet>,
    preferred_match: Option<&'a TransitMatch>,
    bounding_box: Option<BBox>,
) -> Query<'a> {
    Query {
        graph,
        allowed_modes,
        fallback_modes,
        allowed_edges,
        preferred_match,
        bounding_box,
    }
}

/// Whether no node of a walk is drawn to the goal by more than `h`.
pub open spec fn pulls_within(
    q: Query,
    es: Seq<usize>,
    start: NodeIndex,
    goal: NodeIndex,
    cos: u32,
    h: nat,
) -> bool {
    forall|i: int|
        0 <= i <= es.len() ==> crate::search::pull(
            q.allowed_modes,
            q.graph.nodes@[#[trigger] q.node_at(es, start, i) as int].payload.point,
            q.graph.nodes@[goal as int].payload.point,
            cos,
        ) <= h
}

/// Whether `cost` is the cost of an open walk from `start` to `end` that no other undercuts by
/// more than the pulls of the two searches at its own nodes.
pub open spec fn near_best(
    q: Query,
    start: NodeIndex,
    end: NodeIndex,
    cos_start: u32,
    cos_end: u32,
    cost: u128,
) -> bool {
    &&& exists|es: Seq<usize>| #[trigger] q.open_walk(es, start, end) && q.cost(es) == cost
    &&& q.admits(start) && q.admits(end) ==> forall|es: Seq<usize>, hf: nat, hb: nat|
        #![trigger pulls_within(q, es, start, end, cos_end, hf), pulls_within(q, es, start, start, cos_start, hb)]
        q.open_walk(es, start, end) && pulls_within(q, es, start, end, cos_end, hf) && pulls_within(
            q,
            es,
            start,
            start,
            cos_start,
            hb,
        ) ==> cost <= q.cost(es) + hf + hb
}

/// Whether no open walk leads from `start` to `end`.
pub open spec fn unreachable(q: Query, start: NodeIndex, end: NodeIndex) -> bool {
    forall|es: Seq<usize>| !#[trigger] q.open_walk(es, start, end)
}

/// What the proof keeps of a search in both directions.
struct Outcome {
    af: Aim,
    ab: Aim,
    tf: Trail,
    tb: Trail,
}

spec fn progress(ctx: PathfinderContext, best: Option<Meeting>) -> Progress {
    Progress {
        f: labels_of(ctx.fwd.labels),
        open_f: ctx.fwd.open@,
        b: labels_of(ctx.bwd.labels),
        open_b: ctx.bwd.open@,
        best,
    }
}

/// Searches from both ends until the searches have met and going on cannot pay.
fn search_both_ways(
    ctx: &mut PathfinderContext,
    q: &Query,
    start: NodeIndex,
    end: NodeIndex,
    cos_start: u32,
    cos_end: u32,
) -> (r: (Option<Meeting>, Ghost<Outcome>))
    requires
        q.graph.wf(),
        start < q.graph.nodes@.len(),
        end < q.graph.nodes@.len(),
        start != end,
        cos_start <= 1_000_000_000,
        cos_end <= 1_000_000_000,
    ensures
        r.1@.af.fwd,
        !r.1@.ab.fwd,
        r.1@.af.root == start,
        r.1@.ab.root == end,
        side_inv(*q, r.1@.af, labels_of(final(ctx).fwd.labels), final(ctx).fwd.open@, r.1@.tf),
        side_inv(*q, r.1@.ab, labels_of(final(ctx).bwd.labels), final(ctx).bwd.open@, r.1@.tb),
        best_ok(
            *q,
            start,
            end,
            labels_of(final(ctx).fwd.labels),
            labels_of(final(ctx).bwd.labels),
            r.0,
        ),
        match r.0 {
            Some(m) => near_best(*q, start, end, cos_start, cos_end, m.cost),
            None => q.admits(start) && q.admits(end) ==> unreachable(*q, start, end),
        },
        progress(*final(ctx), r.0) == last_progress(
            *q,
            ahead(*q, start, end, cos_end),
            behind(*q, start, end, cos_start),
        ),
{
    ctx.reset();
    let a = Aim { fwd: true, root: start, goal: q.graph.node(end).payload.point, cos: cos_end };
    let b = Aim { fwd: false, root: end, goal: q.graph.node(start).payload.point, cos: cos_start };
    let pull_f: u64 = heuristic_m(
        q.allowed_modes,
        q.graph.node(start).payload.point,
        a.goal,
        cos_end,
    );
    let pull_b: u64 = heuristic_m(
        q.allowed_modes,
        q.graph.node(end).payload.point,
        b.goal,
        cos_start,
    );
    labels_insert(&mut ctx.fwd.labels, start, Label { g: 0, origin: start, via: None });
    labels_insert(&mut ctx.bwd.labels, end, Label { g: 0, origin: end, via: None });
    let first_f = QueueItem { cost: pull_f as u128, g: 0, node: start, origin: start };
    let first_b = QueueItem { cost: pull_b as u128, g: 0, node: end, origin: end };
    ctx.fwd.open.push(first_f);
    ctx.bwd.open.push(first_b);
    let mut best: Option<Meeting> = None;
    let ghost none = Seq::<usize>::empty();
    let ghost mut tf = Trail {
        ord: Map::<usize, nat>::empty().insert(start, 0),
        wit: Map::<usize, Seq<usize>>::empty().insert(start, none),
        clock: 1,
    };
    let ghost mut tb = Trail {
        ord: Map::<usize, nat>::empty().insert(end, 0),
        wit: Map::<usize, Seq<usize>>::empty().insert(end, none),
        clock: 1,
    };
    proof {
        lemma_first_side(*q, a, labels_of(ctx.fwd.labels), ctx.fwd.open@, tf, first_f);
        lemma_first_side(*q, b, labels_of(ctx.bwd.labels), ctx.bwd.open@, tb, first_b);
        assert(q.graph.nodes.len() == q.graph.nodes@.len());
    }
    let ghost mut min_f: nat = 0;
    let ghost mut min_b: nat = 0;
    let ghost mut steps: nat = 0;
    let ghost begun = progress(*ctx, best);
    proof {
        assert(a == ahead(*q, start, end, cos_end));
        assert(b == behind(*q, start, end, cos_start));
        assert(begun == first_progress(*q, a, b));
    }
    loop
        invariant_except_break
            min_f == 0,
            min_b == 0,
        invariant
            q.graph.wf(),
            q.graph.nodes@.len() <= usize::MAX,
            start != end,
            start < q.graph.nodes@.len(),
            end < q.graph.nodes@.len(),
            cos_start <= 1_000_000_000,
            cos_end <= 1_000_000_000,
            a.fwd,
            !b.fwd,
            a.root == start,
            b.root == end,
            a.cos == cos_end,
            b.cos == cos_start,
            a.goal == q.graph.nodes@[end as int].payload.point,
            b.goal == q.graph.nodes@[start as int].payload.point,
            ctx.fwd.open.wf(),
            ctx.bwd.open.wf(),
            side_inv(*q, a, labels_of(ctx.fwd.labels), ctx.fwd.open@, tf),
            side_inv(*q, b, labels_of(ctx.bwd.labels), ctx.bwd.open@, tb),
            cover_inv(*q, a, labels_of(ctx.fwd.labels), ctx.fwd.open@, best, None),
            cover_inv(*q, b, labels_of(ctx.bwd.labels), ctx.bwd.open@, best, None),
            meet_inv(*q, labels_of(ctx.fwd.labels), labels_of(ctx.bwd.labels), best),
            best_ok(
                *q,
                start,
                end,
                labels_of(ctx.fwd.labels),
                labels_of(ctx.bwd.labels),
                best,
            ),
            forall|n: nat| #[trigger]
                run(*q, a, b, progress(*ctx, best), n) == run(*q, a, b, begun, steps + n),
        ensures
            stopped(progress(*ctx, best)),
            ({
                ||| ctx.fwd.open@.len() == 0
                ||| ctx.bwd.open@.len() == 0
                ||| best is Some && min_f + min_b >= best->0.cost
            }),
            forall|x: QueueItem| #[trigger] ctx.fwd.open@.contains(x) ==> min_f <= x.cost,
            forall|x: QueueItem| #[trigger] ctx.bwd.open@.contains(x) ==> min_b <= x.cost,
        decreases
                crate::search::potential(labels_of(ctx.fwd.labels), q.graph.nodes@.len(), cap(*q)) + crate::search::potential(
                    labels_of(ctx.bwd.labels),
                    q.graph.nodes@.len(),
                    cap(*q),
                ),
                ctx.fwd.open@.len() + ctx.bwd.open@.len(),
    {
        let top_f = match ctx.fwd.open.peek() {
            Some(x) => x,
            None => {
                break ;
            },
        };
        let top_b = match ctx.bwd.open.peek() {
            Some(x) => x,
            None => {
                break ;
            },
        };
        if let Some(m) = best {
            // No entry of the first queue reaches `m.cost` together with one of the second.
            let enough = top_f.cost >= m.cost || top_b.cost >= m.cost - top_f.cost;
            if enough {
                proof {
                    min_f = top_f.cost as nat;
                    min_b = top_b.cost as nat;
                }
                break ;
            }
        }
        let ghost now = progress(*ctx, best);
        proof {
            assert(ctx.fwd.open@.contains(top_f));
            assert(ctx.bwd.open@.contains(top_b));
            assert(!stopped(now));
        }
        if ctx.fwd.open.len() <= ctx.bwd.open.len() {
            let (found, trail) = advance(
                q,
                a,
                &mut ctx.fwd,
                &ctx.bwd.labels,
                best,
                Ghost(b),
                Ghost(tf),
                Ghost(tb),
                Ghost(ctx.bwd.open@),
            );
            best = found;
            proof {
                tf = trail@;
            }
        } else {
            proof {
                assert(meet_inv(
                    *q,
                    labels_of(ctx.bwd.labels),
                    labels_of(ctx.fwd.labels),
                    best,
                ));
            }
            let (found, trail) = advance(
                q,
                b,
                &mut ctx.bwd,
                &ctx.fwd.labels,
                best,
                Ghost(a),
                Ghost(tb),
                Ghost(tf),
                Ghost(ctx.fwd.open@),
            );
            best = found;
            proof {
                tb = trail@;
            }
        }
        proof {
            let then = progress(*ctx, best);
            assert(then == next(*q, a, b, now));
            assert forall|n: nat| #[trigger] run(*q, a, b, then, n) == run(
                *q,
                a,
                b,
                begun,
                (steps + 1) + n,
            ) by {
                assert(run(*q, a, b, now, n + 1) == run(*q, a, b, begun, steps + (n + 1)));
            }
            steps = steps + 1;
        }
    }
    proof {
        let last = progress(*ctx, best);
        assert(run(*q, a, b, last, 0) == Some(last));
        assert(run(*q, a, b, begun, steps + 0) == Some(last));
        let n = choose|n: nat| run(*q, a, b, begun, n) is Some;
        lemma_run_unique(*q, a, b, begun, n, steps);
    }
    proof {
        assert forall|es: Seq<usize>, hf: nat, hb: nat|
            #![trigger pulls_within(*q, es, start, end, cos_end, hf), pulls_within(*q, es, start, start, cos_start, hb)]
            q.admits(start) && q.admits(end) && q.open_walk(es, start, end) && pulls_within(
                *q,
                es,
                start,
                end,
                cos_end,
                hf,
            ) && pulls_within(*q, es, start, start, cos_start, hb) implies best is Some
            && best->0.cost <= q.cost(es) + hf + hb by {
            lemma_done_with_pulls(
                *q, a, b, labels_of(ctx.fwd.labels), labels_of(ctx.bwd.labels),
                ctx.fwd.open@, ctx.bwd.open@, tf, tb, best, min_f, min_b, es, end, start, hf, hb,
            );
        }
        if best is None && q.admits(start) && q.admits(end) {
            assert forall|es: Seq<usize>| !#[trigger] q.open_walk(es, start, end) by {
                if q.open_walk(es, start, end) {
                    lemma_pulls_bounded(*q, es, start, end, cos_end);
                    lemma_pulls_bounded(*q, es, start, start, cos_start);
                    assert(pulls_within(*q, es, start, end, cos_end, MAX_PULL as nat));
                    assert(pulls_within(*q, es, start, start, cos_start, MAX_PULL as nat));
                }
            }
        }
    }
    (best, Ghost(Outcome { af: a, ab: b, tf, tb }))
}

/// The state in which a search begins.
proof fn lemma_first_side(
    q: Query,
    a: Aim,
    f: Map<usize, Label>,
    open: Multiset<QueueItem>,
    t: Trail,
    first: QueueItem,
)
    requires
        a.root < q.graph.nodes@.len(),
        f == Map::<usize, Label>::empty().insert(
            a.root,
            Label { g: 0, origin: a.root, via: None },
        ),
        open.len() == 1,
        open.contains(first),
        first.g == 0,
        first.node == a.root,
        first.origin == a.root,
        first.cost == lure(q, a, a.root),
        t.ord == Map::<usize, nat>::empty().insert(a.root, 0nat),
        t.wit == Map::<usize, Seq<usize>>::empty().insert(a.root, Seq::<usize>::empty()),
        t.clock == 1,
    ensures
        side_inv(q, a, f, open, t),
        cover_inv(q, a, f, open, None, None),
{
    reveal(label_ok);
    assert(f.dom() =~= Set::<usize>::empty().insert(a.root));
    assert forall|x: QueueItem| #[trigger] open.contains(x) implies x == first by {
        if x != first {
            let rest = open.remove(first);
            assert(rest.contains(x));
            assert(rest.len() == 0);
            assert(rest.count(x) <= rest.len()) by {
                lemma_count_le_len(rest, x);
            }
        }
    }
    assert(entry(q, a, f, a.root) == first);
}

proof fn lemma_count_le_len(m: Multiset<QueueItem>, x: QueueItem)
    ensures
        m.count(x) <= m.len(),
{
    broadcast use vstd::multiset::group_multiset_properties;

    if m.count(x) > 0 {
        let only = Multiset::<QueueItem>::from_map(
            Map::<QueueItem, nat>::empty().insert(x, m.count(x)),
        );
        assert(m.len() >= m.count(x)) by {
            lemma_count_le_len_rec(m, x, m.count(x));
        }
    }
}

proof fn lemma_count_le_len_rec(m: Multiset<QueueItem>, x: QueueItem, k: nat)
    requires
        m.count(x) >= k,
    ensures
        m.len() >= k,
    decreases k,
{
    if k > 0 {
        lemma_count_le_len_rec(m.remove(x), x, (k - 1) as nat);
    }
}

proof fn lemma_done_with_pulls(
    q: Query,
    af: Aim,
    ab: Aim,
    f: Map<usize, Label>,
    b: Map<usize, Label>,
    open_f: Multiset<QueueItem>,
    open_b: Multiset<QueueItem>,
    tf: Trail,
    tb: Trail,
    best: Option<Meeting>,
    min_f: nat,
    min_b: nat,
    es: Seq<usize>,
    end: usize,
    start: usize,
    hf: nat,
    hb: nat,
)
    requires
        af.fwd,
        !ab.fwd,
        af.root == start,
        ab.root == end,
        start < q.graph.nodes@.len(),
        end < q.graph.nodes@.len(),
        af.cos <= 1_000_000_000,
        ab.cos <= 1_000_000_000,
        af.goal == q.graph.nodes@[end as int].payload.point,
        ab.goal == q.graph.nodes@[start as int].payload.point,
        q.graph.nodes@.len() <= usize::MAX,
        side_inv(q, af, f, open_f, tf),
        side_inv(q, ab, b, open_b, tb),
        cover_inv(q, af, f, open_f, best, None),
        cover_inv(q, ab, b, open_b, best, None),
        meet_inv(q, f, b, best),
        ({
            ||| open_f.len() == 0
            ||| open_b.len() == 0
            ||| best is Some && min_f + min_b >= best->0.cost
        }),
        forall|x: QueueItem| #[trigger] open_f.contains(x) ==> min_f <= x.cost,
        forall|x: QueueItem| #[trigger] open_b.contains(x) ==> min_b <= x.cost,
        q.open_walk(es, start, end),
        q.admits(start),
        q.admits(end),
        pulls_within(q, es, start, end, af.cos, hf),
        pulls_within(q, es, start, start, ab.cos, hb),
    ensures
        best is Some,
        best->0.cost <= q.cost(es) + hf + hb,
{
    lemma_pulls_bounded(q, es, start, end, af.cos);
    lemma_pulls_bounded(q, es, start, start, ab.cos);
    let m = MAX_PULL as nat;
    let cf = if hf <= m {
        hf
    } else {
        m
    };
    let cb = if hb <= m {
        hb
    } else {
        m
    };
    lemma_search_done(
        q, af, ab, f, b, open_f, open_b, tf, tb, best, min_f, min_b, es, cf, cb,
    );
}

/// No pull exceeds `MAX_PULL`.
proof fn lemma_pulls_bounded(q: Query, es: Seq<usize>, start: usize, goal: usize, cos: u32)
    requires
        cos <= 1_000_000_000,
    ensures
        pulls_within(q, es, start, goal, cos, MAX_PULL as nat),
{
    assert forall|i: int| 0 <= i <= es.len() implies crate::search::pull(
        q.allowed_modes,
        q.graph.nodes@[#[trigger] q.node_at(es, start, i) as int].payload.point,
        q.graph.nodes@[goal as int].payload.point,
        cos,
    ) <= MAX_PULL as nat by {
        crate::search::lemma_pull_bounded(
            q.allowed_modes,
            q.graph.nodes@[q.node_at(es, start, i) as int].payload.point,
            q.graph.nodes@[goal as int].payload.point,
            cos,
        );
    }
}

/// A cheap way from `start` to `end` and its cost, in fifths of a cost unit.
///
/// The two cosines are those of the latitudes of the two nodes, in billionths.
pub fn pathfind(
    graph: &Graph<NodePL, EdgePL>,
    start: NodeIndex,
    end: NodeIndex,
    allowed_modes: u8,
    fallback_modes: u8,
    allowed_edges: Option<&IndexSet>,
    preferred_match: Option<&TransitMatch>,
    cos_start: u32,
    cos_end: u32,
) -> (r: Option<(u128, Vec<usize>)>)
    requires
        graph.wf(),
        start < graph.nodes@.len(),
        end < graph.nodes@.len(),
        cos_start <= 1_000_000_000,
        cos_end <= 1_000_000_000,
    ensures
        ({
            let q = query(
                graph,
                allowed_modes,
                fallback_modes,
                allowed_edges,
                preferred_match,
                None,
            );
            match r {
                Some((cost, path)) => {
                    &&& near_best(q, start, end, cos_start, cos_end, cost)
                    &&& q.open_walk(path@, start, end)
                    &&& q.cost(path@) <= cost
                },
                None => unreachable(q, start, end),
            }
        }),
        start == end ==> (r matches Some((cost, path)) && cost == 0 && path@.len() == 0),
        is_found(
            query(graph, allowed_modes, fallback_modes, allowed_edges, preferred_match, None),
            start,
            end,
            cos_start,
            cos_end,
            r,
        ),
{
    let mut ctx = PathfinderContext::new();
    pathfind_with_context(
        &mut ctx,
        graph,
        start,
        end,
        allowed_modes,
        fallback_modes,
        allowed_edges,
        preferred_match,
        None,
        cos_start,
        cos_end,
    )
}

/// As `pathfind`, in a context that can be used again. The box plays no part.
pub fn pathfind_with_context(
    ctx: &mut PathfinderContext,
    graph: &Graph<NodePL, EdgePL>,
    start: NodeIndex,
    end: NodeIndex,
    allowed_modes: u8,
    fallback_modes: u8,
    allowed_edges: Option<&IndexSet>,
    preferred_match: Option<&TransitMatch>,
    bounding_box: Option<BBox>,
    cos_start: u32,
    cos_end: u32,
) -> (r: Option<(u128, Vec<usize>)>)
    requires
        graph.wf(),
        start < graph.nodes@.len(),
        end < graph.nodes@.len(),
        cos_start <= 1_000_000_000,
        cos_end <= 1_000_000_000,
    ensures
        ({
            let q = query(
                graph,
                allowed_modes,
                fallback_modes,
                allowed_edges,
                preferred_match,
                None,
            );
            match r {
                Some((cost, path)) => {
                    &&& near_best(q, start, end, cos_start, cos_end, cost)
                    &&& q.open_walk(path@, start, end)
                    &&& q.cost(path@) <= cost
                },
                None => unreachable(q, start, end),
            }
        }),
        start == end ==> (r matches Some((cost, path)) && cost == 0 && path@.len() == 0),
        is_found(
            query(graph, allowed_modes, fallback_modes, allowed_edges, preferred_match, None),
            start,
            end,
            cos_start,
            cos_end,
            r,
        ),
{
    let q = Query {
        graph,
        allowed_modes,
        fallback_modes,
        allowed_edges,
        preferred_match,
        bounding_box: None,
    };
    if start == end {
        ctx.reset();
        let path: Vec<usize> = Vec::new();
        assert(q.open_walk(path@, start, end));
        return Some((0, path));
    }
    let (found, outcome) = search_both_ways(ctx, &q, start, end, cos_start, cos_end);
    match found {
        None => None,
        Some(m) => {
            let ghost o = outcome@;
            let mut path: Vec<usize> = trace_back(
                &q,
                &ctx.fwd.labels,
                m.u,
                Ghost(o.af),
                Ghost(ctx.fwd.open@),
                Ghost(o.tf),
            );
            let ghost first = path@;
            reverse_in_place(&mut path);
            path.push(m.edge);
            let mut rest: Vec<usize> = trace_back(
                &q,
                &ctx.bwd.labels,
                m.v,
                Ghost(o.ab),
                Ghost(ctx.bwd.open@),
                Ghost(o.tb),
            );
            let ghost last = rest@;
            path.append(&mut rest);
            proof {
                let x = first.reverse();
                assert(path@ =~= x.push(m.edge) + last);
                crate::search::lemma_cost_reverse(q, first);
                crate::search::lemma_cost_push(q, x, m.edge);
                crate::search::lemma_cost_join(q, x.push(m.edge), last);
                crate::search::lemma_walk_push(q, x, start, m.edge);
                crate::search::lemma_walk_join(q, x.push(m.edge), last, start, m.v, end);
            }
            Some((m.cost, path))
        },
    }
}

fn reverse_in_place(v: &mut Vec<usize>)
    ensures
        final(v)@ == old(v)@.reverse(),
{
    let n: usize = v.len();
    let mut i: usize = 0;
    while i < n / 2
        invariant
            n == v@.len(),
            n == old(v)@.len(),
            i <= n / 2,
            forall|j: int| 0 <= j < i ==> v@[j] == old(v)@[n - 1 - j],
            forall|j: int| n - i <= j < n ==> v@[j] == old(v)@[n - 1 - j],
            forall|j: int| i <= j < n - i ==> v@[j] == old(v)@[j],
        decreases n / 2 - i,
    {
        let a: usize = v[i];
        let b: usize = v[n - 1 - i];
        v[i] = b;
        v[n - 1 - i] = a;
        i = i + 1;
    }
    assert(v@ =~= old(v)@.reverse());
}

/// The cost of a cheap way from `start` to `end` that stays in the box, in fifths of a cost unit.
pub fn pathfind_cost_with_context(
    ctx: &mut PathfinderContext,
    graph: &Graph<NodePL, EdgePL>,
    start: NodeIndex,
    end: NodeIndex,
    allowed_modes: u8,
    fallback_modes: u8,
    allowed_edges: Option<&IndexSet>,
    preferred_match: Option<&TransitMatch>,
    bounding_box: Option<BBox>,
    cos_start: u32,
    cos_end: u32,
) -> (r: Option<u128>)
    requires
        graph.wf(),
        start < graph.nodes@.len(),
        end < graph.nodes@.len(),
        cos_start <= 1_000_000_000,
        cos_end <= 1_000_000_000,
    ensures
        ({
            let q = query(
                graph,
                allowed_modes,
                fallback_modes,
                allowed_edges,
                preferred_match,
                bounding_box,
            );
            match r {
                Some(cost) => near_best(q, start, end, cos_start, cos_end, cost),
                None => start != end && (q.admits(start) && q.admits(end) ==> unreachable(
                    q,
                    start,
                    end,
                )),
            }
        }),
        start == end ==> r == Some(0u128),
        is_found_cost(
            query(
                graph,
                allowed_modes,
                fallback_modes,
                allowed_edges,
                preferred_match,
                bounding_box,
            ),
            start,
            end,
            cos_start,
            cos_end,
            r,
        ),
{
    let q = Query {
        graph,
        allowed_modes,
        fallback_modes,
        allowed_edges,
        preferred_match,
        bounding_box,
    };
    if start == end {
        ctx.reset();
        assert(q.open_walk(Seq::<usize>::empty(), start, end));
        return Some(0);
    }
    let (found, _outcome) = search_both_ways(ctx, &q, start, end, cos_start, cos_end);
    match found {
        None => None,
        Some(m) => Some(m.cost),
    }
}

} // verus!
