//! Cheapest ways from edge to edge.
//!
//! A way begins on an edge and goes on, at the end of each edge, with an edge that departs there.
//! It costs what its edges cost, the first one aside.

use crate::graph::{EdgeIndex, EdgePL, Graph, NodePL};
use crate::hashed::{labels_get, labels_insert, labels_new, labels_of, Label, Labels};
use crate::heap::{MinHeap, QueueItem};
use vstd::multiset::Multiset;
use vstd::prelude::*;

verus! {

/// Costs from here on count as unreachable.
pub const ROUTE_INF: u32 = 2_000_000_000;

pub type Net = Graph<NodePL, EdgePL>;

/// Whether edge `v` departs where edge `u` arrives.
pub open spec fn follows(g: &Net, u: usize, v: usize) -> bool {
    &&& u < g.edges@.len()
    &&& v < g.edges@.len()
    &&& g.edges@[u as int].to == g.edges@[v as int].from
}

/// The cost of an edge.
pub open spec fn edge_cost(g: &Net, e: usize) -> nat {
    g.edges@[e as int].payload.cost as nat
}

/// The edge on which a way is after `i` more edges.
pub open spec fn edge_after(es: Seq<usize>, s: usize, i: int) -> usize {
    if i <= 0 {
        s
    } else {
        es[i - 1]
    }
}

pub open spec fn follows_at(g: &Net, es: Seq<usize>, s: usize, i: int) -> bool {
    follows(g, edge_after(es, s, i), es[i])
}

/// Whether a way that begins on `s` and goes on with the edges `es` arrives on `t`.
pub open spec fn chain(g: &Net, es: Seq<usize>, s: usize, t: usize) -> bool {
    &&& t == edge_after(es, s, es.len() as int)
    &&& forall|i: int| 0 <= i < es.len() ==> #[trigger] follows_at(g, es, s, i)
}

/// The total cost of the edges.
pub open spec fn chain_cost(g: &Net, es: Seq<usize>) -> nat
    decreases es.len(),
{
    if es.len() == 0 {
        0
    } else {
        chain_cost(g, es.drop_last()) + edge_cost(g, es.last())
    }
}

/// Whether a way costs at most `limit` up to its last edge but one.
pub open spec fn within(g: &Net, init: nat, es: Seq<usize>, limit: u32) -> bool {
    forall|i: int| 0 <= i < es.len() ==> init + chain_cost(g, #[trigger] es.take(i)) <= limit
}

/// Whether `t` is reached from start number `k` by the edges at this total cost, in a way that
/// stays within the limit up to its last edge but one.
pub open spec fn bid(
    g: &Net,
    starts: Seq<(usize, u32)>,
    limit: u32,
    k: int,
    es: Seq<usize>,
    t: usize,
    cost: nat,
) -> bool {
    &&& 0 <= k < starts.len()
    &&& chain(g, es, starts[k].0, t)
    &&& cost == starts[k].1 + chain_cost(g, es)
    &&& within(g, starts[k].1 as nat, es, limit)
}

/// Whether the labels are right: each is the cost of a way from its origin, and none that was
/// asked for can be undercut.
pub open spec fn best_bids(
    g: &Net,
    starts: Seq<(usize, u32)>,
    limit: u32,
    stop: Option<usize>,
    f: Map<usize, Label>,
) -> bool {
    &&& forall|v: usize| #[trigger]
        f.contains_key(v) ==> f[v].g < ROUTE_INF && exists|k: int, es: Seq<usize>| #[trigger]
            bid(g, starts, limit, k, es, v, f[v].g as nat) && starts[k].0 == f[v].origin
    &&& forall|v: usize, k: int, es: Seq<usize>, cost: nat| #[trigger]
        bid(g, starts, limit, k, es, v, cost) && cost < ROUTE_INF && (stop is None || stop == Some(
            v,
        )) ==> f.contains_key(v) && f[v].g <= cost
}

/// Two searches from the same starts reach the same edges at the same costs. Only of starts from which
/// an edge is equally cheap may they name different ones.
pub proof fn lemma_searches_agree(
    g: &Net,
    starts: Seq<(usize, u32)>,
    limit: u32,
    a: Map<usize, Label>,
    b: Map<usize, Label>,
    v: usize,
)
    requires
        best_bids(g, starts, limit, None, a),
        best_bids(g, starts, limit, None, b),
    ensures
        a.contains_key(v) <==> b.contains_key(v),
        a.contains_key(v) ==> a[v].g == b[v].g,
{
    if a.contains_key(v) {
        let (k, es) = choose|k: int, es: Seq<usize>| #[trigger]
            bid(g, starts, limit, k, es, v, a[v].g as nat) && starts[k].0 == a[v].origin;
        assert(bid(g, starts, limit, k, es, v, a[v].g as nat));
    }
    if b.contains_key(v) {
        let (k, es) = choose|k: int, es: Seq<usize>| #[trigger]
            bid(g, starts, limit, k, es, v, b[v].g as nat) && starts[k].0 == b[v].origin;
        assert(bid(g, starts, limit, k, es, v, b[v].g as nat));
    }
}

// Ways.

proof fn lemma_chain_push(g: &Net, es: Seq<usize>, s: usize, u: usize, v: usize)
    requires
        chain(g, es, s, u),
        follows(g, u, v),
    ensures
        chain(g, es.push(v), s, v),
        chain_cost(g, es.push(v)) == chain_cost(g, es) + edge_cost(g, v),
{
    let x = es.push(v);
    assert(x.drop_last() =~= es);
    assert forall|i: int| 0 <= i < x.len() implies #[trigger] follows_at(g, x, s, i) by {
        if i < es.len() {
            assert(follows_at(g, es, s, i));
            assert(x[i] == es[i]);
            assert(edge_after(x, s, i) == edge_after(es, s, i));
        } else {
            assert(edge_after(x, s, i) == u);
        }
    }
}

proof fn lemma_within_push(g: &Net, init: nat, es: Seq<usize>, v: usize, limit: u32)
    requires
        within(g, init, es, limit),
        init + chain_cost(g, es) <= limit,
    ensures
        within(g, init, es.push(v), limit),
{
    let x = es.push(v);
    assert forall|i: int| 0 <= i < x.len() implies init + chain_cost(g, #[trigger] x.take(i))
        <= limit by {
        if i < es.len() {
            assert(x.take(i) =~= es.take(i));
        } else {
            assert(x.take(i) =~= es);
        }
    }
}

proof fn lemma_cost_take_next(g: &Net, es: Seq<usize>, i: int)
    requires
        0 <= i < es.len(),
    ensures
        chain_cost(g, es.take(i + 1)) == chain_cost(g, es.take(i)) + edge_cost(g, es[i]),
{
    assert(es.take(i + 1).drop_last() =~= es.take(i));
}

proof fn lemma_cost_take_le(g: &Net, es: Seq<usize>, i: int)
    requires
        0 <= i <= es.len(),
    ensures
        chain_cost(g, es.take(i)) <= chain_cost(g, es),
    decreases es.len() - i,
{
    if i < es.len() {
        lemma_cost_take_next(g, es, i);
        lemma_cost_take_le(g, es, i + 1);
    } else {
        assert(es.take(i) =~= es);
    }
}

// Labels.

struct EdgeTrail {
    ord: Map<usize, nat>,
    way: Map<usize, (int, Seq<usize>)>,
    clock: nat,
}

#[verifier::opaque]
spec fn label_ok(
    g: &Net,
    starts: Seq<(usize, u32)>,
    limit: u32,
    f: Map<usize, Label>,
    t: EdgeTrail,
    v: usize,
) -> bool {
    &&& v < g.edges@.len()
    &&& f[v].g < ROUTE_INF
    &&& t.ord.contains_key(v)
    &&& t.ord[v] < t.clock
    &&& t.way.contains_key(v)
    &&& bid(g, starts, limit, t.way[v].0, t.way[v].1, v, f[v].g as nat)
    &&& starts[t.way[v].0].0 == f[v].origin
    &&& f[v].via is None ==> v == f[v].origin
    &&& f[v].via is Some ==> {
        let u = (f[v].via->0).0;
        &&& f.contains_key(u)
        &&& follows(g, u, v)
        &&& f[u].g + edge_cost(g, v) <= f[v].g
        &&& f[u].g < f[v].g || t.ord[u] < t.ord[v]
    }
}

spec fn labels_ok(
    g: &Net,
    starts: Seq<(usize, u32)>,
    limit: u32,
    f: Map<usize, Label>,
    t: EdgeTrail,
) -> bool {
    forall|v: usize| #[trigger] f.contains_key(v) ==> label_ok(g, starts, limit, f, t, v)
}

spec fn queue_ok(f: Map<usize, Label>, open: Multiset<QueueItem>, last: u128) -> bool {
    forall|x: QueueItem| #[trigger]
        open.contains(x) ==> {
            &&& f.contains_key(x.node)
            &&& f[x.node].g <= x.g
            &&& x.cost == x.g
            &&& last <= x.cost
            &&& x.g == f[x.node].g ==> x.origin == f[x.node].origin
        }
}

spec fn entry(f: Map<usize, Label>, u: usize) -> QueueItem {
    QueueItem { cost: f[u].g, g: f[u].g, node: u, origin: f[u].origin }
}

spec fn passed_on(g: &Net, f: Map<usize, Label>, u: usize, v: usize) -> bool {
    f.contains_key(v) && f[v].g <= f[u].g + edge_cost(g, v)
}

spec fn closed_edge(g: &Net, f: Map<usize, Label>, u: usize) -> bool {
    forall|v: usize| #[trigger]
        follows(g, u, v) && f[u].g + edge_cost(g, v) < ROUTE_INF ==> passed_on(g, f, u, v)
}

spec fn cover_ok(
    g: &Net,
    f: Map<usize, Label>,
    open: Multiset<QueueItem>,
    except: Option<usize>,
) -> bool {
    forall|u: usize| #[trigger]
        f.contains_key(u) && except != Some(u) ==> open.contains(entry(f, u)) || closed_edge(
            g,
            f,
            u,
        )
}

spec fn seeded(starts: Seq<(usize, u32)>, f: Map<usize, Label>, count: int) -> bool {
    forall|j: int|
        #![trigger starts[j]]
        0 <= j < count ==> f.contains_key(starts[j].0) && f[starts[j].0].g <= starts[j].1
}

spec fn improves(f: Map<usize, Label>, h: Map<usize, Label>) -> bool {
    forall|x: usize| #[trigger] f.contains_key(x) ==> h.contains_key(x) && h[x].g <= f[x].g
}

proof fn lemma_seeded_improves(
    starts: Seq<(usize, u32)>,
    f: Map<usize, Label>,
    h: Map<usize, Label>,
    count: int,
)
    requires
        seeded(starts, f, count),
        improves(f, h),
    ensures
        seeded(starts, h, count),
{
    assert forall|j: int| #![trigger starts[j]] 0 <= j < count implies h.contains_key(starts[j].0)
        && h[starts[j].0].g <= starts[j].1 by {
        assert(f.contains_key(starts[j].0));
    }
}

struct Frontier {
    open: MinHeap,
    labels: Labels,
}

spec fn frontier_ok(
    g: &Net,
    starts: Seq<(usize, u32)>,
    limit: u32,
    fr: Frontier,
    t: EdgeTrail,
    last: u128,
    except: Option<usize>,
) -> bool {
    &&& fr.open.wf()
    &&& labels_ok(g, starts, limit, labels_of(fr.labels), t)
    &&& queue_ok(labels_of(fr.labels), fr.open@, last)
    &&& cover_ok(g, labels_of(fr.labels), fr.open@, except)
}

/// A better label, queued, leaves everything in order.
proof fn lemma_insert(
    g: &Net,
    starts: Seq<(usize, u32)>,
    limit: u32,
    f: Map<usize, Label>,
    open: Multiset<QueueItem>,
    t: EdgeTrail,
    last: u128,
    except: Option<usize>,
    v: usize,
    l: Label,
    k: int,
    es: Seq<usize>,
) -> (t2: EdgeTrail)
    requires
        labels_ok(g, starts, limit, f, t),
        queue_ok(f, open, last),
        cover_ok(g, f, open, except),
        v < g.edges@.len(),
        l.g < ROUTE_INF,
        last <= l.g,
        f.contains_key(v) ==> l.g < f[v].g,
        bid(g, starts, limit, k, es, v, l.g as nat),
        starts[k].0 == l.origin,
        l.via is None ==> v == l.origin,
        l.via is Some ==> {
            let u = (l.via->0).0;
            &&& f.contains_key(u)
            &&& u != v
            &&& follows(g, u, v)
            &&& f[u].g + edge_cost(g, v) <= l.g
        },
    ensures
        labels_ok(g, starts, limit, f.insert(v, l), t2),
        queue_ok(
            f.insert(v, l),
            open.insert(QueueItem { cost: l.g, g: l.g, node: v, origin: l.origin }),
            last,
        ),
        cover_ok(
            g,
            f.insert(v, l),
            open.insert(QueueItem { cost: l.g, g: l.g, node: v, origin: l.origin }),
            except,
        ),
{
    reveal(label_ok);
    let f2 = f.insert(v, l);
    let item = QueueItem { cost: l.g, g: l.g, node: v, origin: l.origin };
    let open2 = open.insert(item);
    let t2 = EdgeTrail {
        ord: t.ord.insert(v, t.clock),
        way: t.way.insert(v, (k, es)),
        clock: t.clock + 1,
    };
    assert forall|x: usize| #[trigger] f2.contains_key(x) implies label_ok(
        g,
        starts,
        limit,
        f2,
        t2,
        x,
    ) by {
        if x != v {
            assert(f.contains_key(x));
            assert(label_ok(g, starts, limit, f, t, x));
            if f[x].via is Some {
                let p = (f[x].via->0).0;
                assert(label_ok(g, starts, limit, f, t, p));
                if p == v {
                    assert(f2[p].g < f[p].g);
                }
            }
        } else if l.via is Some {
            let p = (l.via->0).0;
            assert(label_ok(g, starts, limit, f, t, p));
        }
    }
    assert forall|x: QueueItem| #[trigger] open2.contains(x) implies {
        &&& f2.contains_key(x.node)
        &&& f2[x.node].g <= x.g
        &&& x.cost == x.g
        &&& last <= x.cost
        &&& x.g == f2[x.node].g ==> x.origin == f2[x.node].origin
    } by {
        if x != item {
            assert(open.contains(x));
        }
    }
    assert forall|u: usize| #[trigger] f2.contains_key(u) && except != Some(u) implies open2.contains(
        entry(f2, u),
    ) || closed_edge(g, f2, u) by {
        if u == v {
            assert(entry(f2, u) == item);
        } else {
            assert(f.contains_key(u));
            assert(entry(f2, u) == entry(f, u));
            if closed_edge(g, f, u) {
                assert forall|y: usize| #[trigger]
                    follows(g, u, y) && f2[u].g + edge_cost(g, y) < ROUTE_INF implies passed_on(
                    g,
                    f2,
                    u,
                    y,
                ) by {
                    assert(passed_on(g, f, u, y));
                }
            }
        }
    }
    t2
}

/// How far along a way the labels are as good as the way itself.
proof fn lemma_reached(
    g: &Net,
    f: Map<usize, Label>,
    es: Seq<usize>,
    s: usize,
    init: nat,
    k: int,
) -> (i: int)
    requires
        0 <= k <= es.len(),
        f.contains_key(s),
        f[s].g <= init,
    ensures
        0 <= i <= k,
        f.contains_key(edge_after(es, s, i)),
        f[edge_after(es, s, i)].g <= init + chain_cost(g, es.take(i)),
        i < k ==> !passed_on(g, f, edge_after(es, s, i), es[i]),
    decreases k,
{
    if k == 0 {
        0
    } else {
        let i = lemma_reached(g, f, es, s, init, k - 1);
        if i < k - 1 {
            i
        } else if passed_on(g, f, edge_after(es, s, i), es[i]) {
            lemma_cost_take_next(g, es, k - 1);
            k
        } else {
            k - 1
        }
    }
}

/// When the search stops, no way undercuts the label of an edge that was asked for.
proof fn lemma_done(
    g: &Net,
    starts: Seq<(usize, u32)>,
    limit: u32,
    f: Map<usize, Label>,
    open: Multiset<QueueItem>,
    last: u128,
    left: Option<usize>,
    v: usize,
    k: int,
    es: Seq<usize>,
    cost: nat,
)
    requires
        queue_ok(f, open, last),
        cover_ok(g, f, open, left),
        seeded(starts, f, starts.len() as int),
        left is Some ==> f.contains_key(left->0) && last <= f[left->0].g && f.contains_key(v)
            && f[v].g <= last,
        left is None ==> forall|x: QueueItem| #[trigger] open.contains(x) ==> x.cost > limit,
        bid(g, starts, limit, k, es, v, cost),
        cost < ROUTE_INF,
    ensures
        f.contains_key(v),
        f[v].g <= cost,
{
    let s = starts[k].0;
    let init = starts[k].1 as nat;
    let n = es.len() as int;
    let i = lemma_reached(g, f, es, s, init, n);
    let x = edge_after(es, s, i);
    assert(es.take(n) =~= es);
    lemma_cost_take_le(g, es, i);
    if i < n {
        assert(follows_at(g, es, s, i));
        lemma_cost_take_next(g, es, i);
        lemma_cost_take_le(g, es, i + 1);
        assert(!closed_edge(g, f, x)) by {
            assert(follows(g, x, es[i]));
        }
        assert(init + chain_cost(g, es.take(i)) <= limit);
        if left == Some(x) {
        } else {
            assert(open.contains(entry(f, x)));
        }
    }
}

proof fn lemma_pop(
    g: &Net,
    f: Map<usize, Label>,
    open: Multiset<QueueItem>,
    last: u128,
    item: QueueItem,
)
    requires
        queue_ok(f, open, last),
        cover_ok(g, f, open, None),
        open.contains(item),
        forall|y: QueueItem| #[trigger] open.contains(y) ==> item.cost <= y.cost,
    ensures
        queue_ok(f, open.remove(item), item.cost),
        cover_ok(g, f, open.remove(item), Some(item.node)),
        item.g > f[item.node].g ==> cover_ok(g, f, open.remove(item), None),
{
    let rest = open.remove(item);
    assert forall|x: QueueItem| #[trigger] rest.contains(x) implies open.contains(x) by {}
    assert forall|x: usize| #[trigger]
        f.contains_key(x) && Some(item.node) != Some(x) implies rest.contains(entry(f, x))
        || closed_edge(g, f, x) by {
        assert(entry(f, x) != item);
        assert(open.contains(entry(f, x)) || closed_edge(g, f, x));
    }
    if item.g > f[item.node].g {
        assert forall|x: usize| #[trigger] f.contains_key(x) implies rest.contains(entry(f, x))
            || closed_edge(g, f, x) by {
            assert(entry(f, x) != item);
            assert(open.contains(entry(f, x)) || closed_edge(g, f, x));
        }
    }
}

fn seed(g: &Net, starts: &[(EdgeIndex, u32)], limit: u32) -> (r: (Frontier, Ghost<EdgeTrail>))
    requires
        forall|k: int|
            0 <= k < starts@.len() ==> (#[trigger] starts@[k]).0 < g.edges@.len() && starts@[k].1
                < ROUTE_INF,
    ensures
        frontier_ok(g, starts@, limit, r.0, r.1@, 0, None),
        seeded(starts@, labels_of(r.0.labels), starts@.len() as int),
{
    let mut fr = Frontier { open: MinHeap::new(), labels: labels_new() };
    let ghost mut trail = EdgeTrail { ord: Map::empty(), way: Map::empty(), clock: 0 };
    let mut i: usize = 0;
    while i < starts.len()
        invariant
            i <= starts@.len(),
            forall|k: int|
                0 <= k < starts@.len() ==> (#[trigger] starts@[k]).0 < g.edges@.len()
                    && starts@[k].1 < ROUTE_INF,
            frontier_ok(g, starts@, limit, fr, trail, 0, None),
            seeded(starts@, labels_of(fr.labels), i as int),
        decreases starts@.len() - i,
    {
        let (edge, init): (usize, u32) = starts[i];
        let c: u128 = init as u128;
        let ghost f0 = labels_of(fr.labels);
        let keep = match labels_get(&fr.labels, edge) {
            Some(l) => c < l.g,
            None => true,
        };
        if keep {
            let label = Label { g: c, origin: edge, via: None };
            proof {
                let es = Seq::<usize>::empty();
                assert(bid(g, starts@, limit, i as int, es, edge, c as nat));
                trail = lemma_insert(
                    g, starts@, limit, f0, fr.open@, trail, 0, None, edge, label, i as int, es,
                );
            }
            labels_insert(&mut fr.labels, edge, label);
            fr.open.push(QueueItem { cost: c, g: c, node: edge, origin: edge });
            proof {
                assert(improves(f0, labels_of(fr.labels)));
                lemma_seeded_improves(starts@, f0, labels_of(fr.labels), i as int);
            }
        }
        i = i + 1;
    }
    (fr, Ghost(trail))
}

/// Looks at the edges that go on from `u`, which has been taken out of the queue.
fn relax_from(
    g: &Net,
    limit: u32,
    fr: &mut Frontier,
    u: usize,
    cost: u128,
    origin: usize,
    Ghost(starts): Ghost<Seq<(usize, u32)>>,
    Ghost(trail0): Ghost<EdgeTrail>,
) -> (r: Ghost<EdgeTrail>)
    requires
        g.wf(),
        frontier_ok(g, starts, limit, *old(fr), trail0, cost, Some(u)),
        labels_of(old(fr).labels).contains_key(u),
        labels_of(old(fr).labels)[u].g == cost,
        labels_of(old(fr).labels)[u].origin == origin,
        cost <= limit,
    ensures
        frontier_ok(g, starts, limit, *final(fr), r@, cost, None),
        improves(labels_of(old(fr).labels), labels_of(final(fr).labels)),
        ({
            let n = g.edges@.len();
            let before = crate::search::potential(labels_of(old(fr).labels), n, ROUTE_INF as nat);
            let after = crate::search::potential(labels_of(final(fr).labels), n, ROUTE_INF as nat);
            after < before || after == before && final(fr).open@ == old(fr).open@
        }),
{
    let ghost n = g.edges@.len();
    let ghost f0 = labels_of(fr.labels);
    let ghost mut trail = trail0;
    proof {
        assert(g.edges.len() == n);
        assert(label_ok(g, starts, limit, f0, trail, u));
        reveal(label_ok);
    }
    let at: usize = g.edge(u).to;
    assert(g.edges@[u as int].to == at);
    let node = g.node(at);
    let mut k: usize = 0;
    let ghost before = crate::search::potential(f0, n, ROUTE_INF as nat);
    let ghost open_before = fr.open@;
    while k < node.out_edges.len()
        invariant
            g.wf(),
            n == g.edges@.len(),
            n == g.edges.len(),
            u < n,
            at == g.edges@[u as int].to,
            at < g.nodes@.len(),
            *node == g.nodes@[at as int],
            k <= node.out_edges@.len(),
            frontier_ok(g, starts, limit, *fr, trail, cost, Some(u)),
            labels_of(fr.labels).contains_key(u),
            labels_of(fr.labels)[u].g == cost,
            labels_of(fr.labels)[u].origin == origin,
            cost <= limit,
            cost < ROUTE_INF,
            improves(f0, labels_of(fr.labels)),
            forall|j: int|
                #![trigger node.out_edges@[j]]
                0 <= j < k && cost + edge_cost(g, node.out_edges@[j]) < ROUTE_INF ==> passed_on(
                    g,
                    labels_of(fr.labels),
                    u,
                    node.out_edges@[j],
                ),
            crate::search::potential(labels_of(fr.labels), n, ROUTE_INF as nat) < before
                || crate::search::potential(labels_of(fr.labels), n, ROUTE_INF as nat) == before
                && fr.open@ == open_before,
        decreases node.out_edges@.len() - k,
    {
        let v: usize = node.out_edges[k];
        assert(g.nodes@[at as int].out_edges@[k as int] == v);
        assert(follows(g, u, v));
        let step: u128 = g.edge(v).payload.cost as u128;
        let tentative: u128 = cost + step;
        let better = tentative < ROUTE_INF as u128 && match labels_get(&fr.labels, v) {
            Some(l) => tentative < l.g,
            None => true,
        };
        if better {
            let label = Label { g: tentative, origin, via: Some((u, v)) };
            let ghost f = labels_of(fr.labels);
            proof {
                assert(label_ok(g, starts, limit, f, trail, u));
                let (wk, wes) = trail.way[u];
                lemma_bid_push(g, starts, limit, f, trail, u, v);
                trail = lemma_insert(
                    g, starts, limit, f, fr.open@, trail, cost, Some(u), v, label, wk,
                    wes.push(v),
                );
                crate::search::lemma_potential_insert(f, n, ROUTE_INF as nat, v, label);
            }
            labels_insert(&mut fr.labels, v, label);
            fr.open.push(QueueItem { cost: tentative, g: tentative, node: v, origin: origin });
        }
        k = k + 1;
    }
    proof {
        let f = labels_of(fr.labels);
        assert(closed_edge(g, f, u)) by {
            assert forall|v: usize| #[trigger]
                follows(g, u, v) && f[u].g + edge_cost(g, v) < ROUTE_INF implies passed_on(
                g,
                f,
                u,
                v,
            ) by {
                assert(g.edges@[v as int].from == at);
                assert(node.out_edges@.contains(v));
                let j = choose|j: int| 0 <= j < node.out_edges@.len() && node.out_edges@[j] == v;
                assert(node.out_edges@[j] == v);
            }
        }
        assert forall|x: usize| #[trigger] f.contains_key(x) implies fr.open@.contains(
            entry(f, x),
        ) || closed_edge(g, f, x) by {
            if x != u {
                assert(Some(u) != Some(x));
            }
        }
    }
    Ghost(trail)
}

proof fn lemma_bid_push(
    g: &Net,
    starts: Seq<(usize, u32)>,
    limit: u32,
    f: Map<usize, Label>,
    t: EdgeTrail,
    u: usize,
    v: usize,
)
    requires
        label_ok(g, starts, limit, f, t, u),
        follows(g, u, v),
        f[u].g <= limit,
    ensures
        bid(
            g,
            starts,
            limit,
            t.way[u].0,
            t.way[u].1.push(v),
            v,
            (f[u].g + edge_cost(g, v)) as nat,
        ),
        starts[t.way[u].0].0 == f[u].origin,
{
    reveal(label_ok);
    let (wk, wes) = t.way[u];
    lemma_chain_push(g, wes, starts[wk].0, u, v);
    lemma_within_push(g, starts[wk].1 as nat, wes, v, limit);
}

/// The cheapest ways from the starts, each of which comes with a cost of its own.
///
/// Edges that are reached at more than `limit` are not gone on from. If `stop` is given, the
/// search ends as soon as the cheapest way to that edge is known.
fn edge_search(
    g: &Net,
    starts: &[(EdgeIndex, u32)],
    limit: u32,
    stop: Option<EdgeIndex>,
) -> (r: (Labels, Ghost<EdgeTrail>))
    requires
        g.wf(),
        forall|k: int|
            0 <= k < starts@.len() ==> (#[trigger] starts@[k]).0 < g.edges@.len() && starts@[k].1
                < ROUTE_INF,
    ensures
        best_bids(g, starts@, limit, stop, labels_of(r.0)),
        labels_ok(g, starts@, limit, labels_of(r.0), r.1@),
{
    let (mut fr, first_trail) = seed(g, starts, limit);
    let ghost mut trail = first_trail@;
    let ghost mut last: u128 = 0;
    let ghost mut left: Option<usize> = None;
    loop
        invariant_except_break
            left is None,
        invariant
            g.wf(),
            frontier_ok(g, starts@, limit, fr, trail, last, left),
            seeded(starts@, labels_of(fr.labels), starts@.len() as int),
        ensures
            left is Some ==> labels_of(fr.labels).contains_key(left->0) && last <= labels_of(
                fr.labels,
            )[left->0].g && stop == left && labels_of(fr.labels)[left->0].g <= last,
            left is None ==> forall|x: QueueItem| #[trigger]
                fr.open@.contains(x) ==> x.cost > limit,
        decreases
                crate::search::potential(labels_of(fr.labels), g.edges@.len(), ROUTE_INF as nat),
                fr.open@.len(),
    {
        let top = match fr.open.peek() {
            Some(x) => x,
            None => {
                break ;
            },
        };
        if top.cost > limit as u128 {
            break ;
        }
        let ghost f0 = labels_of(fr.labels);
        let ghost o0 = fr.open@;
        let item = match fr.open.pop() {
            Some(x) => x,
            None => {
                break ;
            },
        };
        let u: usize = item.node;
        proof {
            assert(o0.contains(item));
            assert(o0.contains(top));
            lemma_pop(g, f0, o0, last, item);
            last = item.cost;
        }
        let current: u128 = match labels_get(&fr.labels, u) {
            Some(l) => l.g,
            None => 0,
        };
        if item.g > current {
            continue ;
        }
        if let Some(t) = stop {
            if t == u {
                proof {
                    left = Some(u);
                }
                break ;
            }
        }
        let new_trail = relax_from(
            g,
            limit,
            &mut fr,
            u,
            item.g,
            item.origin,
            Ghost(starts@),
            Ghost(trail),
        );
        proof {
            trail = new_trail@;
            lemma_seeded_improves(starts@, f0, labels_of(fr.labels), starts@.len() as int);
        }
    }
    proof {
        let f = labels_of(fr.labels);
        assert forall|v: usize| #[trigger] f.contains_key(v) implies f[v].g < ROUTE_INF && exists|
            k: int,
            es: Seq<usize>,
        | #[trigger]
            bid(g, starts@, limit, k, es, v, f[v].g as nat) && starts@[k].0 == f[v].origin by {
            assert(label_ok(g, starts@, limit, f, trail, v));
            reveal(label_ok);
        }
        assert forall|v: usize, k: int, es: Seq<usize>, cost: nat| #[trigger]
            bid(g, starts@, limit, k, es, v, cost) && cost < ROUTE_INF && (stop is None || stop
                == Some(v)) implies f.contains_key(v) && f[v].g <= cost by {
            lemma_done(g, starts@, limit, f, fr.open@, last, left, v, k, es, cost);
        }
    }
    (fr.labels, Ghost(trail))
}

/// The cheapest ways from the starts, each of which comes with a cost of its own. Edges that are
/// reached at more than `limit` are not gone on from.
pub fn search_from(g: &Net, starts: &[(EdgeIndex, u32)], limit: u32) -> (r: Labels)
    requires
        g.wf(),
        forall|k: int|
            0 <= k < starts@.len() ==> (#[trigger] starts@[k]).0 < g.edges@.len() && starts@[k].1
                < ROUTE_INF,
    ensures
        best_bids(g, starts@, limit, None, labels_of(r)),
{
    let (labels, _trail) = edge_search(g, starts, limit, None);
    labels
}

/// What a search from one edge says of the cost to another: the least cost of a way that stays
/// within the limit up to its last edge but one, or `ROUTE_INF` if there is none.
pub open spec fn cost_between(g: &Net, start: usize, limit: u32, t: usize, cost: u32) -> bool {
    let starts = seq![(start, 0u32)];
    &&& cost <= ROUTE_INF
    &&& cost < ROUTE_INF ==> exists|es: Seq<usize>| #[trigger]
        bid(g, starts, limit, 0, es, t, cost as nat)
    &&& forall|es: Seq<usize>, c: nat| #[trigger]
        bid(g, starts, limit, 0, es, t, c) && c < ROUTE_INF ==> cost <= c
}

/// Two searches never disagree on the cost.
pub proof fn lemma_cost_between_unique(
    g: &Net,
    start: usize,
    limit: u32,
    t: usize,
    a: u32,
    b: u32,
)
    requires
        cost_between(g, start, limit, t, a),
        cost_between(g, start, limit, t, b),
    ensures
        a == b,
{
}

/// The costs from one edge to several others.
pub fn run_dijkstra_1_to_n(
    g: &Net,
    start: EdgeIndex,
    targets: &[EdgeIndex],
    max_cost: u32,
) -> (r: Vec<u32>)
    requires
        g.wf(),
        start < g.edges@.len(),
    ensures
        r@.len() == targets@.len(),
        forall|i: int|
            0 <= i < r@.len() ==> cost_between(g, start, max_cost, targets@[i], #[trigger] r@[i]),
{
    let starts: [(usize, u32); 1] = [(start, 0)];
    let labels = search_from(g, starts.as_slice(), max_cost);
    let ghost f = labels_of(labels);
    assert(starts@ =~= seq![(start, 0u32)]);
    let mut r: Vec<u32> = Vec::new();
    let mut i: usize = 0;
    while i < targets.len()
        invariant
            i <= targets@.len(),
            r@.len() == i,
            f == labels_of(labels),
            best_bids(g, seq![(start, 0u32)], max_cost, None, f),
            forall|j: int|
                0 <= j < i ==> cost_between(g, start, max_cost, targets@[j], #[trigger] r@[j]),
        decreases targets@.len() - i,
    {
        let t: usize = targets[i];
        let c: u32 = match labels_get(&labels, t) {
            Some(l) => l.g as u32,
            None => ROUTE_INF,
        };
        proof {
            let starts = seq![(start, 0u32)];
            if f.contains_key(t) {
                let (k, es) = choose|k: int, es: Seq<usize>| #[trigger]
                    bid(g, starts, max_cost, k, es, t, f[t].g as nat) && starts[k].0 == f[t].origin;
                assert(k == 0);
            }
            assert forall|es: Seq<usize>, c2: nat| #[trigger]
                bid(g, starts, max_cost, 0, es, t, c2) && c2 < ROUTE_INF implies c <= c2 by {}
            assert(cost_between(g, start, max_cost, t, c));
        }
        r.push(c);
        i = i + 1;
    }
    r
}

/// What `reconstruct_path` returns: a cheapest way, both ends at hand, or nothing if there is no
/// way.
pub open spec fn shortest_path(g: &Net, start: usize, target: usize, path: Seq<usize>) -> bool {
    let starts = seq![(start, 0u32)];
    if path.len() == 0 {
        forall|es: Seq<usize>, c: nat| #[trigger]
            bid(g, starts, u32::MAX, 0, es, target, c) ==> c >= ROUTE_INF
    } else {
        &&& path[0] == start
        &&& chain(g, path.drop_first(), start, target)
        &&& chain_cost(g, path.drop_first()) < ROUTE_INF
        &&& forall|es: Seq<usize>, c: nat| #[trigger]
            bid(g, starts, u32::MAX, 0, es, target, c) ==> chain_cost(g, path.drop_first()) <= c
    }
}

/// A cheapest way from one edge to another, with both of them, or nothing if there is none.
#[verifier::rlimit(40)]
#[verifier::spinoff_prover]
pub fn reconstruct_path(g: &Net, start: EdgeIndex, target: EdgeIndex) -> (path: Vec<EdgeIndex>)
    requires
        g.wf(),
        start < g.edges@.len(),
    ensures
        shortest_path(g, start, target, path@),
{
    let starts: [(usize, u32); 1] = [(start, 0)];
    let (labels, trail_ghost) = edge_search(g, starts.as_slice(), u32::MAX, Some(target));
    assert(starts@ =~= seq![(start, 0u32)]);
    let ghost f = labels_of(labels);
    let ghost t = trail_ghost@;
    let ghost ss = seq![(start, 0u32)];
    if labels_get(&labels, target).is_none() {
        return Vec::new();
    }
    let mut back: Vec<usize> = Vec::new();
    let mut current: usize = target;
    loop
        invariant
            f == labels_of(labels),
            labels_ok(g, ss, u32::MAX, f, t),
            ss == seq![(start, 0u32)],
            f.contains_key(target),
            f.contains_key(current),
            chain(g, back@.reverse(), current, target),
            chain_cost(g, back@) + f[current].g <= f[target].g,
        ensures
            current == start,
        decreases f[current].g, t.ord[current],
    {
        proof {
            assert(label_ok(g, ss, u32::MAX, f, t, current));
            reveal(label_ok);
        }
        let via = match labels_get(&labels, current) {
            Some(l) => l.via,
            None => None,
        };
        match via {
            None => {
                proof {
                    assert(f[current].origin == start) by {
                        let k = t.way[current].0;
                        assert(0 <= k < ss.len());
                        assert(ss[k] == (start, 0u32));
                    }
                }
                break ;
            },
            Some(step) => {
                let (parent, _edge): (usize, usize) = step;
                let ghost b0 = back@;
                proof {
                    assert(label_ok(g, ss, u32::MAX, f, t, parent));
                }
                back.push(current);
                proof {
                    assert(back@.drop_last() =~= b0);
                    lemma_chain_front(g, b0.reverse(), parent, current, target);
                    assert(back@.reverse() =~= seq![current] + b0.reverse());
                }
                current = parent;
            },
        }
    }
    let mut path: Vec<usize> = Vec::new();
    path.push(start);
    let n: usize = back.len();
    let mut i: usize = 0;
    while i < n
        invariant
            n == back@.len(),
            i <= n,
            path@.len() == i + 1,
            path@[0] == start,
            forall|j: int| 0 < j <= i ==> path@[j] == back@[n - j],
        decreases n - i,
    {
        path.push(back[n - 1 - i]);
        i = i + 1;
    }
    proof {
        assert(path@.drop_first() =~= back@.reverse());
        lemma_cost_reverse(g, back@);
        assert(label_ok(g, ss, u32::MAX, f, t, target));
        reveal(label_ok);
        assert forall|es: Seq<usize>, c: nat| #[trigger]
            bid(g, ss, u32::MAX, 0, es, target, c) implies chain_cost(g, path@.drop_first()) <= c by {
            if c < ROUTE_INF {
                assert(f[target].g <= c);
            }
        }
    }
    path
}

proof fn lemma_chain_front(g: &Net, es: Seq<usize>, parent: usize, s: usize, t: usize)
    requires
        chain(g, es, s, t),
        follows(g, parent, s),
    ensures
        chain(g, seq![s] + es, parent, t),
{
    let x = seq![s] + es;
    assert forall|i: int| 0 <= i < x.len() implies #[trigger] follows_at(g, x, parent, i) by {
        if i > 0 {
            assert(follows_at(g, es, s, i - 1));
            assert(x[i] == es[i - 1]);
            assert(edge_after(x, parent, i) == edge_after(es, s, i - 1));
        }
    }
    assert(edge_after(x, parent, x.len() as int) == edge_after(es, s, es.len() as int));
}

proof fn lemma_cost_join(g: &Net, a: Seq<usize>, b: Seq<usize>)
    ensures
        chain_cost(g, a + b) == chain_cost(g, a) + chain_cost(g, b),
    decreases b.len(),
{
    if b.len() == 0 {
        assert(a + b =~= a);
    } else {
        lemma_cost_join(g, a, b.drop_last());
        assert((a + b).drop_last() =~= a + b.drop_last());
        assert((a + b).last() == b.last());
    }
}

proof fn lemma_cost_reverse(g: &Net, es: Seq<usize>)
    ensures
        chain_cost(g, es.reverse()) == chain_cost(g, es),
    decreases es.len(),
{
    if es.len() > 0 {
        let p = es.drop_last();
        lemma_cost_reverse(g, p);
        assert(es.reverse() =~= seq![es.last()] + p.reverse());
        lemma_cost_join(g, seq![es.last()], p.reverse());
        assert(seq![es.last()].drop_last() =~= Seq::<usize>::empty());
        assert(chain_cost(g, seq![es.last()]) == edge_cost(g, es.last())) by {
            reveal_with_fuel(chain_cost, 2);
        }
    } else {
        assert(es.reverse() =~= es);
    }
}

} // verus!
