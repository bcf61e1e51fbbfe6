//! Cheapest ways from several starts to several targets at once.

use crate::geometry::BBox;
use crate::graph::{EdgePL, Graph, NodeIndex, NodePL};
use crate::hashed::{
    indices_insert, indices_new, indices_of, indices_remove, labels_get, labels_insert, labels_new,
    labels_of, IndexSet, Label, Labels,
};
use crate::heap::{MinHeap, QueueItem};
use crate::search::{Query, TransitMatch};
use vstd::multiset::Multiset;
use vstd::prelude::*;

verus! {

/// Whether the edges lead from `s` to `t` and every node after the first may be entered.
pub open spec fn entered_walk(q: Query, es: Seq<usize>, s: usize, t: usize) -> bool {
    &&& q.walk(es, s, t)
    &&& forall|i: int| 0 < i <= es.len() ==> q.admits(#[trigger] q.node_at(es, s, i))
}

/// Whether `t` can be reached from start number `k` by the edges, at this total cost.
pub open spec fn offer(
    q: Query,
    starts: Seq<(usize, u128)>,
    k: int,
    es: Seq<usize>,
    t: usize,
    cost: nat,
) -> bool {
    &&& 0 <= k < starts.len()
    &&& entered_walk(q, es, starts[k].0, t)
    &&& cost == starts[k].1 + q.cost(es)
}

/// A way to each label: the number of its start, and its edges.
struct Ways {
    way: Map<usize, (int, Seq<usize>)>,
}

#[verifier::opaque]
spec fn label_ok(
    q: Query,
    starts: Seq<(usize, u128)>,
    max_cost: u128,
    f: Map<usize, Label>,
    w: Ways,
    v: usize,
) -> bool {
    &&& v < q.graph.nodes@.len()
    &&& f[v].g < max_cost
    &&& w.way.contains_key(v)
    &&& offer(q, starts, w.way[v].0, w.way[v].1, v, f[v].g as nat)
    &&& starts[w.way[v].0].0 == f[v].origin
}

spec fn labels_ok(
    q: Query,
    starts: Seq<(usize, u128)>,
    max_cost: u128,
    f: Map<usize, Label>,
    w: Ways,
) -> bool {
    forall|v: usize| #[trigger] f.contains_key(v) ==> label_ok(q, starts, max_cost, f, w, v)
}

spec fn queue_ok(f: Map<usize, Label>, open: Multiset<QueueItem>, last: u128) -> bool {
    forall|x: QueueItem| #[trigger]
        open.contains(x) ==> {
            &&& f.contains_key(x.node)
            &&& f[x.node].g <= x.g
            &&& x.cost == x.g
            &&& last <= x.cost
            &&& x.g == f[x.node].g ==> x.origin == f[x.node].origin
        }
}

spec fn entry(f: Map<usize, Label>, u: usize) -> QueueItem {
    QueueItem { cost: f[u].g, g: f[u].g, node: u, origin: f[u].origin }
}

/// Whether all edges that go on from `u` below the cost limit are relaxed.
spec fn closed_below(q: Query, max_cost: u128, f: Map<usize, Label>, u: usize) -> bool {
    forall|e: usize, v: usize| #[trigger]
        q.arc(true, u, e, v) && f[u].g + q.step(e) < max_cost ==> crate::search::relaxed(
            q,
            f,
            u,
            e,
            v,
        )
}

spec fn cover_ok(
    q: Query,
    max_cost: u128,
    f: Map<usize, Label>,
    open: Multiset<QueueItem>,
    except: Option<usize>,
) -> bool {
    forall|u: usize| #[trigger]
        f.contains_key(u) && except != Some(u) ==> open.contains(entry(f, u)) || closed_below(
            q,
            max_cost,
            f,
            u,
        )
}

/// A better label, queued, leaves everything in order.
proof fn lemma_insert(
    q: Query,
    starts: Seq<(usize, u128)>,
    max_cost: u128,
    f: Map<usize, Label>,
    open: Multiset<QueueItem>,
    w: Ways,
    last: u128,
    except: Option<usize>,
    v: usize,
    l: Label,
    k: int,
    es: Seq<usize>,
) -> (w2: Ways)
    requires
        labels_ok(q, starts, max_cost, f, w),
        queue_ok(f, open, last),
        cover_ok(q, max_cost, f, open, except),
        v < q.graph.nodes@.len(),
        l.g < max_cost,
        last <= l.g,
        f.contains_key(v) ==> l.g < f[v].g,
        offer(q, starts, k, es, v, l.g as nat),
        starts[k].0 == l.origin,
    ensures
        labels_ok(q, starts, max_cost, f.insert(v, l), w2),
        queue_ok(
            f.insert(v, l),
            open.insert(QueueItem { cost: l.g, g: l.g, node: v, origin: l.origin }),
            last,
        ),
        cover_ok(
            q,
            max_cost,
            f.insert(v, l),
            open.insert(QueueItem { cost: l.g, g: l.g, node: v, origin: l.origin }),
            except,
        ),
{
    reveal(label_ok);
    let f2 = f.insert(v, l);
    let item = QueueItem { cost: l.g, g: l.g, node: v, origin: l.origin };
    let open2 = open.insert(item);
    let w2 = Ways { way: w.way.insert(v, (k, es)) };
    assert forall|x: usize| #[trigger] f2.contains_key(x) implies label_ok(
        q,
        starts,
        max_cost,
        f2,
        w2,
        x,
    ) by {
        if x != v {
            assert(f.contains_key(x));
            assert(label_ok(q, starts, max_cost, f, w, x));
        }
    }
    assert forall|x: QueueItem| #[trigger] open2.contains(x) implies {
        &&& f2.contains_key(x.node)
        &&& f2[x.node].g <= x.g
        &&& x.cost == x.g
        &&& last <= x.cost
        &&& x.g == f2[x.node].g ==> x.origin == f2[x.node].origin
    } by {
        if x != item {
            assert(open.contains(x));
        }
    }
    assert forall|u: usize| #[trigger] f2.contains_key(u) && except != Some(u) implies open2.contains(
        entry(f2, u),
    ) || closed_below(q, max_cost, f2, u) by {
        if u == v {
            assert(entry(f2, u) == item);
        } else {
            assert(f.contains_key(u));
            assert(entry(f2, u) == entry(f, u));
            if closed_below(q, max_cost, f, u) {
                assert forall|e: usize, y: usize| #[trigger]
                    q.arc(true, u, e, y) && f2[u].g + q.step(e) < max_cost implies crate::search::relaxed(
                q, f2, u, e, y) by {
                    assert(crate::search::relaxed(q, f, u, e, y));
                }
            }
        }
    }
    w2
}

/// When the search stops, no offer below the limit beats the label of a target.
proof fn lemma_done(
    q: Query,
    starts: Seq<(usize, u128)>,
    max_cost: u128,
    f: Map<usize, Label>,
    open: Multiset<QueueItem>,
    last: u128,
    left: Option<usize>,
    all_found: bool,
    t: usize,
    k: int,
    es: Seq<usize>,
    cost: nat,
)
    requires
        queue_ok(f, open, last),
        cover_ok(q, max_cost, f, open, left),
        left is Some ==> f.contains_key(left->0) ==> last <= f[left->0].g,
        all_found || left is None && open.len() == 0,
        all_found ==> f.contains_key(t) && f[t].g <= last,
        forall|j: int|
            #![trigger starts[j]]
            0 <= j < starts.len() && starts[j].1 < max_cost ==> f.contains_key(starts[j].0)
                && f[starts[j].0].g <= starts[j].1,
        offer(q, starts, k, es, t, cost),
        cost < max_cost,
    ensures
        f.contains_key(t),
        f[t].g <= cost,
{
    let s = starts[k].0;
    let init = starts[k].1 as nat;
    let n = es.len() as int;
    let i = crate::search::lemma_reached_from_start(q, f, es, s, init, n);
    let x = q.node_at(es, s, i);
    assert(f.contains_key(x) && f[x].g <= init + q.cost(es.take(i)));
    assert(q.node_at(es, s, n) == t) by {
        crate::search::lemma_walk_nodes(q, es, s, t);
    }
    crate::search::lemma_cost_split(q, es, i);
    if i < n {
        let x2 = q.node_at(es, s, i + 1);
        assert(q.arc(true, x, es[i], x2)) by {
            crate::search::lemma_walk_edge(q, es, s, t, i);
            assert(q.admits(q.node_at(es, s, i + 1)));
        }
        crate::search::lemma_cost_take_next(q, es, i);
        crate::search::lemma_cost_split(q, es, i + 1);
        assert(!closed_below(q, max_cost, f, x));
        if left == Some(x) {
        } else {
            assert(open.contains(entry(f, x)));
            assert(open.len() > 0);
        }
    } else {
        assert(es.take(n) =~= es);
    }
}

/// The nodes to look at, and what is known of the nodes reached.
struct Frontier {
    open: MinHeap,
    labels: Labels,
}

spec fn frontier_ok(
    q: Query,
    starts: Seq<(usize, u128)>,
    max_cost: u128,
    fr: Frontier,
    w: Ways,
    last: u128,
    except: Option<usize>,
) -> bool {
    &&& fr.open.wf()
    &&& labels_ok(q, starts, max_cost, labels_of(fr.labels), w)
    &&& queue_ok(labels_of(fr.labels), fr.open@, last)
    &&& cover_ok(q, max_cost, labels_of(fr.labels), fr.open@, except)
}

/// Whether the first `count` starts that stay below the limit are labelled.
spec fn seeded(starts: Seq<(usize, u128)>, max_cost: u128, f: Map<usize, Label>, count: int) -> bool {
    forall|j: int|
        #![trigger starts[j]]
        0 <= j < count && starts[j].1 < max_cost ==> f.contains_key(starts[j].0)
            && f[starts[j].0].g <= starts[j].1
}

/// Whether `g` has every label of `f`, or a better one.
spec fn improves(f: Map<usize, Label>, g: Map<usize, Label>) -> bool {
    forall|x: usize| #[trigger] f.contains_key(x) ==> g.contains_key(x) && g[x].g <= f[x].g
}

proof fn lemma_seeded_improves(
    starts: Seq<(usize, u128)>,
    max_cost: u128,
    f: Map<usize, Label>,
    g: Map<usize, Label>,
    count: int,
)
    requires
        seeded(starts, max_cost, f, count),
        improves(f, g),
        count <= starts.len(),
    ensures
        seeded(starts, max_cost, g, count),
{
    assert forall|j: int| #![trigger starts[j]] 0 <= j < count && starts[j].1 < max_cost implies g.contains_key(
        starts[j].0,
    ) && g[starts[j].0].g <= starts[j].1 by {
        assert(f.contains_key(starts[j].0));
    }
}

/// Labels the starts, each with the least of its own costs.
fn seed(q: &Query, starts: &[(NodeIndex, u128)], max_cost: u128) -> (r: (Frontier, Ghost<Ways>))
    requires
        forall|k: int| 0 <= k < starts@.len() ==> (#[trigger] starts@[k]).0 < q.graph.nodes@.len(),
    ensures
        frontier_ok(*q, starts@, max_cost, r.0, r.1@, 0, None),
        seeded(starts@, max_cost, labels_of(r.0.labels), starts@.len() as int),
{
    let mut fr = Frontier { open: MinHeap::new(), labels: labels_new() };
    let ghost mut ways = Ways { way: Map::empty() };
    let mut i: usize = 0;
    while i < starts.len()
        invariant
            i <= starts@.len(),
            forall|k: int| 0 <= k < starts@.len() ==> (#[trigger] starts@[k]).0 < q.graph.nodes@.len(),
            frontier_ok(*q, starts@, max_cost, fr, ways, 0, None),
            seeded(starts@, max_cost, labels_of(fr.labels), i as int),
        decreases starts@.len() - i,
    {
        let (node, init): (usize, u128) = starts[i];
        let ghost f0 = labels_of(fr.labels);
        let mut keep = init < max_cost;
        if let Some(l) = labels_get(&fr.labels, node) {
            if init >= l.g {
                keep = false;
            }
        }
        if keep {
            let label = Label { g: init, origin: node, via: None };
            proof {
                let es = Seq::<usize>::empty();
                assert(q.walk(es, node, node));
                assert(offer(*q, starts@, i as int, es, node, init as nat));
                let w2 = lemma_insert(
                    *q, starts@, max_cost, f0, fr.open@, ways, 0, None, node, label, i as int, es,
                );
                ways = w2;
            }
            labels_insert(&mut fr.labels, node, label);
            fr.open.push(QueueItem { cost: init, g: init, node: node, origin: node });
            proof {
                assert(improves(f0, labels_of(fr.labels)));
                lemma_seeded_improves(starts@, max_cost, f0, labels_of(fr.labels), i as int);
            }
        }
        i = i + 1;
    }
    (fr, Ghost(ways))
}

/// The set of the targets, and how many there are.
fn collect(targets: &[NodeIndex]) -> (r: (IndexSet, usize))
    ensures
        indices_of(r.0).finite(),
        indices_of(r.0).len() == r.1,
        forall|t: usize| #[trigger] indices_of(r.0).contains(t) <==> targets@.contains(t),
{
    let mut wanted: IndexSet = indices_new();
    let mut count: usize = 0;
    let mut k: usize = 0;
    while k < targets.len()
        invariant
            k <= targets@.len(),
            count <= k,
            indices_of(wanted).finite(),
            indices_of(wanted).len() == count,
            forall|t: usize| #[trigger]
                indices_of(wanted).contains(t) <==> targets@.take(k as int).contains(t),
        decreases targets@.len() - k,
    {
        let t: usize = targets[k];
        proof {
            lemma_take_contains(targets@, k as int);
        }
        if indices_insert(&mut wanted, t) {
            count = count + 1;
        }
        k = k + 1;
    }
    assert(targets@.take(k as int) =~= targets@);
    (wanted, count)
}

proof fn lemma_take_contains(s: Seq<usize>, k: int)
    requires
        0 <= k < s.len(),
    ensures
        forall|x: usize| #[trigger] s.take(k + 1).contains(x) <==> s.take(k).contains(x) || x == s[k],
{
    let a = s.take(k);
    let b = s.take(k + 1);
    assert forall|x: usize| #[trigger] b.contains(x) <==> a.contains(x) || x == s[k] by {
        if a.contains(x) {
            let j = choose|j: int| 0 <= j < a.len() && a[j] == x;
            assert(b[j] == x);
        }
        assert(b[k] == s[k]);
        if b.contains(x) && x != s[k] {
            let j = choose|j: int| 0 <= j < b.len() && b[j] == x;
            assert(a[j] == x);
        }
    }
}

/// The labels of the targets.
fn select(targets: &[NodeIndex], labels: &Labels) -> (r: Labels)
    ensures
        forall|t: usize| #[trigger]
            labels_of(r).contains_key(t) <==> labels_of(*labels).contains_key(t)
                && targets@.contains(t),
        forall|t: usize| #[trigger]
            labels_of(r).contains_key(t) ==> labels_of(r)[t] == labels_of(*labels)[t],
{
    let mut result: Labels = labels_new();
    let ghost f = labels_of(*labels);
    let mut m: usize = 0;
    while m < targets.len()
        invariant
            m <= targets@.len(),
            f == labels_of(*labels),
            forall|t: usize| #[trigger]
                labels_of(result).contains_key(t) <==> f.contains_key(t) && targets@.take(
                    m as int,
                ).contains(t),
            forall|t: usize| #[trigger]
                labels_of(result).contains_key(t) ==> labels_of(result)[t] == f[t],
        decreases targets@.len() - m,
    {
        let t: usize = targets[m];
        proof {
            lemma_take_contains(targets@, m as int);
        }
        if let Some(l) = labels_get(labels, t) {
            labels_insert(&mut result, t, l);
        }
        m = m + 1;
    }
    assert(targets@.take(m as int) =~= targets@);
    result
}

/// Looks at the edges that go on from `u`, which has been taken out of the queue.
fn relax_from(
    q: &Query,
    max_cost: u128,
    fr: &mut Frontier,
    u: usize,
    g: u128,
    origin: usize,
    Ghost(starts): Ghost<Seq<(usize, u128)>>,
    Ghost(ways0): Ghost<Ways>,
) -> (r: Ghost<Ways>)
    requires
        q.graph.wf(),
        frontier_ok(*q, starts, max_cost, *old(fr), ways0, g, Some(u)),
        labels_of(old(fr).labels).contains_key(u),
        labels_of(old(fr).labels)[u].g == g,
        labels_of(old(fr).labels)[u].origin == origin,
    ensures
        frontier_ok(*q, starts, max_cost, *final(fr), r@, g, None),
        improves(labels_of(old(fr).labels), labels_of(final(fr).labels)),
        ({
            let n = q.graph.nodes@.len();
            let before = crate::search::potential(labels_of(old(fr).labels), n, max_cost as nat);
            let after = crate::search::potential(labels_of(final(fr).labels), n, max_cost as nat);
            after < before || after == before && final(fr).open@ == old(fr).open@
        }),
{
    let ghost n = q.graph.nodes@.len();
    let ghost f0 = labels_of(fr.labels);
    let ghost mut ways = ways0;
    proof {
        assert(q.graph.nodes.len() == n);
        assert(label_ok(*q, starts, max_cost, f0, ways, u));
        reveal(label_ok);
    }
    let node = q.graph.node(u);
    let mut k: usize = 0;
    let ghost before = crate::search::potential(f0, n, max_cost as nat);
    let ghost open_before = fr.open@;
    while k < node.out_edges.len()
        invariant
            q.graph.wf(),
            n == q.graph.nodes@.len(),
            n == q.graph.nodes.len(),
            u < n,
            *node == q.graph.nodes@[u as int],
            k <= node.out_edges@.len(),
            frontier_ok(*q, starts, max_cost, *fr, ways, g, Some(u)),
            labels_of(fr.labels).contains_key(u),
            labels_of(fr.labels)[u].g == g,
            labels_of(fr.labels)[u].origin == origin,
            g < max_cost,
            improves(f0, labels_of(fr.labels)),
            forall|j: int, v: usize|
                #![trigger q.arc(true, u, node.out_edges@[j], v)]
                0 <= j < k && q.arc(true, u, node.out_edges@[j], v) && g + q.step(
                    node.out_edges@[j],
                ) < max_cost ==> crate::search::relaxed(
                    *q,
                    labels_of(fr.labels),
                    u,
                    node.out_edges@[j],
                    v,
                ),
            crate::search::potential(labels_of(fr.labels), n, max_cost as nat) < before
                || crate::search::potential(labels_of(fr.labels), n, max_cost as nat) == before
                && fr.open@ == open_before,
        decreases node.out_edges@.len() - k,
    {
        let e: usize = node.out_edges[k];
        assert(q.graph.nodes@[u as int].out_edges@[k as int] == e);
        let edge = q.graph.edge(e);
        let v: usize = if edge.from == u { edge.to } else { edge.from };
        assert(q.edge_at(e) == *edge);
        if q.is_usable(e) && q.is_admitted(v) {
            assert(q.arc(true, u, e, v));
            let step: u128 = q.get_edge_cost(e) as u128;
            if step < max_cost - g {
                let tentative: u128 = g + step;
                let better = match labels_get(&fr.labels, v) {
                    Some(l) => tentative < l.g,
                    None => true,
                };
                if better {
                    let label = Label { g: tentative, origin, via: None };
                    let ghost f = labels_of(fr.labels);
                    proof {
                        assert(label_ok(*q, starts, max_cost, f, ways, u));
                        let (wk, wes) = ways.way[u];
                        lemma_offer_push(*q, starts, max_cost, f, ways, u, e, v);
                        let w2 = lemma_insert(
                            *q, starts, max_cost, f, fr.open@, ways, g, Some(u), v, label, wk,
                            wes.push(e),
                        );
                        ways = w2;
                        crate::search::lemma_potential_insert(f, n, max_cost as nat, v, label);
                    }
                    labels_insert(&mut fr.labels, v, label);
                    fr.open.push(
                        QueueItem { cost: tentative, g: tentative, node: v, origin: origin },
                    );
                }
            }
        }
        k = k + 1;
    }
    proof {
        let f = labels_of(fr.labels);
        assert(closed_below(*q, max_cost, f, u)) by {
            assert forall|e: usize, v: usize| #[trigger]
                q.arc(true, u, e, v) && f[u].g + q.step(e) < max_cost implies crate::search::relaxed(
            *q, f, u, e, v) by {
                assert(q.graph.edges@[e as int] == q.edge_at(e));
                assert(node.out_edges@.contains(e));
                let j = choose|j: int| 0 <= j < node.out_edges@.len() && node.out_edges@[j] == e;
                assert(q.arc(true, u, node.out_edges@[j], v));
            }
        }
        assert forall|x: usize| #[trigger] f.contains_key(x) implies fr.open@.contains(
            entry(f, x),
        ) || closed_below(*q, max_cost, f, x) by {
            if x != u {
                assert(Some(u) != Some(x));
            }
        }
    }
    Ghost(ways)
}

/// The way to `u`, continued to `v`.
proof fn lemma_offer_push(
    q: Query,
    starts: Seq<(usize, u128)>,
    max_cost: u128,
    f: Map<usize, Label>,
    ways: Ways,
    u: usize,
    e: usize,
    v: usize,
)
    requires
        label_ok(q, starts, max_cost, f, ways, u),
        q.arc(true, u, e, v),
    ensures
        offer(q, starts, ways.way[u].0, ways.way[u].1.push(e), v, (f[u].g + q.step(e)) as nat),
        starts[ways.way[u].0].0 == f[u].origin,
{
    reveal(label_ok);
    let (wk, wes) = ways.way[u];
    let s = starts[wk].0;
    crate::search::lemma_walk_push(q, wes, s, e);
    crate::search::lemma_cost_push(q, wes, e);
    let es = wes.push(e);
    assert forall|i: int| 0 < i <= es.len() implies q.admits(#[trigger] q.node_at(es, s, i)) by {
        if i <= wes.len() {
            assert(es[i - 1] == wes[i - 1]);
            assert(q.node_at(es, s, i) == q.node_at(wes, s, i));
        }
    }
}

/// Taking an entry out of the queue leaves only its node uncovered.
proof fn lemma_pop(
    q: Query,
    starts: Seq<(usize, u128)>,
    max_cost: u128,
    f: Map<usize, Label>,
    open: Multiset<QueueItem>,
    w: Ways,
    last: u128,
    item: QueueItem,
)
    requires
        queue_ok(f, open, last),
        cover_ok(q, max_cost, f, open, None),
        open.contains(item),
        forall|y: QueueItem| #[trigger] open.contains(y) ==> item.cost <= y.cost,
    ensures
        queue_ok(f, open.remove(item), item.cost),
        cover_ok(q, max_cost, f, open.remove(item), Some(item.node)),
        item.g > f[item.node].g ==> cover_ok(q, max_cost, f, open.remove(item), None),
{
    let rest = open.remove(item);
    assert forall|x: QueueItem| #[trigger] rest.contains(x) implies open.contains(x) by {}
    assert forall|x: usize| #[trigger]
        f.contains_key(x) && Some(item.node) != Some(x) implies rest.contains(entry(f, x))
        || closed_below(q, max_cost, f, x) by {
        assert(entry(f, x) != item);
        assert(open.contains(entry(f, x)) || closed_below(q, max_cost, f, x));
    }
    if item.g > f[item.node].g {
        assert forall|x: usize| #[trigger] f.contains_key(x) implies rest.contains(entry(f, x))
            || closed_below(q, max_cost, f, x) by {
            assert(entry(f, x) != item);
            assert(open.contains(entry(f, x)) || closed_below(q, max_cost, f, x));
        }
    }
}

/// Whether the targets that are no longer wanted have labels that cannot improve.
spec fn settled(targets: Seq<usize>, wanted: Set<usize>, f: Map<usize, Label>, last: u128) -> bool {
    forall|t: usize| #[trigger]
        targets.contains(t) && !wanted.contains(t) ==> f.contains_key(t) && f[t].g <= last
}

proof fn lemma_settled_improves(
    targets: Seq<usize>,
    wanted: Set<usize>,
    f: Map<usize, Label>,
    g: Map<usize, Label>,
    last: u128,
)
    requires
        settled(targets, wanted, f, last),
        improves(f, g),
    ensures
        settled(targets, wanted, g, last),
{
    assert forall|t: usize| #[trigger] targets.contains(t) && !wanted.contains(t) implies g.contains_key(
        t,
    ) && g[t].g <= last by {
        assert(f.contains_key(t));
    }
}

/// What the result of a search over several starts and targets says.
pub open spec fn cheapest_targets(
    q: Query,
    starts: Seq<(usize, u128)>,
    targets: Seq<usize>,
    max_cost: u128,
    r: Map<usize, Label>,
) -> bool {
    &&& forall|t: usize| #[trigger]
        r.contains_key(t) ==> {
            &&& targets.contains(t)
            &&& r[t].g < max_cost
            &&& exists|k: int, es: Seq<usize>| #[trigger]
                offer(q, starts, k, es, t, r[t].g as nat) && starts[k].0 == r[t].origin
        }
    &&& forall|t: usize, k: int, es: Seq<usize>, cost: nat|
        targets.contains(t) && #[trigger] offer(q, starts, k, es, t, cost) && cost < max_cost
            ==> r.contains_key(t) && r[t].g <= cost
}

/// The cheapest way, in fifths of a cost unit, to each target that can be reached from one of
/// `starts` below `max_cost`, where each start comes with a cost of its own.
///
/// The result holds, for each such target, the cost and the start from which it is reached.
pub fn multi_target_dijkstra(
    graph: &Graph<NodePL, EdgePL>,
    starts: &[(NodeIndex, u128)],
    targets: &[NodeIndex],
    allowed_modes: u8,
    fallback_modes: u8,
    allowed_edges: Option<&IndexSet>,
    preferred_match: Option<&TransitMatch>,
    bounding_box: Option<BBox>,
    max_cost: u128,
) -> (r: Labels)
    requires
        graph.wf(),
        forall|k: int| 0 <= k < starts@.len() ==> (#[trigger] starts@[k]).0 < graph.nodes@.len(),
    ensures
        cheapest_targets(
            crate::pathfinding::query(
                graph,
                allowed_modes,
                fallback_modes,
                allowed_edges,
                preferred_match,
                bounding_box,
            ),
            starts@,
            targets@,
            max_cost,
            labels_of(r),
        ),
{
    let q = Query {
        graph,
        allowed_modes,
        fallback_modes,
        allowed_edges,
        preferred_match,
        bounding_box,
    };
    let (mut fr, first_ways) = seed(&q, starts, max_cost);
    let ghost mut ways = first_ways@;
    let (mut wanted, wanted_count): (IndexSet, usize) = collect(targets);
    let mut found: usize = 0;
    let ghost mut last: u128 = 0;
    let ghost mut left: Option<usize> = None;
    let ghost mut all_found = false;
    loop
        invariant_except_break
            left is None,
            !all_found,
            wanted_count == 0 || found < wanted_count,
        invariant
            q.graph == graph,
            graph.wf(),
            frontier_ok(q, starts@, max_cost, fr, ways, last, left),
            seeded(starts@, max_cost, labels_of(fr.labels), starts@.len() as int),
            found <= wanted_count,
            indices_of(wanted).finite(),
            indices_of(wanted).len() == wanted_count - found,
            settled(targets@, indices_of(wanted), labels_of(fr.labels), last),
        ensures
            left is Some ==> last <= labels_of(fr.labels)[left->0].g,
            all_found || left is None && fr.open@.len() == 0,
            all_found ==> indices_of(wanted).len() == 0,
        decreases
                crate::search::potential(
                    labels_of(fr.labels),
                    graph.nodes@.len(),
                    max_cost as nat,
                ),
                fr.open@.len(),
    {
        let ghost f0 = labels_of(fr.labels);
        let ghost o0 = fr.open@;
        let item = match fr.open.pop() {
            Some(x) => x,
            None => {
                break ;
            },
        };
        let u: usize = item.node;
        let g: u128 = item.g;
        proof {
            lemma_pop(q, starts@, max_cost, f0, o0, ways, last, item);
            assert(o0.contains(item));
            last = item.cost;
        }
        let current: u128 = match labels_get(&fr.labels, u) {
            Some(l) => l.g,
            None => 0,
        };
        if g > current {
            continue ;
        }
        if indices_remove(&mut wanted, u) {
            found = found + 1;
            if found == wanted_count {
                proof {
                    left = Some(u);
                    all_found = true;
                }
                break ;
            }
        }
        let new_ways = relax_from(
            &q,
            max_cost,
            &mut fr,
            u,
            g,
            item.origin,
            Ghost(starts@),
            Ghost(ways),
        );
        proof {
            ways = new_ways@;
            lemma_seeded_improves(
                starts@,
                max_cost,
                f0,
                labels_of(fr.labels),
                starts@.len() as int,
            );
            lemma_settled_improves(
                targets@,
                indices_of(wanted),
                f0,
                labels_of(fr.labels),
                last,
            );
        }
    }
    let result = select(targets, &fr.labels);
    proof {
        let f = labels_of(fr.labels);
        let r = labels_of(result);
        assert forall|t: usize| #[trigger] r.contains_key(t) implies {
            &&& targets@.contains(t)
            &&& r[t].g < max_cost
            &&& exists|k: int, es: Seq<usize>| #[trigger]
                offer(q, starts@, k, es, t, r[t].g as nat) && starts@[k].0 == r[t].origin
        } by {
            assert(f.contains_key(t));
            assert(label_ok(q, starts@, max_cost, f, ways, t));
            reveal(label_ok);
        }
        assert forall|t: usize, k: int, es: Seq<usize>, cost: nat|
            targets@.contains(t) && #[trigger] offer(q, starts@, k, es, t, cost) && cost
                < max_cost implies r.contains_key(t) && r[t].g <= cost by {
            if all_found {
                assert(indices_of(wanted) =~= Set::<usize>::empty());
                assert(!indices_of(wanted).contains(t));
            }
            lemma_done(
                q, starts@, max_cost, f, fr.open@, last, left, all_found, t, k, es, cost,
            );
            assert(labels_of(fr.labels).contains_key(t) && f[t].g <= cost);
            assert(labels_of(result).contains_key(t));
            assert(labels_of(result)[t] == labels_of(fr.labels)[t]);
        }
    }
    result
}

} // verus!
