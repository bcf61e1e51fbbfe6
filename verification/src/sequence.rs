//! The cheapest way through a sequence of stops, each with several places at which it may lie.

use crate::geometry::{BBox, Point};
use crate::graph::{EdgePL, Graph, NodePL, MODE_RAIL};
use crate::hashed::{
    indices_contains, indices_insert, indices_new, indices_of, labels_get, labels_of, slots_get,
    slots_insert, slots_new, slots_of, SlotIndex,
};
use crate::multi_target::{cheapest_targets, entered_walk, multi_target_dijkstra, offer};
use crate::pathfinding::{found, near_best, pathfind_with_context, query, PathfinderContext};
use crate::profiles::{bounds_of, padded_bounds};
use crate::search::{Query, TransitMatch};
use vstd::prelude::*;

verus! {

/// What is paid at most, in fifths of a cost unit, is less than this.
pub const MAX_SEQUENCE_COST: u128 = 5_000_000;

/// How far a search may stray from the places that it joins, in units of coordinates.
pub open spec fn margin_for(allowed_modes: u8) -> int {
    if allowed_modes == MODE_RAIL {
        5_000_000
    } else {
        1_000_000
    }
}

fn search_margin(allowed_modes: u8) -> (r: i32)
    ensures
        r == margin_for(allowed_modes),
{
    if allowed_modes == MODE_RAIL {
        5_000_000
    } else {
        1_000_000
    }
}

/// Where nodes lie.
pub open spec fn places(q: Query, nodes: Seq<usize>) -> Seq<Point> {
    Seq::new(nodes.len(), |i: int| q.graph.nodes@[nodes[i] as int].payload.point)
}

/// The query, confined to a box.
pub open spec fn within<'a>(q: Query<'a>, b: BBox) -> Query<'a> {
    query(
        q.graph,
        q.allowed_modes,
        q.fallback_modes,
        q.allowed_edges,
        q.preferred_match,
        Some(b),
    )
}

/// The query, confined to the surroundings of the places of two stops.
pub open spec fn stage<'a>(q: Query<'a>, prev: Seq<usize>, curr: Seq<usize>) -> Query<'a> {
    within(q, bounds_of(places(q, prev + curr), margin_for(q.allowed_modes)))
}

/// What it costs to get to a place, and from which place of the stop before.
pub type Reached = Option<(u128, usize)>;

/// Whether a place that was reached lies in the component of a node, or is that node.
pub open spec fn may_meet(q: Query, prev: Seq<usize>, costs: Seq<Reached>, n: usize) -> bool {
    exists|p: int|
        #![trigger costs[p]]
        0 <= p < prev.len() && costs[p] is Some && (prev[p] == n
            || q.graph.nodes@[prev[p] as int].payload.comp_id
            == q.graph.nodes@[n as int].payload.comp_id)
}

/// Whether a place is not named again behind itself.
pub open spec fn last_named(curr: Seq<usize>, k: int) -> bool {
    forall|j: int| #![trigger curr[j]] k < j < curr.len() ==> curr[j] != curr[k]
}

/// Whether the edges lead from a place that was reached to a node, at this total cost.
pub open spec fn leads_on(
    q: Query,
    prev: Seq<usize>,
    costs: Seq<Reached>,
    p: int,
    es: Seq<usize>,
    n: usize,
    cost: nat,
) -> bool {
    &&& 0 <= p < prev.len()
    &&& costs[p] matches Some(c) && {
        &&& entered_walk(q, es, prev[p], n)
        &&& cost == c.0 + q.cost(es)
    }
}

/// Whether a place is looked for.
pub open spec fn is_sought(
    q: Query,
    prev: Seq<usize>,
    costs: Seq<Reached>,
    curr: Seq<usize>,
    k: int,
) -> bool {
    &&& 0 <= k < curr.len()
    &&& last_named(curr, k)
    &&& may_meet(q, prev, costs, curr[k])
}

/// Whether costs are the least ones of getting from the places of one stop to those of the next.
pub open spec fn is_layer(
    q: Query,
    prev: Seq<usize>,
    costs: Seq<Reached>,
    curr: Seq<usize>,
    r: Seq<Reached>,
) -> bool {
    let s = stage(q, prev, curr);
    &&& r.len() == curr.len()
    &&& forall|k: int|
        #![trigger r[k]]
        0 <= k < r.len() ==> (r[k] matches Some(x) ==> {
            &&& is_sought(q, prev, costs, curr, k)
            &&& x.0 < MAX_SEQUENCE_COST
            &&& exists|es: Seq<usize>| #[trigger]
                leads_on(s, prev, costs, x.1 as int, es, curr[k], x.0 as nat)
        })
    &&& forall|k: int, p: int, es: Seq<usize>, cost: nat|
        is_sought(q, prev, costs, curr, k) && #[trigger] leads_on(
            s,
            prev,
            costs,
            p,
            es,
            curr[k],
            cost,
        ) && cost < MAX_SEQUENCE_COST ==> (r[k] matches Some(x) && x.0 <= cost)
}

spec fn cost_of(x: Reached) -> u128 {
    match x {
        Some(y) => y.0,
        None => 0,
    }
}

/// Whether a place was reached, at this node and this cost.
spec fn stands(prev: Seq<usize>, costs: Seq<Reached>, p: int, v: usize, c: u128) -> bool {
    0 <= p < prev.len() && prev[p] == v && (costs[p] matches Some(x) && x.0 == c)
}

/// Whether a place is the cheapest of the first `n` ones at a node.
spec fn is_cheapest(prev: Seq<usize>, costs: Seq<Reached>, n: int, e: int, v: usize) -> bool {
    &&& 0 <= e < n
    &&& costs[e] matches Some(x) && {
        &&& stands(prev, costs, e, v, x.0)
        &&& forall|p: int, c: u128| #[trigger]
            stands(prev, costs, p, v, c) && p < n ==> x.0 <= c
    }
}

/// Whether one of the first `n` places was reached at this node and this cost.
spec fn is_taken(prev: Seq<usize>, costs: Seq<Reached>, n: int, s: (usize, u128)) -> bool {
    exists|p: int| #[trigger] stands(prev, costs, p, s.0, s.1) && p < n
}

/// The places that were reached, each with its cost, as a search takes them.
spec fn starts_ok(
    prev: Seq<usize>,
    costs: Seq<Reached>,
    n: int,
    starts: Seq<(usize, u128)>,
    best: Map<usize, usize>,
) -> bool {
    &&& forall|j: int|
        #![trigger starts[j]]
        0 <= j < starts.len() ==> is_taken(prev, costs, n, starts[j])
    &&& forall|p: int, v: usize, c: u128| #[trigger]
        stands(prev, costs, p, v, c) && p < n ==> starts.contains((v, c)) && best.contains_key(v)
    &&& forall|v: usize| #[trigger]
        best.contains_key(v) ==> is_cheapest(prev, costs, n, best[v] as int, v)
}

/// Which places were reached, and the cheapest of those at each node.
fn collect_starts(prev: &Vec<usize>, costs: &Vec<Reached>) -> (r: (Vec<(usize, u128)>, SlotIndex))
    requires
        costs@.len() == prev@.len(),
    ensures
        starts_ok(prev@, costs@, prev@.len() as int, r.0@, slots_of(r.1)),
{
    let mut starts: Vec<(usize, u128)> = Vec::new();
    let mut best: SlotIndex = slots_new();
    let mut p: usize = 0;
    while p < prev.len()
        invariant
            costs@.len() == prev@.len(),
            p <= prev@.len(),
            starts_ok(prev@, costs@, p as int, starts@, slots_of(best)),
        decreases prev@.len() - p,
    {
        let ghost s0 = starts@;
        let ghost b0 = slots_of(best);
        if let Some((c, _)) = costs[p] {
            let v: usize = prev[p];
            starts.push((v, c));
            let better = match slots_get(&best, v) {
                Some(e) => match costs[e] {
                    Some((d, _)) => c < d,
                    None => true,
                },
                None => true,
            };
            if better {
                slots_insert(&mut best, v, p);
            }
            proof {
                let b1 = slots_of(best);
                assert(stands(prev@, costs@, p as int, v, c));
                assert(starts@[s0.len() as int] == (v, c));
                assert forall|j: int|
                    #![trigger starts@[j]]
                    0 <= j < starts@.len() implies is_taken(prev@, costs@, p + 1, starts@[j]) by {
                    if j < s0.len() {
                        assert(is_taken(prev@, costs@, p as int, s0[j]));
                        assert(starts@[j] == s0[j]);
                    } else {
                        assert(stands(prev@, costs@, p as int, starts@[j].0, starts@[j].1));
                    }
                }
                assert forall|i: int, w: usize, d: u128| #[trigger]
                    stands(prev@, costs@, i, w, d) && i < p + 1 implies starts@.contains((w, d))
                    && b1.contains_key(w) by {
                    if i < p {
                        let j = choose|j: int| 0 <= j < s0.len() && s0[j] == (w, d);
                        assert(starts@[j] == s0[j]);
                    }
                }
                assert forall|w: usize| #[trigger] b1.contains_key(w) implies is_cheapest(
                    prev@,
                    costs@,
                    p + 1,
                    b1[w] as int,
                    w,
                ) by {
                    if b0.contains_key(w) {
                        assert(is_cheapest(prev@, costs@, p as int, b0[w] as int, w));
                    }
                    if w == v && better {
                        assert forall|i: int, d: u128| #[trigger]
                            stands(prev@, costs@, i, w, d) && i < p + 1 implies c <= d by {
                            if i < p {
                                assert(b0.contains_key(w));
                            }
                        }
                    }
                }
            }
        } else {
            assert(costs@[p as int] is None);
            assert forall|j: int| #![trigger s0[j]] 0 <= j < s0.len() implies is_taken(
                prev@,
                costs@,
                p + 1,
                s0[j],
            ) by {
                assert(is_taken(prev@, costs@, p as int, s0[j]));
            }
            assert forall|w: usize| #[trigger] b0.contains_key(w) implies is_cheapest(
                prev@,
                costs@,
                p + 1,
                b0[w] as int,
                w,
            ) by {
                assert(is_cheapest(prev@, costs@, p as int, b0[w] as int, w));
            }
        }
        p = p + 1;
    }
    (starts, best)
}

/// Whether one of the starts lies in the component of a node, or is that node.
fn meets_any(graph: &Graph<NodePL, EdgePL>, starts: &Vec<(usize, u128)>, n: usize) -> (r: bool)
    requires
        n < graph.nodes@.len(),
        forall|j: int| 0 <= j < starts@.len() ==> (#[trigger] starts@[j]).0 < graph.nodes@.len(),
    ensures
        r == exists|j: int|
            #![trigger starts@[j]]
            0 <= j < starts@.len() && (starts@[j].0 == n || graph.nodes@[starts@[j].0 as
                int].payload.comp_id == graph.nodes@[n as int].payload.comp_id),
{
    let comp = graph.nodes[n].payload.comp_id;
    let mut j: usize = 0;
    while j < starts.len()
        invariant
            n < graph.nodes@.len(),
            comp == graph.nodes@[n as int].payload.comp_id,
            j <= starts@.len(),
            forall|i: int|
                0 <= i < starts@.len() ==> (#[trigger] starts@[i]).0 < graph.nodes@.len(),
            forall|i: int|
                #![trigger starts@[i]]
                0 <= i < j ==> starts@[i].0 != n && graph.nodes@[starts@[i].0 as
                    int].payload.comp_id != graph.nodes@[n as int].payload.comp_id,
        decreases starts@.len() - j,
    {
        let s: usize = starts[j].0;
        if graph.nodes[s].payload.comp_id == comp || s == n {
            return true;
        }
        j = j + 1;
    }
    false
}

fn nodes_at(
    graph: &Graph<NodePL, EdgePL>,
    prev: &Vec<usize>,
    curr: &Vec<usize>,
    Ghost(q): Ghost<Query>,
) -> (r: Vec<Point>)
    requires
        q.graph == graph,
        forall|j: int| 0 <= j < prev@.len() ==> (#[trigger] prev@[j]) < graph.nodes@.len(),
        forall|j: int| 0 <= j < curr@.len() ==> (#[trigger] curr@[j]) < graph.nodes@.len(),
    ensures
        r@ == places(q, prev@ + curr@),
{
    let mut r: Vec<Point> = Vec::new();
    let mut i: usize = 0;
    while i < prev.len()
        invariant
            q.graph == graph,
            i <= prev@.len(),
            forall|j: int| 0 <= j < prev@.len() ==> (#[trigger] prev@[j]) < graph.nodes@.len(),
            r@ =~= places(q, prev@.take(i as int)),
        decreases prev@.len() - i,
    {
        assert(prev@[i as int] < graph.nodes@.len());
        r.push(graph.nodes[prev[i]].payload.point);
        i = i + 1;
    }
    i = 0;
    while i < curr.len()
        invariant
            q.graph == graph,
            i <= curr@.len(),
            forall|j: int| 0 <= j < curr@.len() ==> (#[trigger] curr@[j]) < graph.nodes@.len(),
            r@ =~= places(q, prev@ + curr@.take(i as int)),
        decreases curr@.len() - i,
    {
        assert(curr@[i as int] < graph.nodes@.len());
        r.push(graph.nodes[curr[i]].payload.point);
        i = i + 1;
    }
    assert(curr@.take(i as int) =~= curr@);
    r
}

/// The least costs of getting from the places of one stop to those of the next.
pub fn advance(
    graph: &Graph<NodePL, EdgePL>,
    prev: &Vec<usize>,
    costs: &Vec<Reached>,
    curr: &Vec<usize>,
    allowed_modes: u8,
    fallback_modes: u8,
    preferred_match: Option<&TransitMatch>,
) -> (r: Vec<Reached>)
    requires
        graph.wf(),
        costs@.len() == prev@.len(),
        forall|j: int| 0 <= j < prev@.len() ==> (#[trigger] prev@[j]) < graph.nodes@.len(),
        forall|j: int| 0 <= j < curr@.len() ==> (#[trigger] curr@[j]) < graph.nodes@.len(),
    ensures
        is_layer(
            query(graph, allowed_modes, fallback_modes, None, preferred_match, None),
            prev@,
            costs@,
            curr@,
            r@,
        ),
{
    let ghost q = query(graph, allowed_modes, fallback_modes, None, preferred_match, None);
    let ghost s = stage(q, prev@, curr@);
    let (starts, best) = collect_starts(prev, costs);
    let mut targets: Vec<usize> = Vec::new();
    let mut k: usize = 0;
    assert forall|j: int| 0 <= j < starts@.len() implies (#[trigger] starts@[j]).0
        < graph.nodes@.len() by {
        let p = choose|p: int| #[trigger]
            stands(prev@, costs@, p, starts@[j].0, starts@[j].1) && p < prev@.len();
        assert(prev@[p] < graph.nodes@.len());
    }
    while k < curr.len()
        invariant
            k <= curr@.len(),
            q == query(graph, allowed_modes, fallback_modes, None, preferred_match, None),
            forall|j: int|
                0 <= j < starts@.len() ==> (#[trigger] starts@[j]).0 < graph.nodes@.len(),
            forall|j: int| 0 <= j < curr@.len() ==> (#[trigger] curr@[j]) < graph.nodes@.len(),
            starts_ok(prev@, costs@, prev@.len() as int, starts@, slots_of(best)),
            costs@.len() == prev@.len(),
            forall|j: int|
                #![trigger curr@[j]]
                0 <= j < k && may_meet(q, prev@, costs@, curr@[j]) ==> targets@.contains(curr@[j]),
            forall|j: int|
                #![trigger targets@[j]]
                0 <= j < targets@.len() ==> may_meet(q, prev@, costs@, targets@[j]),
        decreases curr@.len() - k,
    {
        assert(curr@[k as int] < graph.nodes@.len());
        let n: usize = curr[k];
        let meets = meets_any(graph, &starts, n);
        let ghost t0 = targets@;
        proof {
            if meets {
                let j = choose|j: int|
                    #![trigger starts@[j]]
                    0 <= j < starts@.len() && (starts@[j].0 == n || graph.nodes@[starts@[j].0 as
                        int].payload.comp_id == graph.nodes@[n as int].payload.comp_id);
                let p = choose|p: int| #[trigger]
                    stands(prev@, costs@, p, starts@[j].0, starts@[j].1) && p < prev@.len();
                assert(costs@[p] is Some);
                assert(may_meet(q, prev@, costs@, n));
            } else if may_meet(q, prev@, costs@, n) {
                let p = choose|p: int|
                    #![trigger costs@[p]]
                    0 <= p < prev@.len() && costs@[p] is Some && (prev@[p] == n
                        || q.graph.nodes@[prev@[p] as int].payload.comp_id
                        == q.graph.nodes@[n as int].payload.comp_id);
                let c = cost_of(costs@[p]);
                assert(stands(prev@, costs@, p, prev@[p], c));
                let j = choose|j: int| 0 <= j < starts@.len() && starts@[j] == (prev@[p], c);
                assert(starts@[j].0 == prev@[p]);
            }
        }
        if meets {
            targets.push(n);
            assert forall|j: int|
                #![trigger curr@[j]]
                0 <= j < k + 1 && may_meet(q, prev@, costs@, curr@[j]) implies targets@.contains(
                curr@[j],
            ) by {
                if j < k {
                    let i = choose|i: int| 0 <= i < t0.len() && t0[i] == curr@[j];
                    assert(targets@[i] == curr@[j]);
                } else {
                    assert(targets@[t0.len() as int] == curr@[j]);
                }
            }
        }
        k = k + 1;
    }
    let mut r: Vec<Reached> = Vec::new();
    k = 0;
    while k < curr.len()
        invariant
            k <= curr@.len(),
            r@.len() == k,
            forall|j: int| 0 <= j < k ==> #[trigger] r@[j] is None,
        decreases curr@.len() - k,
    {
        r.push(None);
        k = k + 1;
    }
    if targets.len() == 0 {
        proof {
            assert forall|k: int| #[trigger] is_sought(q, prev@, costs@, curr@, k) implies false by {
                assert(targets@.contains(curr@[k]));
            }
        }
        return r;
    }
    let points = nodes_at(graph, prev, curr, Ghost(q));
    let bounds = padded_bounds(&points, search_margin(allowed_modes));
    proof {
        assert(may_meet(q, prev@, costs@, targets@[0]));
        let p = choose|p: int|
            #![trigger costs@[p]]
            0 <= p < prev@.len() && costs@[p] is Some && (prev@[p] == targets@[0]
                || q.graph.nodes@[prev@[p] as int].payload.comp_id
                == q.graph.nodes@[targets@[0] as int].payload.comp_id);
        assert(prev@.len() > 0);
        assert(points@.len() > 0);
    }
    let found = multi_target_dijkstra(
        graph,
        starts.as_slice(),
        targets.as_slice(),
        allowed_modes,
        fallback_modes,
        None,
        preferred_match,
        bounds,
        MAX_SEQUENCE_COST,
    );
    let ghost f = labels_of(found);
    let ghost b = slots_of(best);
    assert(cheapest_targets(s, starts@, targets@, MAX_SEQUENCE_COST, f));
    let mut seen = indices_new();
    k = curr.len();
    while k > 0
        invariant
            k <= curr@.len(),
            r@.len() == curr@.len(),
            costs@.len() == prev@.len(),
            q == query(graph, allowed_modes, fallback_modes, None, preferred_match, None),
            s == stage(q, prev@, curr@),
            f == labels_of(found),
            b == slots_of(best),
            cheapest_targets(s, starts@, targets@, MAX_SEQUENCE_COST, f),
            starts_ok(prev@, costs@, prev@.len() as int, starts@, b),
            forall|j: int|
                #![trigger curr@[j]]
                0 <= j < curr@.len() && may_meet(q, prev@, costs@, curr@[j]) ==> targets@.contains(
                    curr@[j],
                ),
            forall|j: int|
                #![trigger targets@[j]]
                0 <= j < targets@.len() ==> may_meet(q, prev@, costs@, targets@[j]),
            forall|j: int|
                #![trigger curr@[j]]
                k <= j < curr@.len() ==> indices_of(seen).contains(curr@[j]),
            forall|v: usize| #[trigger]
                indices_of(seen).contains(v) ==> exists|j: int|
                    #![trigger curr@[j]]
                    k <= j < curr@.len() && curr@[j] == v,
            forall|j: int| 0 <= j < k ==> #[trigger] r@[j] is None,
            forall|j: int|
                #![trigger r@[j]]
                k <= j < r@.len() ==> reached_ok(q, s, prev@, costs@, curr@, j, r@[j]),
        decreases k,
    {
        k = k - 1;
        let ghost r0 = r@;
        let ghost mut way: Seq<usize> = Seq::empty();
        let n: usize = curr[k];
        let later = indices_contains(&seen, n);
        indices_insert(&mut seen, n);
        proof {
            if later {
                assert(!last_named(curr@, k as int));
            } else {
                assert(last_named(curr@, k as int));
            }
            assert forall|v: usize| #[trigger] indices_of(seen).contains(v) implies exists|j: int|
                #![trigger curr@[j]]
                k <= j < curr@.len() && curr@[j] == v by {
                if v == n {
                    assert(curr@[k as int] == v);
                }
            }
        }
        let label = labels_get(&found, n);
        if !later {
            if let Some(l) = label {
                proof {
                    assert(f.contains_key(n));
                    let (j, es) = choose|j: int, es: Seq<usize>| #[trigger]
                        offer(s, starts@, j, es, n, l.g as nat) && starts@[j].0 == l.origin;
                    lemma_parent(s, prev@, costs@, starts@, b, targets@, f, n, j, es);
                    assert(targets@.contains(n));
                    let i = choose|i: int| 0 <= i < targets@.len() && targets@[i] == n;
                    assert(may_meet(q, prev@, costs@, targets@[i]));
                    assert(is_sought(q, prev@, costs@, curr@, k as int));
                }
                let parent = slots_get(&best, l.origin);
                if let Some(p) = parent {
                    r.set(k, Some((l.g, p)));
                    proof {
                        let (j, es) = choose|j: int, es: Seq<usize>| #[trigger]
                            offer(s, starts@, j, es, n, l.g as nat) && starts@[j].0 == l.origin;
                        lemma_parent(s, prev@, costs@, starts@, b, targets@, f, n, j, es);
                        assert(leads_on(s, prev@, costs@, p as int, es, n, l.g as nat));
                        way = es;
                    }
                }
            }
        }
        proof {
            if is_sought(q, prev@, costs@, curr@, k as int) {
                assert(targets@.contains(n));
                assert forall|p: int, es: Seq<usize>, cost: nat| #[trigger]
                    leads_on(s, prev@, costs@, p, es, n, cost) && cost < MAX_SEQUENCE_COST implies f.contains_key(
                n) && f[n].g <= cost by {
                    let c = cost_of(costs@[p]);
                    assert(stands(prev@, costs@, p, prev@[p], c));
                    let j = choose|j: int| 0 <= j < starts@.len() && starts@[j] == (prev@[p], c);
                    assert(offer(s, starts@, j, es, n, cost));
                }
            }
            if r@[k as int] is Some {
                assert(is_sought(q, prev@, costs@, curr@, k as int));
                let y = r@[k as int]->0;
                assert(leads_on(s, prev@, costs@, y.1 as int, way, n, y.0 as nat));
            }
            if is_sought(q, prev@, costs@, curr@, k as int) && f.contains_key(n) {
                assert(r@[k as int] is Some);
            }
            assert(reached_ok(q, s, prev@, costs@, curr@, k as int, r@[k as int]));
            assert forall|j: int|
                #![trigger r@[j]]
                k <= j < r@.len() implies reached_ok(q, s, prev@, costs@, curr@, j, r@[j]) by {
                if j > k {
                    assert(r@[j] == r0[j]);
                }
            }
        }
    }
    proof {
        assert forall|k: int, p: int, es: Seq<usize>, cost: nat|
            is_sought(q, prev@, costs@, curr@, k) && #[trigger] leads_on(
                s,
                prev@,
                costs@,
                p,
                es,
                curr@[k],
                cost,
            ) && cost < MAX_SEQUENCE_COST implies (r@[k] matches Some(x) && x.0 <= cost) by {
            assert(reached_ok(q, s, prev@, costs@, curr@, k, r@[k]));
        }
        assert forall|k: int| #![trigger r@[k]] 0 <= k < r@.len() implies (r@[k] matches Some(x)
            ==> {
            &&& is_sought(q, prev@, costs@, curr@, k)
            &&& x.0 < MAX_SEQUENCE_COST
            &&& exists|es: Seq<usize>| #[trigger]
                leads_on(s, prev@, costs@, x.1 as int, es, curr@[k], x.0 as nat)
        }) by {
            assert(reached_ok(q, s, prev@, costs@, curr@, k, r@[k]));
        }
    }
    r
}

/// What holds of one entry of a layer.
spec fn reached_ok(
    q: Query,
    s: Query,
    prev: Seq<usize>,
    costs: Seq<Reached>,
    curr: Seq<usize>,
    k: int,
    x: Reached,
) -> bool {
    &&& x matches Some(y) ==> {
        &&& is_sought(q, prev, costs, curr, k)
        &&& y.0 < MAX_SEQUENCE_COST
        &&& exists|es: Seq<usize>| #[trigger]
            leads_on(s, prev, costs, y.1 as int, es, curr[k], y.0 as nat)
    }
    &&& forall|p: int, es: Seq<usize>, cost: nat|
        is_sought(q, prev, costs, curr, k) && #[trigger] leads_on(
            s,
            prev,
            costs,
            p,
            es,
            curr[k],
            cost,
        ) && cost < MAX_SEQUENCE_COST ==> (x matches Some(y) && y.0 <= cost)
}

/// The cheapest place at the node from which a label came explains the label.
proof fn lemma_parent(
    s: Query,
    prev: Seq<usize>,
    costs: Seq<Reached>,
    starts: Seq<(usize, u128)>,
    best: Map<usize, usize>,
    targets: Seq<usize>,
    f: Map<usize, crate::hashed::Label>,
    n: usize,
    j: int,
    es: Seq<usize>,
)
    requires
        costs.len() == prev.len(),
        starts_ok(prev, costs, prev.len() as int, starts, best),
        cheapest_targets(s, starts, targets, MAX_SEQUENCE_COST, f),
        f.contains_key(n),
        offer(s, starts, j, es, n, f[n].g as nat),
        starts[j].0 == f[n].origin,
    ensures
        best.contains_key(f[n].origin),
        leads_on(s, prev, costs, best[f[n].origin] as int, es, n, f[n].g as nat),
{
    let v = f[n].origin;
    let e = best[v] as int;
    let p = choose|p: int| #[trigger]
        stands(prev, costs, p, starts[j].0, starts[j].1) && p < prev.len();
    assert(is_cheapest(prev, costs, prev.len() as int, e, v));
    let c = cost_of(costs[e]);
    assert(stands(prev, costs, e, v, c));
    let i = choose|i: int| 0 <= i < starts.len() && starts[i] == (v, c);
    let cost = (starts[i].1 + s.cost(es)) as nat;
    assert(offer(s, starts, i, es, n, cost));
    assert(f[n].g <= cost);
}

/// The places of the stops, without the vectors that hold them.
pub open spec fn stops_of(stops: Seq<Vec<usize>>) -> Seq<Seq<usize>> {
    Seq::new(stops.len(), |i: int| stops[i]@)
}

/// Whether these are the least costs of getting to each place of each stop. Beginning at a place of the
/// first stop costs nothing.
pub open spec fn is_table(q: Query, stops: Seq<Seq<usize>>, table: Seq<Seq<Reached>>) -> bool {
    &&& table.len() == stops.len()
    &&& stops.len() > 0 ==> {
        &&& table[0].len() == stops[0].len()
        &&& forall|k: int| 0 <= k < stops[0].len() ==> #[trigger] table[0][k] == Some((0u128, 0usize))
    }
    &&& forall|i: int|
        #![trigger table[i]]
        0 < i < stops.len() ==> is_layer(q, stops[i - 1], table[i - 1], stops[i], table[i])
}

/// Whether no place of a stop can be reached.
pub open spec fn is_dead(layer: Seq<Reached>) -> bool {
    forall|k: int| 0 <= k < layer.len() ==> #[trigger] layer[k] is None
}

/// The course of an edge behind its first point.
pub open spec fn edge_tail(q: Query, e: usize) -> Seq<Point> {
    let g = q.edge_at(e).payload.geometry@;
    if g.len() == 0 {
        g
    } else {
        g.skip(1)
    }
}

/// The courses of the first `n` edges of a path, each behind its first point.
pub open spec fn path_points(q: Query, es: Seq<usize>, n: int) -> Seq<Point>
    decreases n,
{
    if n <= 0 {
        Seq::empty()
    } else {
        path_points(q, es, n - 1) + edge_tail(q, es[n - 1])
    }
}

/// Whether a path is the one that a search between two nodes gives.
pub open spec fn is_way(
    q: Query,
    a: usize,
    b: usize,
    cos_a: u32,
    cos_b: u32,
    path: Seq<usize>,
) -> bool {
    &&& found(q, a, b, cos_a, cos_b) matches Some(f) && f.1 == path && near_best(
        q,
        a,
        b,
        cos_a,
        cos_b,
        f.0,
    ) && q.cost(path) <= f.0
    &&& q.open_walk(path, a, b)
}

/// A choice of a place for each stop, and of a path to each but the first.
pub struct Route {
    pub places: Seq<int>,
    pub paths: Seq<Seq<usize>>,
}

impl Route {
    /// The node chosen for a stop.
    pub open spec fn node(&self, stops: Seq<Seq<usize>>, i: int) -> usize {
        stops[i][self.places[i]]
    }

    /// The points of the route up to a stop. Between two stops at the same node nothing is drawn.
    pub open spec fn drawn(&self, q: Query, stops: Seq<Seq<usize>>, i: int) -> Seq<Point>
        decreases i,
    {
        if i <= 0 {
            seq![q.graph.nodes@[self.node(stops, 0) as int].payload.point]
        } else if self.node(stops, i - 1) == self.node(stops, i) {
            self.drawn(q, stops, i - 1)
        } else {
            self.drawn(q, stops, i - 1) + path_points(q, self.paths[i], self.paths[i].len() as int)
        }
    }

    /// Whether the choice of a place is the one from which the next place got its cost.
    pub open spec fn follows(&self, table: Seq<Seq<Reached>>, i: int) -> bool {
        table[i][self.places[i]] matches Some(x) && x.1 == self.places[i - 1]
    }

    /// Whether the path to a stop is the one that a search from the stop before gives.
    pub open spec fn is_found(
        &self,
        q: Query,
        stops: Seq<Seq<usize>>,
        cosines: Seq<Seq<u32>>,
        i: int,
    ) -> bool {
        let a = self.node(stops, i - 1);
        let b = self.node(stops, i);
        let cos_a = cosines[i - 1][self.places[i - 1]];
        let cos_b = cosines[i][self.places[i]];
        a != b ==> is_way(q, a, b, cos_a, cos_b, self.paths[i])
    }

    /// Whether the route ends at the first of the cheapest places of the last stop, and each place before
    /// is the one from which the next got its cost.
    pub open spec fn is_best(&self, stops: Seq<Seq<usize>>, table: Seq<Seq<Reached>>) -> bool {
        let n = stops.len();
        &&& self.places.len() == n
        &&& forall|i: int|
            0 <= i < n ==> 0 <= #[trigger] self.places[i] < stops[i].len()
        &&& is_first_least(table[n - 1], self.places[n - 1])
        &&& forall|i: int| 0 < i < n ==> #[trigger] self.follows(table, i)
    }
}

/// Whether an entry is the first of the cheapest ones.
pub open spec fn is_first_least(layer: Seq<Reached>, k: int) -> bool {
    &&& 0 <= k < layer.len()
    &&& layer[k] matches Some(x) && {
        &&& forall|j: int|
            #![trigger layer[j]]
            0 <= j < k ==> (layer[j] matches Some(y) ==> y.0 > x.0)
        &&& forall|j: int|
            #![trigger layer[j]]
            k <= j < layer.len() ==> (layer[j] matches Some(y) ==> y.0 >= x.0)
    }
}

fn is_all_none(layer: &Vec<Reached>) -> (r: bool)
    ensures
        r == is_dead(layer@),
{
    let mut k: usize = 0;
    while k < layer.len()
        invariant
            k <= layer@.len(),
            forall|j: int| 0 <= j < k ==> #[trigger] layer@[j] is None,
        decreases layer@.len() - k,
    {
        if layer[k].is_some() {
            assert(layer@[k as int] is Some);
            return false;
        }
        k = k + 1;
    }
    true
}

fn first_least(layer: &Vec<Reached>) -> (r: Option<usize>)
    ensures
        match r {
            Some(k) => is_first_least(layer@, k as int),
            None => is_dead(layer@),
        },
{
    let mut best: Option<(usize, u128)> = None;
    let mut k: usize = 0;
    while k < layer.len()
        invariant
            k <= layer@.len(),
            match best {
                Some((b, c)) => {
                    &&& b < k
                    &&& layer@[b as int] matches Some(x) && x.0 == c
                    &&& forall|j: int|
                        #![trigger layer@[j]]
                        0 <= j < b ==> (layer@[j] matches Some(y) ==> y.0 > c)
                    &&& forall|j: int|
                        #![trigger layer@[j]]
                        b <= j < k ==> (layer@[j] matches Some(y) ==> y.0 >= c)
                },
                None => forall|j: int| 0 <= j < k ==> #[trigger] layer@[j] is None,
            },
        decreases layer@.len() - k,
    {
        if let Some((c, _)) = layer[k] {
            let better = match best {
                Some((_, d)) => c < d,
                None => true,
            };
            if better {
                best = Some((k, c));
            }
        }
        k = k + 1;
    }
    match best {
        Some((b, _)) => Some(b),
        None => None,
    }
}

proof fn lemma_walk_within(q: Query, b: BBox, es: Seq<usize>, s: usize, t: usize)
    ensures
        within(q, b).walk(es, s, t) == q.walk(es, s, t),
    decreases es.len(),
{
    if es.len() > 0 {
        lemma_walk_within(q, b, es.drop_last(), s, q.edge_at(es.last()).from);
    }
}

pub(crate) fn append_path(
    points: &mut Vec<Point>,
    graph: &Graph<NodePL, EdgePL>,
    path: &Vec<usize>,
    Ghost(q): Ghost<Query>,
)
    requires
        q.graph == graph,
        forall|j: int| 0 <= j < path@.len() ==> (#[trigger] path@[j]) < graph.edges@.len(),
    ensures
        final(points)@ == old(points)@ + path_points(q, path@, path@.len() as int),
{
    let ghost p0 = points@;
    let mut j: usize = 0;
    assert(points@ =~= p0 + path_points(q, path@, 0));
    while j < path.len()
        invariant
            q.graph == graph,
            j <= path@.len(),
            forall|i: int| 0 <= i < path@.len() ==> (#[trigger] path@[i]) < graph.edges@.len(),
            points@ == p0 + path_points(q, path@, j as int),
        decreases path@.len() - j,
    {
        assert(path@[j as int] < graph.edges@.len());
        let e: usize = path[j];
        let geometry = &graph.edges[e].payload.geometry;
        let ghost p1 = points@;
        let ghost tail = edge_tail(q, e);
        let mut i: usize = 1;
        assert(tail.take(0) =~= Seq::empty());
        while i < geometry.len()
            invariant
                1 <= i,
                i <= geometry@.len() || i == 1,
                tail == (if geometry@.len() == 0 {
                    geometry@
                } else {
                    geometry@.skip(1)
                }),
                points@ =~= p1 + tail.take(i - 1),
            decreases geometry@.len() - i,
        {
            points.push(geometry[i]);
            i = i + 1;
        }
        assert(tail.take(i - 1) =~= tail);
        assert(points@ =~= p0 + path_points(q, path@, j + 1));
        j = j + 1;
    }
}

pub(crate) proof fn lemma_walk_usable(q: Query, es: Seq<usize>, s: usize, t: usize, j: int)
    requires
        q.walk(es, s, t),
        0 <= j < es.len(),
    ensures
        es[j] < q.graph.edges@.len(),
    decreases es.len(),
{
    if j < es.len() - 1 {
        lemma_walk_usable(q, es.drop_last(), s, q.edge_at(es.last()).from, j);
        assert(es.drop_last()[j] == es[j]);
    }
}

/// A place that was reached can be reached without bounds from the place that it names.
proof fn lemma_open(
    q: Query,
    prev: Seq<usize>,
    costs: Seq<Reached>,
    curr: Seq<usize>,
    layer: Seq<Reached>,
    k: int,
)
    requires
        q.bounding_box is None,
        is_layer(q, prev, costs, curr, layer),
        0 <= k < layer.len(),
        layer[k] is Some,
    ensures
        layer[k] matches Some(x) && x.1 < prev.len() && costs[x.1 as int] is Some && exists|
            es: Seq<usize>,
        | #[trigger]
            q.open_walk(es, prev[x.1 as int], curr[k]),
{
    let x = layer[k]->0;
    let s = stage(q, prev, curr);
    let es = choose|es: Seq<usize>| #[trigger]
        leads_on(s, prev, costs, x.1 as int, es, curr[k], x.0 as nat);
    lemma_walk_within(
        q,
        bounds_of(places(q, prev + curr), margin_for(q.allowed_modes)),
        es,
        prev[x.1 as int],
        curr[k],
    );
    assert(q.open_walk(es, prev[x.1 as int], curr[k]));
}

/// The path that a search finds between two nodes of which one can be reached from the other.
fn path_between(
    ctx: &mut PathfinderContext,
    graph: &Graph<NodePL, EdgePL>,
    a: usize,
    b: usize,
    allowed_modes: u8,
    fallback_modes: u8,
    preferred_match: Option<&TransitMatch>,
    cos_a: u32,
    cos_b: u32,
) -> (path: Vec<usize>)
    requires
        graph.wf(),
        a < graph.nodes@.len(),
        b < graph.nodes@.len(),
        cos_a <= 1_000_000_000,
        cos_b <= 1_000_000_000,
        exists|es: Seq<usize>| #[trigger]
            query(graph, allowed_modes, fallback_modes, None, preferred_match, None).open_walk(
                es,
                a,
                b,
            ),
    ensures
        is_way(
            query(graph, allowed_modes, fallback_modes, None, preferred_match, None),
            a,
            b,
            cos_a,
            cos_b,
            path@,
        ),
{
    match pathfind_with_context(
        ctx,
        graph,
        a,
        b,
        allowed_modes,
        fallback_modes,
        None,
        preferred_match,
        None,
        cos_a,
        cos_b,
    ) {
        Some((_, path)) => path,
        None => Vec::new(),
    }
}

spec fn picks_of(chosen: Seq<usize>) -> Seq<int> {
    chosen.map_values(|c: usize| c as int)
}

/// Whether the node chosen for a stop can be reached from the one chosen for the stop before.
spec fn is_linked(q: Query, stops: Seq<Seq<usize>>, places: Seq<int>, i: int) -> bool {
    exists|es: Seq<usize>| #[trigger]
        q.open_walk(es, stops[i - 1][places[i - 1]], stops[i][places[i]])
}

spec fn all_found(
    q: Query,
    stops: Seq<Seq<usize>>,
    cos: Seq<Seq<u32>>,
    route: Route,
    n: int,
) -> bool {
    forall|i: int| 0 < i < n ==> #[trigger] route.is_found(q, stops, cos, i)
}

/// Draws the route through the chosen places.
fn draw_route(
    stop_candidates: &Vec<Vec<usize>>,
    chosen: &Vec<usize>,
    graph: &Graph<NodePL, EdgePL>,
    allowed_modes: u8,
    fallback_modes: u8,
    preferred_match: Option<&TransitMatch>,
    cosines: &Vec<Vec<u32>>,
    ctx: &mut PathfinderContext,
) -> (r: (Vec<Point>, Ghost<Seq<Seq<usize>>>))
    requires
        graph.wf(),
        stop_candidates@.len() > 0,
        chosen@.len() == stop_candidates@.len(),
        cosines@.len() == stop_candidates@.len(),
        forall|j: int|
            0 <= j < chosen@.len() ==> (#[trigger] chosen@[j]) < stop_candidates@[j]@.len(),
        forall|i: int, k: int|
            0 <= i < stop_candidates@.len() && 0 <= k < stop_candidates@[i]@.len() ==> (
            #[trigger] stop_candidates@[i]@[k]) < graph.nodes@.len(),
        forall|i: int|
            0 <= i < cosines@.len() ==> (#[trigger] cosines@[i])@.len()
                == stop_candidates@[i]@.len(),
        forall|i: int, k: int|
            0 <= i < cosines@.len() && 0 <= k < cosines@[i]@.len() ==> (
            #[trigger] cosines@[i]@[k]) <= 1_000_000_000,
        forall|i: int|
            0 < i < chosen@.len() ==> #[trigger] is_linked(
                query(graph, allowed_modes, fallback_modes, None, preferred_match, None),
                stops_of(stop_candidates@),
                picks_of(chosen@),
                i,
            ),
    ensures
        ({
            let q = query(graph, allowed_modes, fallback_modes, None, preferred_match, None);
            let stops = stops_of(stop_candidates@);
            let cos = Seq::new(cosines@.len(), |i: int| cosines@[i]@);
            let route = Route { places: picks_of(chosen@), paths: r.1@ };
            &&& all_found(q, stops, cos, route, stops.len() as int)
            &&& r.0@ == route.drawn(q, stops, stops.len() - 1)
        }),
{
    let n: usize = stop_candidates.len();
    let ghost q = query(graph, allowed_modes, fallback_modes, None, preferred_match, None);
    let ghost stops = stops_of(stop_candidates@);
    let ghost cos = Seq::new(cosines@.len(), |i: int| cosines@[i]@);
    let ghost picks = picks_of(chosen@);
    let ghost mut route = Route { places: picks, paths: Seq::new(n as nat, |i: int| Seq::empty()) };
    let mut points: Vec<Point> = Vec::new();
    assert(chosen@[0] < stop_candidates@[0]@.len());
    assert(stop_candidates@[0]@[chosen@[0] as int] < graph.nodes@.len());
    points.push(graph.nodes[stop_candidates[0][chosen[0]]].payload.point);
    assert(points@ =~= route.drawn(q, stops, 0));
    let mut i: usize = 1;
    while i < n
        invariant
            1 <= i <= n,
            n == stop_candidates@.len(),
            graph.wf(),
            q == query(graph, allowed_modes, fallback_modes, None, preferred_match, None),
            stops == stops_of(stop_candidates@),
            cos == Seq::new(cosines@.len(), |i: int| cosines@[i]@),
            picks == picks_of(chosen@),
            chosen@.len() == n,
            cosines@.len() == n,
            forall|j: int|
                0 <= j < chosen@.len() ==> (#[trigger] chosen@[j]) < stop_candidates@[j]@.len(),
            forall|i: int, k: int|
                0 <= i < stop_candidates@.len() && 0 <= k < stop_candidates@[i]@.len() ==> (
                #[trigger] stop_candidates@[i]@[k]) < graph.nodes@.len(),
            forall|i: int|
                0 <= i < cosines@.len() ==> (#[trigger] cosines@[i])@.len()
                    == stop_candidates@[i]@.len(),
            forall|i: int, k: int|
                0 <= i < cosines@.len() && 0 <= k < cosines@[i]@.len() ==> (
                #[trigger] cosines@[i]@[k]) <= 1_000_000_000,
            forall|i: int| 0 < i < n ==> #[trigger] is_linked(q, stops, picks, i),
            route.places == picks,
            route.paths.len() == n,
            all_found(q, stops, cos, route, i as int),
            points@ == route.drawn(q, stops, i - 1),
        decreases n - i,
    {
        let a_k: usize = chosen[i - 1];
        let b_k: usize = chosen[i];
        assert(chosen@[i - 1] < stop_candidates@[i - 1]@.len());
        assert(chosen@[i as int] < stop_candidates@[i as int]@.len());
        let a: usize = stop_candidates[i - 1][a_k];
        let b: usize = stop_candidates[i][b_k];
        assert(stop_candidates@[i - 1]@[a_k as int] < graph.nodes@.len());
        assert(stop_candidates@[i as int]@[b_k as int] < graph.nodes@.len());
        let ghost r0 = route;
        if a != b {
            assert(cosines@[i - 1]@.len() == stop_candidates@[i - 1]@.len());
            assert(cosines@[i as int]@.len() == stop_candidates@[i as int]@.len());
            assert(cosines@[i - 1]@[a_k as int] <= 1_000_000_000);
            assert(cosines@[i as int]@[b_k as int] <= 1_000_000_000);
            assert(is_linked(q, stops, picks, i as int));
            let path = path_between(
                ctx,
                graph,
                a,
                b,
                allowed_modes,
                fallback_modes,
                preferred_match,
                cosines[i - 1][a_k],
                cosines[i][b_k],
            );
            assert forall|j: int| 0 <= j < path@.len() implies (#[trigger] path@[j])
                < graph.edges@.len() by {
                lemma_walk_usable(q, path@, a, b, j);
            }
            append_path(&mut points, graph, &path, Ghost(q));
            proof {
                route = Route { places: picks, paths: r0.paths.update(i as int, path@) };
                assert(cos[i - 1][picks[i - 1]] == cosines@[i - 1]@[a_k as int]);
                assert(cos[i as int][picks[i as int]] == cosines@[i as int]@[b_k as int]);
            }
        }
        proof {
            assert(route.paths =~= r0.paths.update(i as int, route.paths[i as int]));
            assert(route.node(stops, i - 1) == a && route.node(stops, i as int) == b);
            lemma_drawn_before(q, stops, r0, route, i as int, i - 1);
            assert(route.is_found(q, stops, cos, i as int));
            assert forall|j: int| 0 < j < i + 1 implies #[trigger] route.is_found(
                q,
                stops,
                cos,
                j,
            ) by {
                if j < i {
                    assert(r0.is_found(q, stops, cos, j));
                    assert(route.paths[j] == r0.paths[j]);
                }
            }
        }
        i = i + 1;
    }
    (points, Ghost(route.paths))
}

/// Finds the cheapest way through a sequence of stops, given for each the nodes at which it may lie and
/// the cosines of their latitudes in billionths, and draws it. There is none if some stop cannot be
/// reached.
pub fn match_sequence_globally_optimal(
    stop_candidates: &Vec<Vec<usize>>,
    graph: &Graph<NodePL, EdgePL>,
    allowed_modes: u8,
    fallback_modes: u8,
    preferred_match: Option<&TransitMatch>,
    cosines: &Vec<Vec<u32>>,
    ctx: &mut PathfinderContext,
) -> (r: Option<Vec<Point>>)
    requires
        graph.wf(),
        cosines@.len() == stop_candidates@.len(),
        forall|i: int, k: int|
            0 <= i < stop_candidates@.len() && 0 <= k < stop_candidates@[i]@.len() ==> (
            #[trigger] stop_candidates@[i]@[k]) < graph.nodes@.len(),
        forall|i: int|
            0 <= i < cosines@.len() ==> (#[trigger] cosines@[i])@.len()
                == stop_candidates@[i]@.len(),
        forall|i: int, k: int|
            0 <= i < cosines@.len() && 0 <= k < cosines@[i]@.len() ==> (
            #[trigger] cosines@[i]@[k]) <= 1_000_000_000,
    ensures
        ({
            let q = query(graph, allowed_modes, fallback_modes, None, preferred_match, None);
            let stops = stops_of(stop_candidates@);
            let cos = Seq::new(cosines@.len(), |i: int| cosines@[i]@);
            match r {
                None => stops.len() == 0 || exists|table: Seq<Seq<Reached>>| #[trigger]
                    is_table(q, stops, table) && is_dead(table.last()),
                Some(points) => stops.len() > 0 && exists|
                    table: Seq<Seq<Reached>>,
                    route: Route,
                |
                    #![trigger is_table(q, stops, table), route.is_best(stops, table)]
                    is_table(q, stops, table) && route.is_best(stops, table) && (forall|i: int|
                        0 < i < stops.len() ==> #[trigger] route.is_found(q, stops, cos, i))
                        && points@ == route.drawn(q, stops, stops.len() - 1),
            }
        }),
{
    let n: usize = stop_candidates.len();
    if n == 0 {
        return None;
    }
    let ghost q = query(graph, allowed_modes, fallback_modes, None, preferred_match, None);
    let ghost stops = stops_of(stop_candidates@);
    let ghost cos = Seq::new(cosines@.len(), |i: int| cosines@[i]@);
    let mut first: Vec<Reached> = Vec::new();
    let mut k: usize = 0;
    while k < stop_candidates[0].len()
        invariant
            n == stop_candidates@.len(),
            n > 0,
            k <= stop_candidates@[0]@.len(),
            first@.len() == k,
            forall|j: int| 0 <= j < k ==> #[trigger] first@[j] == Some((0u128, 0usize)),
        decreases stop_candidates@[0]@.len() - k,
    {
        first.push(Some((0, 0)));
        k = k + 1;
    }
    let ghost mut table: Seq<Seq<Reached>> = seq![first@];
    let mut layers: Vec<Vec<Reached>> = Vec::new();
    layers.push(first);
    let mut i: usize = 1;
    while i < n
        invariant
            1 <= i <= n,
            n == stop_candidates@.len(),
            graph.wf(),
            q == query(graph, allowed_modes, fallback_modes, None, preferred_match, None),
            stops == stops_of(stop_candidates@),
            forall|i: int, k: int|
                0 <= i < stop_candidates@.len() && 0 <= k < stop_candidates@[i]@.len() ==> (
                #[trigger] stop_candidates@[i]@[k]) < graph.nodes@.len(),
            layers@.len() == i,
            table.len() == i,
            forall|j: int| 0 <= j < i ==> (#[trigger] layers@[j])@ == table[j],
            forall|j: int| 0 <= j < i ==> (#[trigger] table[j]).len() == stops[j].len(),
            forall|k: int|
                0 <= k < stops[0].len() ==> #[trigger] table[0][k] == Some((0u128, 0usize)),
            forall|j: int|
                #![trigger table[j]]
                0 < j < i ==> is_layer(q, stops[j - 1], table[j - 1], stops[j], table[j]),
        decreases n - i,
    {
        assert(layers@[i - 1]@ == table[i - 1]);
        assert(table[i - 1].len() == stops[i - 1].len());
        let layer = advance(
            graph,
            &stop_candidates[i - 1],
            &layers[i - 1],
            &stop_candidates[i],
            allowed_modes,
            fallback_modes,
            preferred_match,
        );
        let ghost t0 = table;
        let ghost l0 = layers@;
        proof {
            table = table.push(layer@);
            assert forall|j: int| 0 < j < i + 1 implies is_layer(
                q,
                stops[j - 1],
                table[j - 1],
                stops[j],
                #[trigger] table[j],
            ) by {
                if j < i {
                    assert(t0[j] == table[j] && t0[j - 1] == table[j - 1]);
                }
            }
        }
        layers.push(layer);
        proof {
            assert forall|j: int| 0 <= j < i + 1 implies (#[trigger] layers@[j])@ == table[j] by {
                if j < i {
                    assert(layers@[j] == l0[j]);
                }
            }
            assert forall|j: int| 0 <= j < i + 1 implies (#[trigger] table[j]).len()
                == stops[j].len() by {
                if j < i {
                    assert(table[j] == t0[j]);
                }
            }
            assert(table[0] == t0[0]);
        }
        if is_all_none(&layers[i]) {
            proof {
                lemma_completed(q, stops, table);
            }
            return None;
        }
        i = i + 1;
    }
    assert(is_table(q, stops, table));
    assert(layers@[n - 1]@ == table[n - 1]);
    let best = first_least(&layers[n - 1]);
    if best.is_none() {
        assert(is_dead(table.last()));
        return None;
    }
    let last: usize = match best {
        Some(b) => b,
        None => 0,
    };
    let mut chosen: Vec<usize> = Vec::new();
    i = 0;
    while i < n
        invariant
            i <= n,
            chosen@.len() == i,
            forall|j: int| 0 <= j < i ==> #[trigger] chosen@[j] == last,
        decreases n - i,
    {
        chosen.push(last);
        i = i + 1;
    }
    i = n - 1;
    while i > 0
        invariant
            i < n,
            n == stop_candidates@.len(),
            chosen@.len() == n,
            stops == stops_of(stop_candidates@),
            is_table(q, stops, table),
            layers@.len() == n,
            forall|j: int| 0 <= j < n ==> (#[trigger] layers@[j])@ == table[j],
            forall|j: int| 0 <= j < n ==> (#[trigger] table[j]).len() == stops[j].len(),
            chosen@[n - 1] == last,
            is_first_least(table[n - 1], last as int),
            forall|j: int|
                #![trigger chosen@[j]]
                i <= j < n ==> chosen@[j] < stops[j].len() && table[j][chosen@[j] as int] is Some,
            forall|j: int|
                #![trigger table[j]]
                i < j < n ==> (table[j][chosen@[j] as int] matches Some(x) && x.1 == chosen@[j - 1]),
        decreases i,
    {
        let c: usize = chosen[i];
        assert(layers@[i as int]@ == table[i as int]);
        assert(table[i as int].len() == stops[i as int].len());
        let p: usize = match layers[i][c] {
            Some((_, p)) => p,
            None => 0,
        };
        proof {
            let x = table[i as int][c as int]->0;
            assert(x.1 == p);
            let es = choose|es: Seq<usize>| #[trigger]
                leads_on(
                    stage(q, stops[i - 1], stops[i as int]),
                    stops[i - 1],
                    table[i - 1],
                    x.1 as int,
                    es,
                    stops[i as int][c as int],
                    x.0 as nat,
                );
            assert(p < stops[i - 1].len() && table[i - 1][p as int] is Some);
        }
        let ghost c0 = chosen@;
        chosen.set(i - 1, p);
        proof {
            assert forall|j: int|
                #![trigger table[j]]
                i - 1 < j < n implies (table[j][chosen@[j] as int] matches Some(x) && x.1
                == chosen@[j - 1]) by {
                assert(chosen@[j] == c0[j]);
                if j > i {
                    assert(chosen@[j - 1] == c0[j - 1]);
                }
            }
        }
        i = i - 1;
    }
    let ghost picks = picks_of(chosen@);
    let ghost route0 = Route { places: picks, paths: Seq::empty() };
    assert(route0.is_best(stops, table)) by {
        assert forall|i: int| 0 <= i < n implies 0 <= #[trigger] route0.places[i] < stops[i].len() by {
            assert(route0.places[i] == chosen@[i]);
        }
        assert forall|i: int| 0 < i < n implies #[trigger] route0.follows(table, i) by {
            assert(route0.places[i] == chosen@[i]);
            assert(route0.places[i - 1] == chosen@[i - 1]);
            assert(table[i].len() == stops[i].len());
        }
    }
    assert forall|i: int| 0 < i < n implies #[trigger] is_linked(q, stops, picks, i) by {
        assert(route0.follows(table, i));
        assert(route0.places[i] == picks[i] && route0.places[i - 1] == picks[i - 1]);
        lemma_open(q, stops[i - 1], table[i - 1], stops[i], table[i], picks[i]);
    }
    assert forall|j: int| 0 <= j < n implies (#[trigger] chosen@[j])
        < stop_candidates@[j]@.len() by {
        assert(route0.places[j] == chosen@[j]);
    }
    let (points, Ghost(paths)) = draw_route(
        stop_candidates,
        &chosen,
        graph,
        allowed_modes,
        fallback_modes,
        preferred_match,
        cosines,
        ctx,
    );
    proof {
        let route = Route { places: picks, paths };
        assert forall|i: int| 0 < i < n implies #[trigger] route.follows(table, i) by {
            assert(route0.follows(table, i));
        }
        assert forall|i: int| 0 <= i < n implies 0 <= #[trigger] route.places[i] < stops[i].len() by {
            assert(route0.places[i] == route.places[i]);
        }
        assert(is_table(q, stops, table) && route.is_best(stops, table));
    }
    Some(points)
}

proof fn lemma_drawn_before(
    q: Query,
    stops: Seq<Seq<usize>>,
    a: Route,
    b: Route,
    n: int,
    i: int,
)
    requires
        a.places == b.places,
        0 <= i < n,
        n < a.paths.len(),
        b.paths == a.paths.update(n, b.paths[n]),
    ensures
        a.drawn(q, stops, i) == b.drawn(q, stops, i),
    decreases i,
{
    if i > 0 {
        lemma_drawn_before(q, stops, a, b, n, i - 1);
    }
}

/// The rest of a table whose last layer cannot be reached.
proof fn lemma_completed(q: Query, stops: Seq<Seq<usize>>, table: Seq<Seq<Reached>>)
    requires
        0 < table.len() <= stops.len(),
        is_table(q, stops.take(table.len() as int), table),
        is_dead(table.last()),
        table.last().len() == stops[table.len() - 1].len(),
    ensures
        exists|t: Seq<Seq<Reached>>| #[trigger] is_table(q, stops, t) && is_dead(t.last()),
    decreases stops.len() - table.len(),
{
    let n = table.len() as int;
    if n < stops.len() {
        let layer = Seq::new(stops[n].len(), |k: int| None::<(u128, usize)>);
        let t = table.push(layer);
        let s = stops.take(n + 1);
        assert(stops.take(n) =~= s.take(n));
        assert forall|i: int| 0 < i < s.len() implies is_layer(
            q,
            s[i - 1],
            t[i - 1],
            s[i],
            #[trigger] t[i],
        ) by {
            if i < n {
                assert(t[i] == table[i] && t[i - 1] == table[i - 1]);
                assert(s[i] == stops.take(n)[i] && s[i - 1] == stops.take(n)[i - 1]);
            } else {
                assert(t[i - 1] == table.last());
                assert forall|k: int| #[trigger]
                    is_sought(q, s[i - 1], t[i - 1], s[i], k) implies false by {
                    let p = choose|p: int|
                        #![trigger t[i - 1][p]]
                        0 <= p < s[i - 1].len() && t[i - 1][p] is Some;
                    assert(t[i - 1][p] is None);
                }
            }
        }
        assert(t[0] == table[0]);
        assert(s[0] == stops.take(n)[0]);
        assert(is_dead(t.last()));
        lemma_completed(q, stops, t);
    } else {
        assert(stops.take(n) =~= stops);
    }
}

/// Whether two layers reach the same places at the same costs.
pub open spec fn same_costs(a: Seq<Reached>, b: Seq<Reached>) -> bool {
    &&& a.len() == b.len()
    &&& forall|k: int|
        #![trigger a[k]]
        #![trigger b[k]]
        0 <= k < a.len() ==> match (a[k], b[k]) {
            (Some(x), Some(y)) => x.0 == y.0,
            (None, None) => true,
            _ => false,
        }
}

proof fn lemma_same_layer(
    q: Query,
    prev: Seq<usize>,
    c1: Seq<Reached>,
    c2: Seq<Reached>,
    curr: Seq<usize>,
    r1: Seq<Reached>,
    r2: Seq<Reached>,
    k: int,
)
    requires
        c1.len() == prev.len(),
        same_costs(c1, c2),
        is_layer(q, prev, c1, curr, r1),
        is_layer(q, prev, c2, curr, r2),
        0 <= k < curr.len(),
        r1[k] is Some,
    ensures
        r1[k] matches Some(x) && r2[k] matches Some(y) && y.0 <= x.0,
{
    let x = r1[k]->0;
    let s = stage(q, prev, curr);
    let es = choose|es: Seq<usize>| #[trigger]
        leads_on(s, prev, c1, x.1 as int, es, curr[k], x.0 as nat);
    assert(c2[x.1 as int] is Some);
    assert(leads_on(s, prev, c2, x.1 as int, es, curr[k], x.0 as nat));
    assert(is_sought(q, prev, c1, curr, k));
    let p = choose|p: int|
        #![trigger c1[p]]
        0 <= p < prev.len() && c1[p] is Some && (prev[p] == curr[k]
            || q.graph.nodes@[prev[p] as int].payload.comp_id
            == q.graph.nodes@[curr[k] as int].payload.comp_id);
    assert(c2[p] is Some);
    assert(is_sought(q, prev, c2, curr, k));
}

/// What it costs to get to a place does not depend on how ties are broken on the way.
pub proof fn lemma_costs_determined(
    q: Query,
    stops: Seq<Seq<usize>>,
    a: Seq<Seq<Reached>>,
    b: Seq<Seq<Reached>>,
    i: int,
)
    requires
        is_table(q, stops, a),
        is_table(q, stops, b),
        0 <= i < stops.len(),
    ensures
        same_costs(a[i], b[i]),
        a[i].len() == stops[i].len(),
    decreases i,
{
    if i == 0 {
        assert forall|k: int|
            #![trigger a[0][k]]
            #![trigger b[0][k]]
            0 <= k < a[0].len() implies a[0][k] == b[0][k] by {
            assert(a[0][k] == Some((0u128, 0usize)));
            assert(b[0][k] == Some((0u128, 0usize)));
        }
    } else {
        lemma_costs_determined(q, stops, a, b, i - 1);
        assert(is_layer(q, stops[i - 1], a[i - 1], stops[i], a[i]));
        assert(is_layer(q, stops[i - 1], b[i - 1], stops[i], b[i]));
        assert forall|k: int|
            #![trigger a[i][k]]
            #![trigger b[i][k]]
            0 <= k < a[i].len() implies match (a[i][k], b[i][k]) {
            (Some(x), Some(y)) => x.0 == y.0,
            (None, None) => true,
            _ => false,
        } by {
            if a[i][k] is Some {
                lemma_same_layer(q, stops[i - 1], a[i - 1], b[i - 1], stops[i], a[i], b[i], k);
            }
            if b[i][k] is Some {
                lemma_same_layer(q, stops[i - 1], b[i - 1], a[i - 1], stops[i], b[i], a[i], k);
            }
        }
    }
}

impl Route {
    /// What the paths up to a stop cost.
    pub open spec fn paid(&self, q: Query, i: int) -> nat
        decreases i,
    {
        if i <= 0 {
            0
        } else {
            self.paid(q, i - 1) + q.cost(self.paths[i])
        }
    }

    /// Whether the path to a stop stays near the places of the two stops that it joins, within one
    /// component, and ends at a place that is not named again.
    pub open spec fn joins(&self, q: Query, stops: Seq<Seq<usize>>, i: int) -> bool {
        let a = self.node(stops, i - 1);
        let b = self.node(stops, i);
        &&& entered_walk(stage(q, stops[i - 1], stops[i]), self.paths[i], a, b)
        &&& last_named(stops[i], self.places[i])
        &&& a == b || q.graph.nodes@[a as int].payload.comp_id
            == q.graph.nodes@[b as int].payload.comp_id
    }
}

proof fn lemma_cost_within(q: Query, b: BBox, es: Seq<usize>)
    ensures
        within(q, b).cost(es) == q.cost(es),
    decreases es.len(),
{
    if es.len() > 0 {
        lemma_cost_within(q, b, es.drop_last());
        let e = es.last();
        assert(within(q, b).edge_at(e) == q.edge_at(e));
        assert(within(q, b).preferred(e) == q.preferred(e));
    }
}

/// No way through the stops is cheaper than what was found: every place on a way that costs less than
/// the limit was reached, and at no more than the way costs up to there.
pub proof fn lemma_none_cheaper(
    q: Query,
    stops: Seq<Seq<usize>>,
    table: Seq<Seq<Reached>>,
    way: Route,
    i: int,
)
    requires
        is_table(q, stops, table),
        0 <= i < stops.len(),
        way.places.len() == stops.len(),
        way.paths.len() == stops.len(),
        forall|j: int| 0 <= j <= i ==> 0 <= #[trigger] way.places[j] < stops[j].len(),
        forall|j: int| 0 < j <= i ==> #[trigger] way.joins(q, stops, j),
        way.paid(q, i) < MAX_SEQUENCE_COST,
    ensures
        table[i][way.places[i]] matches Some(x) && x.0 <= way.paid(q, i),
    decreases i,
{
    let k = way.places[i];
    if i == 0 {
        assert(table[0][k] == Some((0u128, 0usize)));
    } else {
        lemma_none_cheaper(q, stops, table, way, i - 1);
        let p = way.places[i - 1];
        let x = table[i - 1][p]->0;
        let es = way.paths[i];
        let s = stage(q, stops[i - 1], stops[i]);
        assert(way.joins(q, stops, i));
        assert(is_layer(q, stops[i - 1], table[i - 1], stops[i], table[i]));
        lemma_cost_within(
            q,
            bounds_of(places(q, stops[i - 1] + stops[i]), margin_for(q.allowed_modes)),
            es,
        );
        let cost = (x.0 + s.cost(es)) as nat;
        assert(may_meet(q, stops[i - 1], table[i - 1], stops[i][k]));
        assert(is_sought(q, stops[i - 1], table[i - 1], stops[i], k));
        assert(leads_on(s, stops[i - 1], table[i - 1], p, es, stops[i][k], cost));
    }
}

// What is drawn of a route.

/// Whether a line of points is made of parts, put end to end in their order: each begins at the point at which
/// the one before it ends. The positions are those at which the parts begin, and the one at which the last ends.
pub open spec fn strung(parts: Seq<Seq<Point>>, at: Seq<int>, line: Seq<Point>) -> bool {
    &&& at.len() == parts.len() + 1
    &&& at[0] == 0
    &&& at[parts.len() as int] == line.len() - 1
    &&& forall|k: int| 0 <= k < parts.len() ==> #[trigger] stands_at(parts[k], at, k, line)
}

/// Whether a part of a line stands between the positions at which it and the next part begin.
pub open spec fn stands_at(part: Seq<Point>, at: Seq<int>, k: int, line: Seq<Point>) -> bool {
    &&& 0 <= at[k] <= at[k + 1] < line.len()
    &&& line.subrange(at[k], at[k + 1] + 1) == part
}

/// Whether the course of an edge runs from the one of its ends to the other.
pub open spec fn runs_its_way(q: Query, e: usize) -> bool {
    let edge = q.graph.edges@[e as int];
    &&& edge.payload.geometry@.len() > 0
    &&& edge.payload.geometry@.first() == q.graph.nodes@[edge.from as int].payload.point
    &&& edge.payload.geometry@.last() == q.graph.nodes@[edge.to as int].payload.point
}

/// The courses of edges.
pub open spec fn courses(q: Query, es: Seq<usize>) -> Seq<Seq<Point>> {
    es.map_values(|e: usize| q.graph.edges@[e as int].payload.geometry@)
}

proof fn lemma_points_of_prefix(q: Query, es: Seq<usize>, n: int)
    requires
        0 <= n < es.len(),
    ensures
        path_points(q, es, n) == path_points(q, es.drop_last(), n),
    decreases n,
{
    if n > 0 {
        lemma_points_of_prefix(q, es, n - 1);
    }
}

proof fn lemma_string_more(
    parts: Seq<Seq<Point>>,
    at: Seq<int>,
    line: Seq<Point>,
    part: Seq<Point>,
)
    requires
        strung(parts, at, line),
        line.len() > 0,
        part.len() > 0,
        part.first() == line.last(),
    ensures
        strung(
            parts.push(part),
            at.push(line.len() + part.len() - 2),
            line + part.skip(1),
        ),
{
    let all = line + part.skip(1);
    let more = parts.push(part);
    let to = at.push(line.len() + part.len() - 2);
    assert forall|k: int| 0 <= k < more.len() implies #[trigger] stands_at(more[k], to, k, all) by {
        if k < parts.len() {
            assert(more[k] == parts[k]);
            assert(stands_at(parts[k], at, k, line));
            assert(to[k] == at[k] && to[k + 1] == at[k + 1]);
            assert(all.subrange(to[k], to[k + 1] + 1) =~= line.subrange(at[k], at[k + 1] + 1));
        } else {
            assert(to[k] == line.len() - 1);
            assert(all.subrange(to[k], to[k + 1] + 1) =~= part);
        }
    }
    assert(to[0] == at[0]);
    assert(to[more.len() as int] == all.len() - 1);
}

/// What is drawn of a path is the courses of its edges, put end to end, from the one node to the other: nothing
/// is left out, nothing is added, and no point at which two edges meet is repeated.
pub proof fn lemma_path_is_strung(q: Query, es: Seq<usize>, a: usize, b: usize)
    requires
        q.walk(es, a, b),
        forall|i: int| 0 <= i < es.len() ==> runs_its_way(q, #[trigger] es[i]),
    ensures
        ({
            let line = seq![q.graph.nodes@[a as int].payload.point] + path_points(
                q,
                es,
                es.len() as int,
            );
            &&& line.first() == q.graph.nodes@[a as int].payload.point
            &&& line.last() == q.graph.nodes@[b as int].payload.point
            &&& exists|at: Seq<int>| #[trigger] strung(courses(q, es), at, line)
        }),
    decreases es.len(),
{
    let start = seq![q.graph.nodes@[a as int].payload.point];
    let line = start + path_points(q, es, es.len() as int);
    if es.len() == 0 {
        assert(line =~= start);
        assert(strung(courses(q, es), seq![0int], line));
    } else {
        let rest = es.drop_last();
        let e = es.last();
        let m = q.edge_at(e).from;
        assert forall|i: int| 0 <= i < rest.len() implies runs_its_way(q, #[trigger] rest[i]) by {
            assert(rest[i] == es[i]);
        }
        lemma_path_is_strung(q, rest, a, m);
        lemma_points_of_prefix(q, es, es.len() - 1);
        let before = start + path_points(q, rest, rest.len() as int);
        let at = choose|at: Seq<int>| #[trigger] strung(courses(q, rest), at, before);
        let g = q.edge_at(e).payload.geometry@;
        assert(runs_its_way(q, es[es.len() - 1]));
        lemma_string_more(courses(q, rest), at, before, g);
        assert(courses(q, es) =~= courses(q, rest).push(g));
        assert(line =~= before + g.skip(1));
        assert(line.last() == q.graph.nodes@[b as int].payload.point) by {
            if g.len() > 1 {
                assert(g.skip(1).last() == g.last());
            } else {
                assert(g.skip(1) =~= Seq::empty());
            }
        }
        assert(strung(courses(q, es), at.push(before.len() + g.len() - 2), line));
    }
}

impl Route {
    /// Whether a line passes the nodes chosen for the first stops up to stop `n`, at these positions, and is
    /// between two of them the courses of the edges of the path from the one to the other.
    pub open spec fn is_drawn(
        &self,
        q: Query,
        stops: Seq<Seq<usize>>,
        n: int,
        at: Seq<int>,
        line: Seq<Point>,
    ) -> bool {
        &&& at.len() == n + 1
        &&& at[0] == 0
        &&& at[n] == line.len() - 1
        &&& forall|i: int|
            #![trigger at[i]]
            0 <= i <= n ==> 0 <= at[i] < line.len() && line[at[i]]
                == q.graph.nodes@[self.node(stops, i) as int].payload.point
        &&& forall|i: int| #[trigger] self.draws_leg(q, stops, i, at, line) || !(0 < i <= n)
    }

    /// Whether the part of a line between the positions of a stop and the one before it is the path from the one
    /// to the other.
    pub open spec fn draws_leg(
        &self,
        q: Query,
        stops: Seq<Seq<usize>>,
        i: int,
        at: Seq<int>,
        line: Seq<Point>,
    ) -> bool {
        if self.node(stops, i - 1) == self.node(stops, i) {
            at[i] == at[i - 1]
        } else {
            &&& at[i - 1] <= at[i]
            &&& exists|marks: Seq<int>| #[trigger]
                strung(
                    courses(q, self.paths[i]),
                    marks,
                    line.subrange(at[i - 1], at[i] + 1),
                )
        }
    }
}

/// What is drawn of a route passes the nodes chosen for its stops, one after the other, and follows between two
/// of them the edges of the path that was found, and nothing else.
pub proof fn lemma_route_is_drawn(route: Route, q: Query, stops: Seq<Seq<usize>>, n: int)
    requires
        n >= 0,
        forall|i: int|
            #![trigger route.paths[i]]
            0 < i <= n ==> q.walk(
                route.paths[i],
                route.node(stops, i - 1),
                route.node(stops, i),
            ),
        forall|i: int, k: int|
            #![trigger route.paths[i][k]]
            0 < i <= n && 0 <= k < route.paths[i].len() ==> runs_its_way(q, route.paths[i][k]),
    ensures
        exists|at: Seq<int>| #[trigger]
            route.is_drawn(q, stops, n, at, route.drawn(q, stops, n)),
    decreases n,
{
    let line = route.drawn(q, stops, n);
    if n == 0 {
        let at = seq![0int];
        assert(route.is_drawn(q, stops, n, at, line));
    } else {
        lemma_route_is_drawn(route, q, stops, n - 1);
        let before = route.drawn(q, stops, n - 1);
        let at = choose|at: Seq<int>| #[trigger] route.is_drawn(q, stops, n - 1, at, before);
        assert(at[n - 1] == before.len() - 1);
        assert(at[n - 1] >= 0);
        let same = route.node(stops, n - 1) == route.node(stops, n);
        let a = route.node(stops, n - 1);
        let es = route.paths[n];
        let tail = path_points(q, es, es.len() as int);
        let to = at.push(line.len() - 1);
        if !same {
            assert forall|k: int| 0 <= k < es.len() implies runs_its_way(q, #[trigger] es[k]) by {
                assert(route.paths[n][k] == es[k]);
            }
            lemma_path_is_strung(q, es, a, route.node(stops, n));
            let leg = seq![q.graph.nodes@[a as int].payload.point] + tail;
            assert(line =~= before + tail);
            assert(leg =~= line.subrange(to[n - 1], to[n] + 1));
            assert(line.last() == leg.last());
            assert(route.draws_leg(q, stops, n, to, line));
        }
        assert forall|i: int| #[trigger]
            route.draws_leg(q, stops, i, to, line) || !(0 < i <= n) by {
            if 0 < i < n {
                assert(route.draws_leg(q, stops, i, at, before));
                assert(to[i] == at[i] && to[i - 1] == at[i - 1]);
                assert(line.subrange(to[i - 1], to[i] + 1) =~= before.subrange(
                    at[i - 1],
                    at[i] + 1,
                ));
            }
        }
        assert forall|i: int| #![trigger to[i]] 0 <= i <= n implies 0 <= to[i] < line.len()
            && line[to[i]] == q.graph.nodes@[route.node(stops, i) as int].payload.point by {
            if i < n {
                assert(to[i] == at[i]);
            }
        }
        assert(route.is_drawn(q, stops, n, to, line));
    }
}

} // verus!
