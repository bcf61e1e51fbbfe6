//! The routing of all trips of a tree at once.

use crate::graph::{EdgeIndex, EdgePL, Graph, NodePL};
use crate::hashed::{
    groups_get, groups_in, routes_in, routes_insert, routes_new, trips_keys, GroupMap,
    RouteMap,
};
use crate::router::dag::{
    best_offer, hop_step, lemma_stay_takes_least, lemma_travel, may_find, price, rows_in, stay,
    stay_offers, takes_least, times_ok, travel, Attempt, Weights, NO_PREDE,
};
use crate::router::edge_search::{
    cost_between, lemma_cost_between_unique, reconstruct_path, run_dijkstra_1_to_n, shortest_path,
    Net,
};
use crate::router::hop_cache::{HopCache, Known};
use crate::router::hops::{cands_ok, DAG_INF};
use crate::router::hops_fast::{max_part, max_part_of};
use crate::router::trip_trie::{lemma_child, lemma_parent, lemma_root, TripTrie, TripTrieNd};
use crate::router::types::{EdgeCand, EdgeCandGroup, EdgeHop, EdgeListHops, WHOLE_EDGE};
use crate::router::weights::{capped, ExpoTransWeight, RoutingOpts, TransWeight};
use std::marker::PhantomData;
use vstd::prelude::*;

verus! {

/// Routes trips through a graph.
pub struct RouterImpl<'a, TW: TransWeight> {
    pub graph: &'a Graph<NodePL, EdgePL>,
    pub weights: PhantomData<TW>,
}

/// What a routing run is asked for, besides the tree.
pub struct Task<'b> {
    /// The candidates of each node of the tree.
    pub ecm: &'b GroupMap,
    /// For each node of the tree, how far it is from the node above, in millimetres.
    pub hop_dists: &'b Vec<u64>,
    pub opts: &'b RoutingOpts,
    pub no_fast_hops: bool,
    pub use_cache: bool,
}

/// The group of a node. A node without an entry has no candidates.
pub open spec fn group_at(groups: Map<usize, Seq<EdgeCand>>, n: int) -> Seq<EdgeCand> {
    if 0 <= n <= usize::MAX && groups.contains_key(n as usize) {
        groups[n as usize]
    } else {
        Seq::empty()
    }
}

fn group_of<'b>(groups: &'b GroupMap, n: usize, none: &'b EdgeCandGroup) -> (r: &'b EdgeCandGroup)
    requires
        none@.len() == 0,
    ensures
        r@ == group_at(groups_in(*groups), n as int),
{
    match groups_get(groups, n) {
        Some(group) => group,
        None => none,
    }
}

impl<'b> Task<'b> {
    /// The candidates of a node of the tree.
    pub open spec fn cands(self, n: int) -> Seq<EdgeCand> {
        group_at(groups_in(*self.ecm), n)
    }
}

/// The average time at a node after the first departure, in nanoseconds, rounded down.
pub open spec fn average_ns(nd: TripTrieNd) -> int {
    if nd.trips > 0 {
        (nd.acc_time * 1_000_000_000) / (nd.trips as int)
    } else {
        0
    }
}

/// The time between two nodes, in nanoseconds: what the timetable says, but not less than it
/// takes at 130 kilometres an hour.
pub open spec fn hop_ns(fr: TripTrieNd, to: TripTrieNd, hop_dist: u64) -> int {
    let least = (hop_dist as int) * 100_000_000 / 3611;
    let planned = average_ns(to) - average_ns(fr);
    if planned < least {
        least
    } else {
        planned
    }
}

/// Whether the step between two nodes is a stay at a stop.
pub open spec fn is_stay(nds: Seq<TripTrieNd>, p: usize, n: int) -> bool {
    nds[p as int].arr && !nds[n].arr
}

/// Whether the candidates fit the tree: they lie on edges of the graph, and the departures refer to
/// candidates of their arrival. Every node has a distance from the node above.
pub open spec fn task_ok(g: &Net, nds: Seq<TripTrieNd>, t: Task) -> bool {
    &&& t.hop_dists@.len() == nds.len()
    &&& forall|n: int|
        #![trigger t.cands(n)]
        0 <= n < nds.len() ==> cands_ok(g, t.cands(n)) && times_ok(t.cands(n))
    &&& forall|n: int, j: int, k: int|
        #![trigger t.cands(n)[j].dep_prede@[k]]
        0 < n < nds.len() && nds[n].parent is Some && is_stay(nds, nds[n].parent->0, n) && 0 <= j
            < t.cands(n).len() && 0 <= k < t.cands(n)[j].dep_prede@.len()
            ==> t.cands(n)[j].dep_prede@[k] < t.cands(nds[n].parent->0 as int).len()
}

spec fn averages_ok(nds: Seq<TripTrieNd>) -> bool {
    forall|n: int|
        #![trigger nds[n]]
        0 <= n < nds.len() ==> -0x4000_0000_0000_0000 <= average_ns(nds[n])
            <= 0x4000_0000_0000_0000 && -0x1_0000_0000_0000_0000_0000_0000 <= nds[n].acc_time
            <= 0x1_0000_0000_0000_0000_0000_0000
}

/// Whether the weights of a node come about as they should: a first departure costs the penalty of
/// the candidate, a stay hands on the weights, and a ride adds those of the ways. Only a ride looks
/// into the cache of hops, which held `before` and holds `after`.
pub open spec fn step_ok<TW: TransWeight>(
    g: &Net,
    nds: Seq<TripTrieNd>,
    t: Task,
    weights: Seq<Weights>,
    max_costs: Seq<u32>,
    n: int,
    before: Known,
    after: Known,
) -> bool {
    let p = nds[n].parent->0;
    let tos = t.cands(n);
    if p == 0 {
        &&& weights[n].costs@ == tos.map_values(|c: EdgeCand| c.pen as u128)
        &&& weights[n].prede@ == tos.map_values(|c: EdgeCand| NO_PREDE)
        &&& after == before
    } else if is_stay(nds, p, n) {
        &&& weights[n].best_of(
            tos.len(),
            |j: int| stay_offers(weights[p as int].costs@, tos[j]),
        )
        &&& after == before
    } else {
        exists|tries: Seq<Attempt>| #[trigger]
            hop_step::<TW>(
                g,
                t.cands(p as int),
                tos,
                weights[p as int].costs@,
                t.hop_dists@[n],
                *t.opts,
                t.no_fast_hops,
                t.use_cache,
                TW::spec_max_cost(
                    hop_ns(nds[p as int], nds[n], t.hop_dists@[n]) as u128,
                    *t.opts,
                ),
                before,
                tries,
                after,
                weights[n],
                max_costs[n],
            )
    }
}

spec fn sized(nds: Seq<TripTrieNd>, t: Task, weights: Seq<Weights>, n: int) -> bool {
    &&& weights[n].costs@.len() == t.cands(n).len()
    &&& weights[n].in_range(t.cands(nds[n].parent->0 as int).len())
    &&& nds[n].parent->0 == 0 ==> forall|j: int|
        0 <= j < weights[n].prede@.len() ==> #[trigger] weights[n].prede@[j] == NO_PREDE
}

fn average_ns_of(nd: &TripTrieNd) -> (r: i64)
    requires
        -0x4000_0000_0000_0000 <= average_ns(*nd) <= 0x4000_0000_0000_0000,
        -0x1_0000_0000_0000_0000_0000_0000 <= nd.acc_time
            <= 0x1_0000_0000_0000_0000_0000_0000,
    ensures
        r == average_ns(*nd),
{
    if nd.trips == 0 {
        return 0;
    }
    let a: i128 = nd.acc_time * 1_000_000_000;
    let d: i128 = nd.trips as i128;
    if a >= 0 {
        (a / d) as i64
    } else {
        let b: i128 = -a;
        let q: i128 = (b + (d - 1)) / d;
        proof {
            let x = a as int;
            let y = d as int;
            let z = q as int;
            assert(x / y == -z) by (nonlinear_arith)
                requires
                    y > 0,
                    z == (-x + (y - 1)) / y,
            ;
        }
        (-q) as i64
    }
}

fn hop_ns_of(fr: &TripTrieNd, to: &TripTrieNd, hop_dist: u64) -> (r: u128)
    requires
        -0x4000_0000_0000_0000 <= average_ns(*fr) <= 0x4000_0000_0000_0000,
        -0x1_0000_0000_0000_0000_0000_0000 <= fr.acc_time
            <= 0x1_0000_0000_0000_0000_0000_0000,
        -0x4000_0000_0000_0000 <= average_ns(*to) <= 0x4000_0000_0000_0000,
        -0x1_0000_0000_0000_0000_0000_0000 <= to.acc_time
            <= 0x1_0000_0000_0000_0000_0000_0000,
    ensures
        r == hop_ns(*fr, *to, hop_dist),
{
    let least: u128 = (hop_dist as u128 * 100_000_000) / 3611;
    let planned: i128 = average_ns_of(to) as i128 - average_ns_of(fr) as i128;
    if planned < 0 || (planned as u128) < least {
        least
    } else {
        planned as u128
    }
}

/// The weights of the candidates at which trips begin.
fn first_weights(group: &EdgeCandGroup) -> (w: Weights)
    ensures
        w.costs@ == group@.map_values(|c: EdgeCand| c.pen as u128),
        w.prede@ == group@.map_values(|c: EdgeCand| NO_PREDE),
{
    let mut w = Weights { costs: Vec::new(), prede: Vec::new() };
    let mut i: usize = 0;
    while i < group.len()
        invariant
            i <= group@.len(),
            w.costs@.len() == i,
            w.prede@.len() == i,
            forall|j: int| 0 <= j < i ==> #[trigger] w.costs@[j] == group@[j].pen as u128,
            forall|j: int| 0 <= j < i ==> #[trigger] w.prede@[j] == NO_PREDE,
        decreases group@.len() - i,
    {
        w.costs.push(group[i].pen as u128);
        w.prede.push(NO_PREDE);
        i = i + 1;
    }
    assert(w.costs@ =~= group@.map_values(|c: EdgeCand| c.pen as u128));
    assert(w.prede@ =~= group@.map_values(|c: EdgeCand| NO_PREDE));
    w
}

/// The weights of all candidates of all nodes.
pub struct RoutePlan {
    pub weights: Vec<Weights>,
    /// For each node, the largest cost that was looked for on the way to it.
    pub max_costs: Vec<u32>,
}

/// The nodes below those on a stack, in the order in which a walk comes to them that takes the last
/// node of the stack and puts its children there. At most `fuel` nodes are taken.
pub open spec fn walk_from(nds: Seq<TripTrieNd>, stack: Seq<usize>, fuel: nat) -> Seq<usize>
    decreases fuel,
{
    if fuel == 0 || stack.len() == 0 {
        Seq::empty()
    } else {
        let childs = nds[stack.last() as int].childs@;
        childs + walk_from(nds, stack.drop_last() + childs, (fuel - 1) as nat)
    }
}

/// The nodes of a tree below the root, in the order in which their weights are found.
pub open spec fn walk_order(nds: Seq<TripTrieNd>) -> Seq<usize> {
    walk_from(nds, seq![0], nds.len())
}

/// Whether the weights of all nodes come about as they should. The cache of hops goes from node to
/// node: `caches` lists what it holds at the beginning and after each node of the walk.
pub open spec fn plan_ok<TW: TransWeight>(
    g: &Net,
    nds: Seq<TripTrieNd>,
    t: Task,
    plan: RoutePlan,
    caches: Seq<Known>,
) -> bool {
    let order = walk_order(nds);
    &&& plan.weights@.len() == nds.len()
    &&& plan.max_costs@.len() == nds.len()
    &&& caches.len() == order.len() + 1
    &&& forall|n: usize| 0 < n < nds.len() ==> #[trigger] order.contains(n)
    &&& forall|i: int|
        #![trigger order[i]]
        0 <= i < order.len() ==> step_ok::<TW>(
            g,
            nds,
            t,
            plan.weights@,
            plan.max_costs@,
            order[i] as int,
            caches[i],
            caches[i + 1],
        )
}

/// Which nodes a walk has come to, and what the cache of hops held at the beginning and after each.
struct Trail {
    order: Seq<usize>,
    caches: Seq<Known>,
}

/// The state of a walk over the tree.
struct Walk {
    plan: RoutePlan,
    /// Nodes whose weights are known, but not those of their children.
    stack: Vec<usize>,
}

spec fn known(stack: Seq<usize>, done: Set<usize>, n: usize) -> bool {
    done.contains(n) || stack.contains(n)
}

/// Whether a walk over the tree is in order: the children of every node that is done are known,
/// and so are those of the root. Of the children of `at`, only the first `upto` are known.
spec fn walk_ok<TW: TransWeight>(
    g: &Net,
    nds: Seq<TripTrieNd>,
    t: Task,
    plan: RoutePlan,
    stack: Seq<usize>,
    done: Set<usize>,
    trail: Trail,
    at: usize,
    upto: int,
) -> bool {
    &&& plan.weights@.len() == nds.len()
    &&& plan.max_costs@.len() == nds.len()
    &&& trail.caches.len() == trail.order.len() + 1
    &&& forall|i: int|
        #![trigger trail.order[i]]
        0 <= i < trail.order.len() ==> {
            &&& trail.order[i] != 0
            &&& known(stack, done, trail.order[i])
            &&& step_ok::<TW>(
                g,
                nds,
                t,
                plan.weights@,
                plan.max_costs@,
                trail.order[i] as int,
                trail.caches[i],
                trail.caches[i + 1],
            )
        }
    &&& stack.no_duplicates()
    &&& done.finite()
    &&& forall|n: usize| #[trigger] done.contains(n) ==> n < nds.len() && !stack.contains(n)
    &&& forall|k: int| 0 <= k < stack.len() ==> 0 < (#[trigger] stack[k]) < nds.len()
    &&& done.contains(0)
    &&& forall|n: usize| #[trigger]
        known(stack, done, n) && n != 0 ==> {
            &&& nds[n as int].parent is Some
            &&& done.contains(nds[n as int].parent->0)
            &&& trail.order.contains(n)
            &&& sized(nds, t, plan.weights@, n as int)
        }
    &&& forall|p: usize, k: int|
        #![trigger done.contains(p), nds[p as int].childs@[k]]
        done.contains(p) && 0 <= k < nds[p as int].childs@.len() ==> (known(
            stack,
            done,
            nds[p as int].childs@[k],
        ) <==> (p != at || k < upto))
}

spec fn longer(trail: Trail, n: usize, after: Known) -> Trail {
    Trail { order: trail.order.push(n), caches: trail.caches.push(after) }
}

/// The weights of one more child are known.
proof fn lemma_child_known<TW: TransWeight>(
    g: &Net,
    nds: Seq<TripTrieNd>,
    t: Task,
    a: RoutePlan,
    b: RoutePlan,
    stack: Seq<usize>,
    done: Set<usize>,
    trail: Trail,
    after: Known,
    at: usize,
    k: int,
)
    requires
        crate::router::trip_trie::is_tree(nds),
        nds.len() <= usize::MAX,
        walk_ok::<TW>(g, nds, t, a, stack, done, trail, at, k),
        done.contains(at),
        0 <= k < nds[at as int].childs@.len(),
        b.weights@.len() == nds.len(),
        b.max_costs@.len() == nds.len(),
        ({
            let c = nds[at as int].childs@[k];
            &&& b.weights@ == a.weights@.update(c as int, b.weights@[c as int])
            &&& b.max_costs@ == a.max_costs@.update(c as int, b.max_costs@[c as int])
            &&& step_ok::<TW>(
                g,
                nds,
                t,
                b.weights@,
                b.max_costs@,
                c as int,
                trail.caches.last(),
                after,
            )
            &&& sized(nds, t, b.weights@, c as int)
        }),
    ensures
        walk_ok::<TW>(
            g,
            nds,
            t,
            b,
            stack.push(nds[at as int].childs@[k]),
            done,
            longer(trail, nds[at as int].childs@[k], after),
            at,
            k + 1,
        ),
{
    let c = nds[at as int].childs@[k];
    let stack2 = stack.push(c);
    lemma_child(nds, at as int, k);
    assert(!known(stack, done, c));
    assert forall|n: usize| #[trigger] stack2.contains(n) <==> stack.contains(n) || n == c by {
        if stack.contains(n) {
            let j = choose|j: int| 0 <= j < stack.len() && stack[j] == n;
            assert(stack2[j] == n);
        }
        assert(stack2[stack.len() as int] == c);
    }
    assert forall|j: int| 0 <= j < stack2.len() implies 0 < (#[trigger] stack2[j]) < nds.len() by {
        if j < stack.len() {
            assert(stack2[j] == stack[j]);
        }
    }
    assert(stack2.no_duplicates()) by {
        assert forall|x: int, y: int|
            0 <= x < stack2.len() && 0 <= y < stack2.len() && x != y implies stack2[x]
            != stack2[y] by {
            if x < stack.len() && y < stack.len() {
                assert(stack[x] != stack[y]);
            } else if x < stack.len() {
                assert(stack.contains(stack[x]));
            } else if y < stack.len() {
                assert(stack.contains(stack[y]));
            }
        }
    }
    let trail2 = longer(trail, c, after);
    assert forall|n: usize| #[trigger] known(stack, done, n) && n != 0 implies {
        let q = nds[n as int].parent->0;
        &&& n != c
        &&& b.weights@[n as int] == a.weights@[n as int]
        &&& b.weights@[q as int] == a.weights@[q as int]
        &&& b.max_costs@[n as int] == a.max_costs@[n as int]
    } by {
        let q = nds[n as int].parent->0;
        assert(q != c);
        assert(n < nds.len()) by {
            if stack.contains(n) {
                let j = choose|j: int| 0 <= j < stack.len() && stack[j] == n;
                assert(stack[j] < nds.len());
            }
        }
        assert(q < nds.len());
    }
    assert forall|n: usize| #[trigger] known(stack2, done, n) && n != 0 implies {
        &&& nds[n as int].parent is Some
        &&& done.contains(nds[n as int].parent->0)
        &&& trail2.order.contains(n)
        &&& sized(nds, t, b.weights@, n as int)
    } by {
        if n != c {
            assert(known(stack, done, n));
            let j = choose|j: int| 0 <= j < trail.order.len() && trail.order[j] == n;
            assert(trail2.order[j] == n);
        } else {
            assert(trail2.order[trail.order.len() as int] == n);
        }
    }
    assert forall|i: int| #![trigger trail2.order[i]] 0 <= i < trail2.order.len() implies {
        &&& trail2.order[i] != 0
        &&& known(stack2, done, trail2.order[i])
        &&& step_ok::<TW>(
            g,
            nds,
            t,
            b.weights@,
            b.max_costs@,
            trail2.order[i] as int,
            trail2.caches[i],
            trail2.caches[i + 1],
        )
    } by {
        if i < trail.order.len() {
            let n = trail.order[i];
            assert(trail2.order[i] == n);
            assert(known(stack, done, n));
            assert(trail2.caches[i] == trail.caches[i]);
            assert(trail2.caches[i + 1] == trail.caches[i + 1]);
        } else {
            assert(trail2.order[i] == c);
            assert(stack2.contains(c));
            assert(trail2.caches[i] == trail.caches.last());
            assert(trail2.caches[i + 1] == after);
        }
    }
    assert forall|p: usize, j: int|
        #![trigger done.contains(p), nds[p as int].childs@[j]]
        done.contains(p) && 0 <= j < nds[p as int].childs@.len() implies (known(
        stack2,
        done,
        nds[p as int].childs@[j],
    ) <==> (p != at || j < k + 1)) by {
        let d = nds[p as int].childs@[j];
        lemma_child(nds, p as int, j);
        assert(known(stack, done, d) <==> (p != at || j < k));
        if d == c {
            assert(p == at);
            assert(j == k) by {
                crate::router::trip_trie::lemma_childs_distinct(nds, at as int, j, k);
            }
        }
    }
}

/// Finds the weights of the children of `at`.
fn visit<TW: TransWeight>(
    g: &Net,
    nds: &Vec<TripTrieNd>,
    t: &Task,
    walk: &mut Walk,
    hop_cache: &mut HopCache,
    at: usize,
    Ghost(done): Ghost<Set<usize>>,
    Ghost(trail): Ghost<Trail>,
) -> (r: Ghost<Trail>)
    requires
        g.wf(),
        crate::router::trip_trie::is_tree(nds@),
        task_ok(g, nds@, *t),
        averages_ok(nds@),
        old(hop_cache).wf(),
        done.contains(at),
        at != 0 ==> sized(nds@, *t, old(walk).plan.weights@, at as int),
        walk_ok::<TW>(g, nds@, *t, old(walk).plan, old(walk).stack@, done, trail, at, 0),
        trail.caches.last() == old(hop_cache)@,
    ensures
        final(hop_cache).wf(),
        !t.use_cache ==> *final(hop_cache) == *old(hop_cache),
        walk_ok::<TW>(
            g,
            nds@,
            *t,
            final(walk).plan,
            final(walk).stack@,
            done,
            r@,
            at,
            nds@[at as int].childs@.len() as int,
        ),
        r@.order == trail.order + nds@[at as int].childs@,
        r@.caches[0] == trail.caches[0],
        r@.caches.last() == final(hop_cache)@,
        final(walk).stack@ == old(walk).stack@ + nds@[at as int].childs@,
{
    let ghost all = nds@;
    let ghost mut now = trail;
    let ghost first_stack = walk.stack@;
    assert(at < nds@.len());
    assert(nds.len() == nds@.len());
    let count: usize = nds[at].childs.len();
    let none: EdgeCandGroup = Vec::new();
    let mut k: usize = 0;
    while k < count
        invariant
            g.wf(),
            none@.len() == 0,
            all == nds@,
            nds@.len() <= usize::MAX,
            at < nds@.len(),
            count == nds@[at as int].childs@.len(),
            k <= count,
            crate::router::trip_trie::is_tree(nds@),
            task_ok(g, nds@, *t),
            averages_ok(nds@),
            hop_cache.wf(),
            !t.use_cache ==> *hop_cache == *old(hop_cache),
            done.contains(at),
            at != 0 ==> sized(nds@, *t, walk.plan.weights@, at as int),
            walk_ok::<TW>(g, nds@, *t, walk.plan, walk.stack@, done, now, at, k as int),
            now.order == trail.order + nds@[at as int].childs@.take(k as int),
            now.caches.len() > 0,
            trail.caches.len() > 0,
            now.caches[0] == trail.caches[0],
            now.caches.last() == hop_cache@,
            walk.stack@ == first_stack + nds@[at as int].childs@.take(k as int),
        decreases count - k,
    {
        let c: usize = nds[at].childs[k];
        proof {
            lemma_child(nds@, at as int, k as int);
            assert(!known(walk.stack@, done, c));
            assert(c != at);
        }
        let ghost a = walk.plan;
        let tos = group_of(t.ecm, c, &none);
        assert(t.cands(c as int) == tos@);
        let w: Weights;
        let ghost stack0 = walk.stack@;
        let ghost mut tries: Seq<Attempt> = Seq::empty();
        let ghost before = hop_cache@;
        let ghost costs0 = walk.plan.weights@[at as int].costs@;
        let mut max_cost: u32 = walk.plan.max_costs[c];
        if at == 0 {
            w = first_weights(tos);
        } else {
            let froms = group_of(t.ecm, at, &none);
            assert(t.cands(at as int) == froms@);
            let costs = &walk.plan.weights[at].costs;
            if nds[at].arr && !nds[c].arr {
                proof {
                    assert(is_stay(nds@, at, c as int));
                    assert forall|j: int, m: int|
                        #![trigger tos@[j].dep_prede@[m]]
                        0 <= j < tos@.len() && 0 <= m < tos@[j].dep_prede@.len() implies tos@[j].dep_prede@[m]
                        < costs@.len() by {
                        assert(t.cands(c as int)[j].dep_prede@[m] == tos@[j].dep_prede@[m]);
                    }
                }
                w = stay(costs, tos);
            } else {
                let dist: u64 = t.hop_dists[c];
                assert(averages_ok(nds@) && nds@[at as int].trips >= 0 && nds@[c as int].trips >= 0);
                let ns: u128 = hop_ns_of(&nds[at], &nds[c], dist);
                let first: u32 = TW::max_cost(ns, t.opts);
                let (found, used) = travel::<TW>(
                    g,
                    froms,
                    tos,
                    costs,
                    dist,
                    t.opts,
                    t.no_fast_hops,
                    hop_cache,
                    t.use_cache,
                    first,
                );
                proof {
                    tries = choose|tries: Seq<Attempt>| #[trigger]
                        hop_step::<TW>(
                            g,
                            froms@,
                            tos@,
                            costs@,
                            dist,
                            *t.opts,
                            t.no_fast_hops,
                            t.use_cache,
                            first,
                            before,
                            tries,
                            hop_cache@,
                            found,
                            used,
                        );
                }
                w = found;
                max_cost = used;
            }
        }
        let ghost w_ghost = w;
        walk.plan.weights[c] = w;
        walk.plan.max_costs[c] = max_cost;
        walk.stack.push(c);
        proof {
            let b = walk.plan;
            assert(b.weights@[c as int] == w_ghost);
            assert(b.weights@ =~= a.weights@.update(c as int, b.weights@[c as int]));
            assert(b.max_costs@ =~= a.max_costs@.update(c as int, b.max_costs@[c as int]));
            assert(b.weights@[at as int] == a.weights@[at as int]);
            assert(nds@[c as int].parent->0 == at);
            lemma_sized_first(nds@, *t, b.weights@, c as int, at);
            if at != 0 && !is_stay(nds@, at, c as int) {
                assert(hop_step::<TW>(
                    g,
                    t.cands(at as int),
                    t.cands(c as int),
                    b.weights@[at as int].costs@,
                    t.hop_dists@[c as int],
                    *t.opts,
                    t.no_fast_hops,
                    t.use_cache,
                    TW::spec_max_cost(
                        hop_ns(nds@[at as int], nds@[c as int], t.hop_dists@[c as int]) as u128,
                        *t.opts,
                    ),
                    before,
                    tries,
                    hop_cache@,
                    b.weights@[c as int],
                    b.max_costs@[c as int],
                ));
            }
            let after = hop_cache@;
            assert(step_ok::<TW>(
                g,
                nds@,
                *t,
                b.weights@,
                b.max_costs@,
                c as int,
                before,
                after,
            ));
            lemma_child_known::<TW>(g, nds@, *t, a, b, stack0, done, now, after, at, k as int);
            now = longer(now, c, after);
            let childs = nds@[at as int].childs@;
            assert(childs.take(k + 1) =~= childs.take(k as int).push(c));
            assert(now.order =~= trail.order + childs.take(k + 1));
            assert(walk.stack@ =~= first_stack + childs.take(k + 1));
        }
        k = k + 1;
    }
    assert(nds@[at as int].childs@.take(k as int) =~= nds@[at as int].childs@);
    Ghost(now)
}

proof fn lemma_sized_first(
    nds: Seq<TripTrieNd>,
    t: Task,
    weights: Seq<Weights>,
    n: int,
    p: usize,
)
    requires
        nds[n].parent == Some(p),
        p == 0 ==> weights[n].costs@ == t.cands(n).map_values(|c: EdgeCand| c.pen as u128)
            && weights[n].prede@ == t.cands(n).map_values(|c: EdgeCand| NO_PREDE),
        p != 0 ==> weights[n].costs@.len() == t.cands(n).len() && weights[n].in_range(
            t.cands(p as int).len(),
        ),
    ensures
        sized(nds, t, weights, n),
{
}

/// Another node is done.
proof fn lemma_take_node<TW: TransWeight>(
    g: &Net,
    nds: Seq<TripTrieNd>,
    t: Task,
    plan: RoutePlan,
    stack: Seq<usize>,
    done: Set<usize>,
    trail: Trail,
    at: usize,
)
    requires
        crate::router::trip_trie::is_tree(nds),
        stack.len() > 0,
        at < nds.len(),
        walk_ok::<TW>(g, nds, t, plan, stack, done, trail, at, nds[at as int].childs@.len() as int),
    ensures
        walk_ok::<TW>(
            g,
            nds,
            t,
            plan,
            stack.drop_last(),
            done.insert(stack.last()),
            trail,
            stack.last(),
            0,
        ),
        !done.contains(stack.last()),
        0 < stack.last() < nds.len(),
        sized(nds, t, plan.weights@, stack.last() as int),
{
    let x = stack.last();
    let rest = stack.drop_last();
    let done2 = done.insert(x);
    assert(stack[stack.len() - 1] == x);
    assert(stack.contains(x));
    assert(known(stack, done, x));
    assert forall|n: usize| #[trigger] known(rest, done2, n) <==> known(stack, done, n) by {
        if rest.contains(n) {
            let j = choose|j: int| 0 <= j < rest.len() && rest[j] == n;
            assert(stack[j] == n);
        }
        if stack.contains(n) && n != x {
            let j = choose|j: int| 0 <= j < stack.len() && stack[j] == n;
            assert(rest[j] == n);
        }
    }
    assert(!rest.contains(x)) by {
        if rest.contains(x) {
            let j = choose|j: int| 0 <= j < rest.len() && rest[j] == x;
            assert(stack[j] == stack[stack.len() - 1]);
        }
    }
    assert forall|n: usize| #[trigger] done2.contains(n) implies n < nds.len() && !rest.contains(n) by {
        if n != x {
            assert(done.contains(n));
            if rest.contains(n) {
                let j = choose|j: int| 0 <= j < rest.len() && rest[j] == n;
                assert(stack[j] == n);
                assert(stack.contains(n));
            }
        }
    }
    assert forall|k: int| 0 <= k < rest.len() implies 0 < (#[trigger] rest[k]) < nds.len() by {
        assert(stack[k] == rest[k]);
    }
    assert(rest.no_duplicates()) by {
        assert forall|a: int, b: int| 0 <= a < rest.len() && 0 <= b < rest.len() && a != b implies rest[a]
            != rest[b] by {
            assert(stack[a] != stack[b]);
        }
    }
    assert forall|p: usize, k: int|
        #![trigger done2.contains(p), nds[p as int].childs@[k]]
        done2.contains(p) && 0 <= k < nds[p as int].childs@.len() implies (known(
        rest,
        done2,
        nds[p as int].childs@[k],
    ) <==> (p != x || k < 0)) by {
        let d = nds[p as int].childs@[k];
        lemma_child(nds, p as int, k);
        assert(known(rest, done2, d) <==> known(stack, done, d));
        if p == x {
            // A child of `x` is known only if `x` is done.
            if known(stack, done, d) {
                assert(d != 0);
                assert(done.contains(nds[d as int].parent->0));
            }
        } else {
            assert(done.contains(p));
        }
    }
}

/// When the walk ends, all weights are known.
proof fn lemma_all_known<TW: TransWeight>(
    g: &Net,
    nds: Seq<TripTrieNd>,
    t: Task,
    plan: RoutePlan,
    done: Set<usize>,
    trail: Trail,
    at: usize,
    n: int,
)
    requires
        crate::router::trip_trie::is_tree(nds),
        nds.len() <= usize::MAX,
        at < nds.len(),
        walk_ok::<TW>(
            g,
            nds,
            t,
            plan,
            Seq::empty(),
            done,
            trail,
            at,
            nds[at as int].childs@.len() as int,
        ),
        0 <= n < nds.len(),
    ensures
        done.contains(n as usize),
        n > 0 ==> trail.order.contains(n as usize),
        n > 0 ==> sized(nds, t, plan.weights@, n),
    decreases n,
{
    if n > 0 {
        lemma_parent(nds, n);
        let p = nds[n].parent->0;
        lemma_all_known::<TW>(g, nds, t, plan, done, trail, at, p as int);
        let childs = nds[p as int].childs@;
        let k = choose|k: int| 0 <= k < childs.len() && childs[k] == n as usize;
        assert(nds[p as int].childs@[k] == n as usize);
        assert(known(Seq::<usize>::empty(), done, n as usize));
        assert(!Seq::<usize>::empty().contains(n as usize));
    }
}

proof fn lemma_done_small(done: Set<usize>, n: nat)
    requires
        done.finite(),
        forall|x: usize| #[trigger] done.contains(x) ==> x < n,
    ensures
        done.len() <= n,
    decreases n,
{
    if n == 0 {
        assert(done =~= Set::<usize>::empty());
    } else {
        let rest = done.remove((n - 1) as usize);
        assert forall|x: usize| #[trigger] rest.contains(x) implies x < n - 1 by {
            assert(done.contains(x));
        }
        lemma_done_small(rest, (n - 1) as nat);
    }
}

/// Finds the weights of all candidates of all nodes, from the root down.
fn plan_route<TW: TransWeight>(
    g: &Net,
    nds: &Vec<TripTrieNd>,
    t: &Task,
    hop_cache: &mut HopCache,
) -> (r: (RoutePlan, Ghost<Seq<Known>>))
    requires
        g.wf(),
        crate::router::trip_trie::is_tree(nds@),
        task_ok(g, nds@, *t),
        averages_ok(nds@),
        old(hop_cache).wf(),
    ensures
        final(hop_cache).wf(),
        !t.use_cache ==> *final(hop_cache) == *old(hop_cache),
        plan_ok::<TW>(g, nds@, *t, r.0, r.1@),
        r.1@[0] == old(hop_cache)@,
        r.1@.last() == final(hop_cache)@,
        forall|n: int| 0 < n < nds@.len() ==> #[trigger] sized(nds@, *t, r.0.weights@, n),
{
    let mut walk = Walk {
        plan: RoutePlan { weights: Vec::new(), max_costs: Vec::new() },
        stack: Vec::new(),
    };
    let n: usize = nds.len();
    proof {
        lemma_root(nds@);
    }
    let mut i: usize = 0;
    while i < n
        invariant
            n == nds@.len(),
            i <= n,
            walk.plan.weights@.len() == i,
            walk.plan.max_costs@.len() == i,
            walk.stack@.len() == 0,
        decreases n - i,
    {
        walk.plan.weights.push(Weights { costs: Vec::new(), prede: Vec::new() });
        walk.plan.max_costs.push(0);
        i = i + 1;
    }
    let ghost mut done = Set::<usize>::empty().insert(0);
    let ghost mut at: usize = 0;
    let ghost mut trail = Trail { order: Seq::empty(), caches: seq![hop_cache@] };
    let ghost c0 = hop_cache@;
    proof {
        lemma_walk_begins::<TW>(g, nds@, *t, walk.plan, walk.stack@, c0);
    }
    let Ghost(begun) = visit::<TW>(
        g,
        nds,
        t,
        &mut walk,
        hop_cache,
        0,
        Ghost(done),
        Ghost(trail),
    );
    proof {
        trail = begun;
        let childs = nds@[0].childs@;
        assert(seq![0usize].drop_last() + childs =~= childs);
        assert(walk.stack@ =~= childs);
        assert(trail.order =~= childs);
        assert(trail.order + walk_from(nds@, walk.stack@, (n - 1) as nat) == walk_order(nds@));
    }
    loop
        invariant
            g.wf(),
            n == nds@.len(),
            crate::router::trip_trie::is_tree(nds@),
            task_ok(g, nds@, *t),
            averages_ok(nds@),
            hop_cache.wf(),
            !t.use_cache ==> *hop_cache == *old(hop_cache),
            at < nds@.len(),
            done.len() <= n,
            trail.order + walk_from(nds@, walk.stack@, (n - done.len()) as nat) == walk_order(nds@),
            trail.caches[0] == old(hop_cache)@,
            trail.caches.last() == hop_cache@,
            walk_ok::<TW>(
                g,
                nds@,
                *t,
                walk.plan,
                walk.stack@,
                done,
                trail,
                at,
                nds@[at as int].childs@.len() as int,
            ),
        ensures
            walk.stack@.len() == 0,
        decreases n - done.len(),
    {
        let ghost stack0 = walk.stack@;
        let next = match walk.stack.pop() {
            Some(x) => x,
            None => {
                break ;
            },
        };
        proof {
            lemma_take_node::<TW>(g, nds@, *t, walk.plan, stack0, done, trail, at);
            assert(walk.stack@ =~= stack0.drop_last());
            assert(next == stack0.last());
            done = done.insert(next);
            at = next;
            lemma_done_small(done, nds@.len());
        }
        let ghost order0 = trail.order;
        let Ghost(further) = visit::<TW>(
            g,
            nds,
            t,
            &mut walk,
            hop_cache,
            next,
            Ghost(done),
            Ghost(trail),
        );
        proof {
            trail = further;
            let childs = nds@[next as int].childs@;
            let rest = walk_from(nds@, walk.stack@, (n - done.len()) as nat);
            assert(walk_from(nds@, stack0, (n - done.len() + 1) as nat) == childs + rest);
            assert(order0 + (childs + rest) =~= (order0 + childs) + rest);
        }
    }
    proof {
        assert(walk.stack@ =~= Seq::<usize>::empty());
        assert(walk_from(nds@, walk.stack@, (n - done.len()) as nat) =~= Seq::<usize>::empty());
        assert(trail.order =~= walk_order(nds@));
        assert forall|m: usize| 0 < m < nds@.len() implies #[trigger] walk_order(nds@).contains(
            m,
        ) by {
            lemma_all_known::<TW>(g, nds@, *t, walk.plan, done, trail, at, m as int);
        }
        assert forall|m: int| 0 < m < nds@.len() implies #[trigger] sized(
            nds@,
            *t,
            walk.plan.weights@,
            m,
        ) by {
            lemma_all_known::<TW>(g, nds@, *t, walk.plan, done, trail, at, m);
        }
    }
    (walk.plan, Ghost(trail.caches))
}

proof fn lemma_walk_begins<TW: TransWeight>(
    g: &Net,
    nds: Seq<TripTrieNd>,
    t: Task,
    plan: RoutePlan,
    stack: Seq<usize>,
    cache: Known,
)
    requires
        crate::router::trip_trie::is_tree(nds),
        plan.weights@.len() == nds.len(),
        plan.max_costs@.len() == nds.len(),
        stack.len() == 0,
    ensures
        walk_ok::<TW>(
            g,
            nds,
            t,
            plan,
            stack,
            Set::<usize>::empty().insert(0),
            (Trail { order: Seq::empty(), caches: seq![cache] }),
            0,
            0,
        ),
{
    lemma_root(nds);
    let done = Set::<usize>::empty().insert(0usize);
    assert forall|p: usize, k: int|
        #![trigger done.contains(p), nds[p as int].childs@[k]]
        done.contains(p) && 0 <= k < nds[p as int].childs@.len() implies (known(
        stack,
        done,
        nds[p as int].childs@[k],
    ) <==> (p != 0 || k < 0)) by {
        lemma_child(nds, p as int, k);
    }
}

/// Whether position `j` holds the first of the smallest weights, or is zero if none is reached.
pub open spec fn best_end(costs: Seq<u128>, j: usize) -> bool {
    if forall|i: int| 0 <= i < costs.len() ==> #[trigger] costs[i] >= DAG_INF {
        j == 0
    } else {
        &&& j < costs.len()
        &&& costs[j as int] < DAG_INF
        &&& forall|i: int| 0 <= i < costs.len() ==> costs[j as int] <= #[trigger] costs[i]
        &&& forall|i: int| 0 <= i < j ==> costs[j as int] < #[trigger] costs[i]
    }
}

fn best_end_of(costs: &Vec<u128>) -> (j: usize)
    requires
        costs@.len() > 0,
    ensures
        best_end(costs@, j),
        j < costs@.len(),
{
    let mut best: u128 = DAG_INF;
    let mut j: usize = 0;
    let mut i: usize = 0;
    while i < costs.len()
        invariant
            i <= costs@.len(),
            costs@.len() > 0,
            best <= DAG_INF,
            j < costs@.len(),
            best == DAG_INF ==> j == 0 && forall|k: int| 0 <= k < i ==> #[trigger] costs@[k] >= DAG_INF,
            best < DAG_INF ==> j < i && costs@[j as int] == best && (forall|k: int|
                0 <= k < i ==> best <= #[trigger] costs@[k]) && (forall|k: int|
                0 <= k < j ==> best < #[trigger] costs@[k]),
        decreases costs@.len() - i,
    {
        if costs[i] < best {
            best = costs[i];
            j = i;
        }
        i = i + 1;
    }
    j
}

/// The largest cost within which the way of a hop is looked for again.
pub open spec fn hop_limit(g: &Net, froms: Seq<EdgeCand>, max_cost: u32) -> u32 {
    capped((max_cost + max_part(g, froms) / (WHOLE_EDGE as nat)) as nat)
}

/// Whether a hop describes the way between two candidates.
pub open spec fn hop_ok(
    g: &Net,
    froms: Seq<EdgeCand>,
    fr: EdgeCand,
    to: EdgeCand,
    max_cost: u32,
    hop: EdgeHop,
) -> bool {
    &&& hop.start_edge == fr.edge
    &&& hop.end_edge == to.edge
    &&& hop.start_progr == (if fr.edge is Some {
        fr.progr
    } else {
        0
    })
    &&& hop.end_progr == (if to.edge is Some {
        to.progr
    } else {
        0
    })
    &&& hop.start_point == (if fr.edge is Some {
        None
    } else {
        fr.point
    })
    &&& hop.end_point == (if to.edge is Some {
        None
    } else {
        to.point
    })
    &&& if fr.edge is Some && to.edge is Some {
        exists|c: u32|
            {
                &&& #[trigger] cost_between(
                    g,
                    fr.edge->0,
                    hop_limit(g, froms, max_cost),
                    to.edge->0,
                    c,
                )
                &&& if c < hop_limit(g, froms, max_cost) {
                    shortest_path(g, fr.edge->0, to.edge->0, hop.edges@)
                } else {
                    hop.edges@.len() == 0
                }
            }
    } else {
        hop.edges@.len() == 0
    }
}

fn make_hop(g: &Net, froms: &EdgeCandGroup, fr: &EdgeCand, to: &EdgeCand, max_cost: u32) -> (hop: EdgeHop)
    requires
        g.wf(),
        cands_ok(g, froms@),
        fr.edge matches Some(e) ==> e < g.edges@.len(),
        to.edge matches Some(e) ==> e < g.edges@.len(),
    ensures
        hop_ok(g, froms@, *fr, *to, max_cost, hop),
{
    let mut edges: Vec<EdgeIndex> = Vec::new();
    if let (Some(a), Some(b)) = (fr.edge, to.edge) {
        let part: u64 = max_part_of(g, froms) / WHOLE_EDGE as u64;
        let sum: u64 = max_cost as u64 + part;
        let limit: u32 = if sum >= u32::MAX as u64 { u32::MAX } else { sum as u32 };
        assert(limit == hop_limit(g, froms@, max_cost));
        let target: [usize; 1] = [b];
        let costs: Vec<u32> = run_dijkstra_1_to_n(g, a, target.as_slice(), limit);
        let cost: u32 = costs[0];
        assert(cost_between(g, a, limit, b, cost)) by {
            assert(target@[0] == b);
            assert(costs@[0] == cost);
        }
        if cost < limit {
            edges = reconstruct_path(g, a, b);
        }
    }
    let on_fr = fr.edge.is_some();
    let on_to = to.edge.is_some();
    EdgeHop {
        edges,
        start_edge: fr.edge,
        end_edge: to.edge,
        start_progr: if on_fr { fr.progr } else { 0 },
        end_progr: if on_to { to.progr } else { 0 },
        start_point: if on_fr { None } else { fr.point },
        end_point: if on_to { None } else { to.point },
    }
}

/// Whether the hops are those by which candidate `j` of node `n` is reached, the first one first.
pub open spec fn traced(
    g: &Net,
    nds: Seq<TripTrieNd>,
    t: Task,
    plan: RoutePlan,
    n: int,
    j: usize,
    hops: Seq<EdgeHop>,
) -> bool
    decreases n,
{
    let i = plan.weights@[n].prede@[j as int];
    if n <= 0 || i == NO_PREDE || !(nds[n].parent is Some) || nds[n].parent->0 >= n {
        hops.len() == 0
    } else {
        let p = nds[n].parent->0 as int;
        if is_stay(nds, p as usize, n) {
            traced(g, nds, t, plan, p, i, hops)
        } else {
            &&& hops.len() > 0
            &&& hop_ok(
                g,
                t.cands(p),
                t.cands(p)[i as int],
                t.cands(n)[j as int],
                plan.max_costs@[n],
                hops.last(),
            )
            &&& traced(g, nds, t, plan, p, i, hops.drop_last())
        }
    }
}

/// Follows a node's weights back to where they began.
fn trace(
    g: &Net,
    nds: &Vec<TripTrieNd>,
    t: &Task,
    plan: &RoutePlan,
    n: usize,
    j: usize,
) -> (hops: EdgeListHops)
    requires
        g.wf(),
        crate::router::trip_trie::is_tree(nds@),
        task_ok(g, nds@, *t),
        plan.weights@.len() == nds@.len(),
        plan.max_costs@.len() == nds@.len(),
        forall|n: int| 0 < n < nds@.len() ==> #[trigger] sized(nds@, *t, plan.weights@, n),
        0 < n < nds@.len(),
        j < t.cands(n as int).len(),
    ensures
        traced(g, nds@, *t, *plan, n as int, j, hops@),
    decreases n,
{
    proof {
        lemma_parent(nds@, n as int);
        assert(sized(nds@, *t, plan.weights@, n as int));
    }
    let i: usize = plan.weights[n].prede[j];
    if i == NO_PREDE {
        return Vec::new();
    }
    let p: usize = match nds[n].parent {
        Some(p) => p,
        None => 0,
    };
    proof {
        assert(plan.weights@[n as int].prede@[j as int] == i);
        assert(p != 0);
    }
    let mut hops = trace(g, nds, t, plan, p, i);
    if nds[p].arr && !nds[n].arr {
        return hops;
    }
    let none: EdgeCandGroup = Vec::new();
    let froms = group_of(t.ecm, p, &none);
    let tos = group_of(t.ecm, n, &none);
    assert(t.cands(p as int) == froms@);
    assert(t.cands(n as int) == tos@);
    assert(froms@[i as int].progr <= WHOLE_EDGE);
    assert(tos@[j as int].progr <= WHOLE_EDGE);
    let hop = make_hop(g, froms, &froms[i], &tos[j], plan.max_costs[n]);
    let ghost before = hops@;
    hops.push(hop);
    assert(hops@.drop_last() =~= before);
    hops
}

/// Whether the hops are those by which the best candidate of node `n` is reached.
pub open spec fn routed(
    g: &Net,
    nds: Seq<TripTrieNd>,
    t: Task,
    plan: RoutePlan,
    n: usize,
    hops: Seq<EdgeHop>,
) -> bool {
    exists|j: usize| #[trigger]
        best_end(plan.weights@[n as int].costs@, j) && traced(g, nds, t, plan, n as int, j, hops)
}

impl<'a, TW: TransWeight> RouterImpl<'a, TW> {
    /// A router for a graph.
    pub fn new(graph: &'a Graph<NodePL, EdgePL>) -> (r: Self)
        ensures
            r.graph == graph,
    {
        RouterImpl { graph, weights: PhantomData }
    }

    /// Routes all trips of a tree, and returns for each node at which trips end the hops by which
    /// its best candidate is reached. A node that is reached without a hop has no entry.
    pub fn route(&self, trie: &TripTrie, t: &Task, hop_cache: &mut HopCache) -> (r: RouteMap)
        requires
            self.graph.wf(),
            trie.wf(),
            task_ok(self.graph, trie.spec_nds(), *t),
            old(hop_cache).wf(),
            forall|n: usize| #[trigger]
                trie.ends().contains_key(n) ==> n > 0 && t.cands(n as int).len() > 0,
        ensures
            final(hop_cache).wf(),
            !t.use_cache ==> *final(hop_cache) == *old(hop_cache),
            exists|plan: RoutePlan, caches: Seq<Known>|
                {
                    &&& #[trigger] plan_ok::<TW>(self.graph, trie.spec_nds(), *t, plan, caches)
                    &&& caches[0] == old(hop_cache)@
                    &&& caches.last() == final(hop_cache)@
                    &&& all_routed(
                        self.graph,
                        trie.spec_nds(),
                        *t,
                        plan,
                        trie.ends().dom(),
                        routes_in(r),
                    )
                },
    {
        let nds = trie.get_nds();
        proof {
            trie.lemma_nonempty();
            assert forall|n: int| #![trigger nds@[n]] 0 <= n < nds@.len() implies -0x4000_0000_0000_0000
                <= average_ns(nds@[n]) <= 0x4000_0000_0000_0000
                && -0x1_0000_0000_0000_0000_0000_0000 <= nds@[n].acc_time
                <= 0x1_0000_0000_0000_0000_0000_0000 by {
                trie.lemma_counts(n);
                lemma_average_bounded(nds@[n]);
            }
        }
        let (plan, Ghost(caches)) = plan_route::<TW>(self.graph, nds, t, hop_cache);
        let ends = trips_keys(trie.get_nd_trips());
        let mut r: RouteMap = routes_new();
        let mut k: usize = 0;
        let ghost mut done = Set::<usize>::empty();
        while k < ends.len()
            invariant
                self.graph.wf(),
                trie.wf(),
                nds@ == trie.spec_nds(),
                forall|n: usize| #[trigger] ends@.contains(n) <==> trie.ends().contains_key(n),
                ends@.no_duplicates(),
                crate::router::trip_trie::is_tree(nds@),
                task_ok(self.graph, nds@, *t),
                forall|n: usize| #[trigger]
                    trie.ends().contains_key(n) ==> n > 0 && t.cands(n as int).len() > 0,
                plan_ok::<TW>(self.graph, nds@, *t, plan, caches),
                forall|n: int| 0 < n < nds@.len() ==> #[trigger] sized(nds@, *t, plan.weights@, n),
                k <= ends@.len(),
                forall|n: usize| #[trigger]
                    done.contains(n) <==> exists|i: int| 0 <= i < k && #[trigger] ends@[i] == n,
                all_routed(self.graph, nds@, *t, plan, done, routes_in(r)),
            decreases ends@.len() - k,
        {
            let n: usize = ends[k];
            proof {
                assert(ends@.contains(n));
                trie.lemma_ends(n);
                assert(sized(nds@, *t, plan.weights@, n as int));
            }
            let j: usize = best_end_of(&plan.weights[n].costs);
            let hops = trace(self.graph, nds, t, &plan, n, j);
            let ghost before = routes_in(r);
            let ghost first = done;
            let ghost list = hops@;
            if hops.len() > 0 {
                routes_insert(&mut r, n, hops);
            }
            proof {
                done = done.insert(n);
                assert(best_end(plan.weights@[n as int].costs@, j));
                assert(routed(self.graph, nds@, *t, plan, n, list));
                assert(!first.contains(n));
                lemma_routed_more(self.graph, nds@, *t, plan, first, before, n, list, routes_in(r));
                assert forall|m: usize| #[trigger] done.contains(m) implies (exists|i: int|
                    0 <= i < k + 1 && #[trigger] ends@[i] == m) by {
                    if m == n {
                        assert(ends@[k as int] == m);
                    } else {
                        assert(first.contains(m));
                    }
                }
            }
            k = k + 1;
        }
        proof {
            assert(done =~= trie.ends().dom()) by {
                assert forall|n: usize| done.contains(n) <==> trie.ends().dom().contains(n) by {
                    if done.contains(n) {
                        let i = choose|i: int| 0 <= i < k && #[trigger] ends@[i] == n;
                        assert(ends@.contains(n));
                    }
                    if trie.ends().contains_key(n) {
                        assert(ends@.contains(n));
                    }
                }
            }
        }
        r
    }
}

/// Whether the hops of these nodes are those by which their best candidates are reached: a node has
/// an entry exactly if there is a hop.
pub open spec fn all_routed(
    g: &Net,
    nds: Seq<TripTrieNd>,
    t: Task,
    plan: RoutePlan,
    ends: Set<usize>,
    routes: Map<usize, Seq<EdgeHop>>,
) -> bool {
    &&& forall|n: usize| #[trigger] routes.contains_key(n) ==> ends.contains(n) && routes[n].len() > 0
    &&& forall|n: usize| #[trigger]
        ends.contains(n) ==> routed(
            g,
            nds,
            t,
            plan,
            n,
            if routes.contains_key(n) {
                routes[n]
            } else {
                Seq::empty()
            },
        )
}

proof fn lemma_routed_more(
    g: &Net,
    nds: Seq<TripTrieNd>,
    t: Task,
    plan: RoutePlan,
    ends: Set<usize>,
    before: Map<usize, Seq<EdgeHop>>,
    n: usize,
    hops: Seq<EdgeHop>,
    after: Map<usize, Seq<EdgeHop>>,
)
    requires
        all_routed(g, nds, t, plan, ends, before),
        !ends.contains(n),
        routed(g, nds, t, plan, n, hops),
        after == (if hops.len() > 0 {
            before.insert(n, hops)
        } else {
            before
        }),
    ensures
        all_routed(g, nds, t, plan, ends.insert(n), after),
{
    assert(!before.contains_key(n));
    assert forall|m: usize| #[trigger] ends.insert(n).contains(m) implies routed(
        g,
        nds,
        t,
        plan,
        m,
        if after.contains_key(m) {
            after[m]
        } else {
            Seq::empty()
        },
    ) by {
        if m == n {
            if hops.len() == 0 {
                assert(hops =~= Seq::<EdgeHop>::empty());
            }
        } else {
            assert(ends.contains(m));
            assert(after.contains_key(m) == before.contains_key(m));
        }
    }
}

proof fn lemma_average_bounded(nd: TripTrieNd)
    requires
        -(nd.trips as int) * 0x1_0000_0000 <= nd.acc_time <= (nd.trips as int) * 0x1_0000_0000,
    ensures
        -0x4000_0000_0000_0000 <= average_ns(nd) <= 0x4000_0000_0000_0000,
        -0x1_0000_0000_0000_0000_0000_0000 <= nd.acc_time
            <= 0x1_0000_0000_0000_0000_0000_0000,
{
    let d = nd.trips as int;
    if d > 0 {
        let x = nd.acc_time * 1_000_000_000;
        assert(-0x4000_0000_0000_0000 <= x / d <= 0x4000_0000_0000_0000) by (nonlinear_arith)
            requires
                d > 0,
                -d * 0x1_0000_0000 * 1_000_000_000 <= x <= d * 0x1_0000_0000 * 1_000_000_000,
        ;
    }
}

// What a plan is for.

/// Whether the step to a node is a ride.
pub open spec fn is_ride(nds: Seq<TripTrieNd>, n: int) -> bool {
    &&& 0 < n < nds.len()
    &&& nds[n].parent is Some
    &&& nds[n].parent->0 != 0
    &&& !is_stay(nds, nds[n].parent->0, n)
}

/// Whether these are the ways by which a plan rides to a node: a search may find them, none of them leads to
/// a candidate for less than the plan says, and the plan takes the least that they allow, unless none of them
/// reaches any.
pub open spec fn rides_by(
    g: &Net,
    nds: Seq<TripTrieNd>,
    t: Task,
    plan: RoutePlan,
    n: int,
    a: Attempt,
) -> bool {
    let p = nds[n].parent->0 as int;
    let costs = plan.weights@[p].costs@;
    &&& may_find::<ExpoTransWeight>(
        g,
        t.cands(p),
        t.cands(n),
        costs,
        *t.opts,
        t.no_fast_hops,
        plan.max_costs@[n],
        a,
    )
    &&& rows_in(a.rows, t.cands(p).len(), t.cands(n).len())
    &&& forall|k: int|
        0 <= k < a.rows.len() ==> plan.weights@[n].costs@[(#[trigger] a.rows[k]).0.1 as int] <= price(
            costs,
            t.cands(n),
            *t.opts,
            a.rows[k],
        )
    &&& takes_least(plan.weights@[n], costs, t.cands(n), *t.opts, a.rows) || forall|k: int|
        0 <= k < a.rows.len() ==> price(costs, t.cands(n), *t.opts, #[trigger] a.rows[k]) >= DAG_INF
}

/// Whether the choice of a candidate for each node leads down to a node: a departure may follow the
/// candidate of its arrival, and a ride between two candidates is one of the ways found, at this cost.
pub open spec fn may_choose(
    nds: Seq<TripTrieNd>,
    t: Task,
    found: spec_fn(int) -> Attempt,
    choice: spec_fn(int) -> usize,
    cost: spec_fn(int) -> u32,
    n: int,
) -> bool
    decreases n,
{
    let p = nds[n].parent->0 as int;
    &&& choice(n) < t.cands(n).len()
    &&& 0 < p < n ==> {
        &&& may_choose(nds, t, found, choice, cost, p)
        &&& if is_stay(nds, p as usize, n) {
            t.cands(n)[choice(n) as int].dep_prede@.contains(choice(p))
        } else {
            found(n).rows.contains(((choice(p), choice(n)), cost(n)))
        }
    }
}

/// What a choice of candidates costs: the penalties of all of them, and the costs of the ways between them at
/// the penalty of travel.
pub open spec fn choice_cost(
    nds: Seq<TripTrieNd>,
    t: Task,
    choice: spec_fn(int) -> usize,
    cost: spec_fn(int) -> u32,
    n: int,
) -> int
    decreases n,
{
    let p = nds[n].parent->0 as int;
    t.cands(n)[choice(n) as int].pen + if 0 < p < n {
        choice_cost(nds, t, choice, cost, p) + if is_stay(nds, p as usize, n) {
            0
        } else {
            t.opts.transition_pen * cost(n)
        }
    } else {
        0
    }
}

/// The weights of a plan are in range.
proof fn lemma_plan_bounded(
    g: &Net,
    nds: Seq<TripTrieNd>,
    t: Task,
    plan: RoutePlan,
    caches: Seq<Known>,
    n: int,
)
    requires
        crate::router::trip_trie::is_tree(nds),
        nds.len() <= usize::MAX,
        plan_ok::<ExpoTransWeight>(g, nds, t, plan, caches),
        0 < n < nds.len(),
    ensures
        plan.weights@[n].costs@.len() == t.cands(n).len(),
        forall|j: int|
            0 <= j < t.cands(n).len() ==> #[trigger] plan.weights@[n].costs@[j] <= DAG_INF,
{
    let order = walk_order(nds);
    assert(order.contains(n as usize));
    let i = choose|i: int| 0 <= i < order.len() && order[i] == n as usize;
    assert(order[i] == n as usize);
    assert(step_ok::<ExpoTransWeight>(
        g,
        nds,
        t,
        plan.weights@,
        plan.max_costs@,
        n,
        caches[i],
        caches[i + 1],
    ));
    let p = nds[n].parent->0;
    let w = plan.weights@[n];
    if p == 0 {
    } else if is_stay(nds, p, n) {
        let offers = |j: int| stay_offers(plan.weights@[p as int].costs@, t.cands(n)[j]);
        assert forall|j: int| 0 <= j < t.cands(n).len() implies #[trigger] w.costs@[j] <= DAG_INF by {
            assert((w.costs@[j], w.prede@[j]) == best_offer(offers(j)));
            crate::router::dag::lemma_best_offer(offers(j));
        }
    } else {
        let costs = plan.weights@[p as int].costs@;
        let first = ExpoTransWeight::spec_max_cost(
            hop_ns(nds[p as int], nds[n], t.hop_dists@[n]) as u128,
            *t.opts,
        );
        let tries = choose|tries: Seq<Attempt>| #[trigger]
            hop_step::<ExpoTransWeight>(
                g,
                t.cands(p as int),
                t.cands(n),
                costs,
                t.hop_dists@[n],
                *t.opts,
                t.no_fast_hops,
                t.use_cache,
                first,
                caches[i],
                tries,
                caches[i + 1],
                w,
                plan.max_costs@[n],
            );
        let a = tries[tries.len() - 1];
        let ride = |j: int|
            crate::router::dag::row_offers::<ExpoTransWeight>(
                costs,
                t.cands(p as int),
                t.cands(n),
                a.rows,
                t.hop_dists@[n],
                *t.opts,
                j,
            );
        let none = |j: int|
            crate::router::dag::giving_up_offers(costs, t.cands(n), plan.max_costs@[n], j);
        assert forall|j: int| 0 <= j < t.cands(n).len() implies #[trigger] w.costs@[j] <= DAG_INF by {
            crate::router::dag::lemma_best_offer(ride(j));
            crate::router::dag::lemma_best_offer(none(j));
        }
    }
}

proof fn lemma_rides(
    g: &Net,
    nds: Seq<TripTrieNd>,
    t: Task,
    plan: RoutePlan,
    caches: Seq<Known>,
    n: int,
) -> (a: Attempt)
    requires
        crate::router::trip_trie::is_tree(nds),
        nds.len() <= usize::MAX,
        forall|n: int| #[trigger] t.cands(n).len() <= usize::MAX,
        plan_ok::<ExpoTransWeight>(g, nds, t, plan, caches),
        is_ride(nds, n),
    ensures
        rides_by(g, nds, t, plan, n, a),
{
    let order = walk_order(nds);
    assert(order.contains(n as usize));
    let i = choose|i: int| 0 <= i < order.len() && order[i] == n as usize;
    assert(order[i] == n as usize);
    let p = nds[n].parent->0;
    let costs = plan.weights@[p as int].costs@;
    let first = ExpoTransWeight::spec_max_cost(
        hop_ns(nds[p as int], nds[n], t.hop_dists@[n]) as u128,
        *t.opts,
    );
    lemma_parent(nds, n);
    lemma_plan_bounded(g, nds, t, plan, caches, p as int);
    assert(t.cands(p as int).len() <= usize::MAX && t.cands(n).len() <= usize::MAX);
    assert(step_ok::<ExpoTransWeight>(
        g,
        nds,
        t,
        plan.weights@,
        plan.max_costs@,
        n,
        caches[i],
        caches[i + 1],
    ));
    let tries = choose|tries: Seq<Attempt>| #[trigger]
        hop_step::<ExpoTransWeight>(
            g,
            t.cands(p as int),
            t.cands(n),
            costs,
            t.hop_dists@[n],
            *t.opts,
            t.no_fast_hops,
            t.use_cache,
            first,
            caches[i],
            tries,
            caches[i + 1],
            plan.weights@[n],
            plan.max_costs@[n],
        );
    lemma_travel(
        g,
        t.cands(p as int),
        t.cands(n),
        costs,
        t.hop_dists@[n],
        *t.opts,
        t.no_fast_hops,
        t.use_cache,
        first,
        caches[i],
        tries,
        caches[i + 1],
        plan.weights@[n],
        plan.max_costs@[n],
    )
}

/// A plan rides by ways that were found, and it takes the least that they allow.
pub proof fn lemma_plan_rides(
    g: &Net,
    nds: Seq<TripTrieNd>,
    t: Task,
    plan: RoutePlan,
    caches: Seq<Known>,
) -> (found: spec_fn(int) -> Attempt)
    requires
        crate::router::trip_trie::is_tree(nds),
        nds.len() <= usize::MAX,
        forall|n: int| #[trigger] t.cands(n).len() <= usize::MAX,
        plan_ok::<ExpoTransWeight>(g, nds, t, plan, caches),
    ensures
        forall|n: int| #[trigger]
            is_ride(nds, n) ==> rides_by(g, nds, t, plan, n, found(n)),
{
    let found = |n: int| choose|a: Attempt| rides_by(g, nds, t, plan, n, a);
    assert forall|n: int| #[trigger] is_ride(nds, n) implies rides_by(g, nds, t, plan, n, found(n)) by {
        let a = lemma_rides(g, nds, t, plan, caches, n);
        assert(rides_by(g, nds, t, plan, n, a));
    }
    found
}

/// A plan is the best there is: whatever candidates are chosen on the way to a node, and whichever of the ways
/// found between them are taken, the penalties and the costs of the ways together are not below the weight that
/// the plan gives to the candidate chosen there.
pub proof fn lemma_plan_is_cheapest(
    g: &Net,
    nds: Seq<TripTrieNd>,
    t: Task,
    plan: RoutePlan,
    caches: Seq<Known>,
    found: spec_fn(int) -> Attempt,
    choice: spec_fn(int) -> usize,
    cost: spec_fn(int) -> u32,
    n: int,
)
    requires
        crate::router::trip_trie::is_tree(nds),
        nds.len() <= usize::MAX,
        task_ok(g, nds, t),
        plan_ok::<ExpoTransWeight>(g, nds, t, plan, caches),
        forall|n: int| #[trigger]
            is_ride(nds, n) ==> rides_by(g, nds, t, plan, n, found(n)),
        0 < n < nds.len(),
        may_choose(nds, t, found, choice, cost, n),
    ensures
        plan.weights@[n].costs@[choice(n) as int] <= choice_cost(nds, t, choice, cost, n),
    decreases n,
{
    let order = walk_order(nds);
    assert(order.contains(n as usize));
    let i = choose|i: int| 0 <= i < order.len() && order[i] == n as usize;
    assert(order[i] == n as usize);
    assert(step_ok::<ExpoTransWeight>(
        g,
        nds,
        t,
        plan.weights@,
        plan.max_costs@,
        n,
        caches[i],
        caches[i + 1],
    ));
    lemma_parent(nds, n);
    let p = nds[n].parent->0;
    let w = plan.weights@[n];
    let j = choice(n) as int;
    if p == 0 {
        assert(w.costs@[j] == t.cands(n)[j].pen);
    } else {
        lemma_plan_is_cheapest(g, nds, t, plan, caches, found, choice, cost, p as int);
        lemma_plan_bounded(g, nds, t, plan, caches, p as int);
        let costs = plan.weights@[p as int].costs@;
        if is_stay(nds, p, n) {
            assert forall|j: int, k: int|
                #![trigger t.cands(n)[j].dep_prede@[k]]
                0 <= j < t.cands(n).len() && 0 <= k < t.cands(n)[j].dep_prede@.len() implies t.cands(
                n,
            )[j].dep_prede@[k] < costs.len() by {}
            lemma_stay_takes_least(costs, t.cands(n), w, j);
        } else {
            assert(is_ride(nds, n));
            let row = ((choice(p as int), choice(n)), cost(n));
            let rows = found(n).rows;
            let k = choose|k: int| 0 <= k < rows.len() && rows[k] == row;
            assert(rows[k] == row);
            assert(w.costs@[rows[k].0.1 as int] <= price(costs, t.cands(n), *t.opts, rows[k]));
        }
    }
}

/// The average time at a node is the sum of the times over the number of trips, rounded down.
pub proof fn lemma_average_ns(nd: TripTrieNd)
    requires
        nd.trips > 0,
    ensures
        average_ns(nd) * nd.trips <= nd.acc_time * 1_000_000_000 < (average_ns(nd) + 1) * nd.trips,
{
    let a = nd.acc_time * 1_000_000_000;
    let n = nd.trips as int;
    let q = a / n;
    assert(q * n <= a < (q + 1) * n) by (nonlinear_arith)
        requires
            n > 0,
            q == a / n,
    ;
}

/// The time of a hop is never less than planned, and never less than what a hundred and thirty kilometres an
/// hour, which are 3611 centimetres a second, take for it; it is one of the two, rounded down.
pub proof fn lemma_hop_time(fr: TripTrieNd, to: TripTrieNd, hop_dist: u64)
    ensures
        hop_ns(fr, to, hop_dist) >= average_ns(to) - average_ns(fr),
        (hop_ns(fr, to, hop_dist) + 1) * 3611 > hop_dist * 100_000_000,
        hop_ns(fr, to, hop_dist) == average_ns(to) - average_ns(fr) || hop_ns(fr, to, hop_dist) * 3611
            <= hop_dist * 100_000_000,
{
}

} // verus!
