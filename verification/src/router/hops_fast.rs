//! The costs between the candidates of two stops, found by a single search.
//!
//! All candidates of the first stop start together, each with the cost that its own weight stands
//! for, and each edge of the second stop is reached from the one that is cheapest in total. Only
//! that one counts.

use crate::graph::EdgeIndex;
use crate::hashed::{indices_insert, indices_new, indices_of, labels_get, labels_of, IndexSet, Label};
use crate::router::edge_search::{best_bids, search_from, Net, ROUTE_INF};
use crate::router::hop_cache::{lemma_take_contains, HopCache, HopCost};
use crate::router::hops::{
    cand_cost, cand_cost_of, cands_ok, clamp_u32, part_cost, part_cost_of, HopRow, DAG_INF,
};
use crate::router::types::{EdgeCand, EdgeCandGroup, WHOLE_EDGE};
use crate::router::weights::{capped, RoutingOpts, TransWeight};
use vstd::prelude::*;

verus! {

/// The connected component in which an edge begins.
pub open spec fn comp_of(g: &Net, e: usize) -> usize {
    g.nodes@[g.edges@[e as int].from as int].payload.comp_id
}

pub open spec fn same_comp(g: &Net, a: EdgeCand, b: EdgeCand) -> bool {
    a.edge is Some && b.edge is Some && comp_of(g, a.edge->0) == comp_of(g, b.edge->0)
}

/// Whether a candidate shares its component with one of a group.
pub open spec fn is_connected(g: &Net, c: EdgeCand, group: Seq<EdgeCand>) -> bool {
    exists|j: int| 0 <= j < group.len() && same_comp(g, c, #[trigger] group[j])
}

/// Whether a candidate shares its component with one of a group.
pub fn connected(g: &Net, c: &EdgeCand, group: &EdgeCandGroup) -> (r: bool)
    requires
        g.wf(),
        c.edge matches Some(e) ==> e < g.edges@.len(),
        cands_ok(g, group@),
    ensures
        r == is_connected(g, *c, group@),
{
    if let Some(e) = c.edge {
        let at: usize = g.edge(e).from;
        assert(g.edges@[e as int].from == at);
        let comp: usize = g.node(at).payload.comp_id;
        let mut j: usize = 0;
        while j < group.len()
            invariant
                g.wf(),
                cands_ok(g, group@),
                j <= group@.len(),
                c.edge == Some(e),
                comp == comp_of(g, e),
                forall|i: int| 0 <= i < j ==> !same_comp(g, *c, #[trigger] group@[i]),
            decreases group@.len() - j,
        {
            assert(group@[j as int].progr <= WHOLE_EDGE);
            if let Some(o) = group[j].edge {
                let from: usize = g.edge(o).from;
                assert(g.edges@[o as int].from == from);
                if comp == g.node(from).payload.comp_id {
                    assert(same_comp(g, *c, group@[j as int]));
                    return true;
                }
            }
            j = j + 1;
        }
    }
    false
}

/// The distinct entries, in the order in which they first occur.
pub open spec fn distinct_keys(keys: Seq<Option<usize>>) -> Seq<usize>
    decreases keys.len(),
{
    if keys.len() == 0 {
        Seq::empty()
    } else {
        let rest = distinct_keys(keys.drop_last());
        match keys.last() {
            Some(e) => if rest.contains(e) {
                rest
            } else {
                rest.push(e)
            },
            None => rest,
        }
    }
}

/// The positions at which an entry occurs, ascending.
pub open spec fn positions(keys: Seq<Option<usize>>, e: usize) -> Seq<usize>
    decreases keys.len(),
{
    if keys.len() == 0 {
        Seq::empty()
    } else {
        let rest = positions(keys.drop_last(), e);
        if keys.last() == Some(e) {
            rest.push((keys.len() - 1) as usize)
        } else {
            rest
        }
    }
}

/// An entry is listed exactly if it occurs, and only once.
pub proof fn lemma_distinct_keys(keys: Seq<Option<usize>>)
    ensures
        distinct_keys(keys).no_duplicates(),
        forall|e: usize| #[trigger]
            distinct_keys(keys).contains(e) <==> exists|i: int|
                0 <= i < keys.len() && keys[i] == Some(e),
    decreases keys.len(),
{
    if keys.len() > 0 {
        let p = keys.drop_last();
        lemma_distinct_keys(p);
        let a = distinct_keys(p);
        let b = distinct_keys(keys);
        assert forall|e: usize| #[trigger] b.contains(e) <==> exists|i: int|
            0 <= i < keys.len() && keys[i] == Some(e) by {
            if b.contains(e) {
                if a.contains(e) {
                    let i = choose|i: int| 0 <= i < p.len() && p[i] == Some(e);
                    assert(keys[i] == Some(e));
                } else {
                    assert(keys[keys.len() - 1] == Some(e));
                }
            }
            if exists|i: int| 0 <= i < keys.len() && keys[i] == Some(e) {
                let i = choose|i: int| 0 <= i < keys.len() && keys[i] == Some(e);
                if i < p.len() {
                    assert(p[i] == Some(e));
                    assert(a.contains(e));
                    let j = choose|j: int| 0 <= j < a.len() && a[j] == e;
                    assert(b[j] == e);
                } else if !a.contains(e) {
                    assert(b[a.len() as int] == e);
                }
            }
        }
    }
}

/// Positions are in range and hold the entry.
pub proof fn lemma_positions(keys: Seq<Option<usize>>, e: usize)
    requires
        keys.len() <= usize::MAX,
    ensures
        forall|k: int|
            #![trigger positions(keys, e)[k]]
            0 <= k < positions(keys, e).len() ==> positions(keys, e)[k] < keys.len()
                && keys[positions(keys, e)[k] as int] == Some(e),
    decreases keys.len(),
{
    if keys.len() > 0 {
        lemma_positions(keys.drop_last(), e);
        let a = positions(keys.drop_last(), e);
        assert forall|k: int| #![trigger positions(keys, e)[k]] 0 <= k < positions(keys, e).len() implies positions(
            keys,
            e,
        )[k] < keys.len() && keys[positions(keys, e)[k] as int] == Some(e) by {
            if k < a.len() {
                assert(a[k] == positions(keys, e)[k]);
            }
        }
    }
}

fn distinct_keys_of(keys: &Vec<Option<usize>>) -> (r: Vec<usize>)
    ensures
        r@ == distinct_keys(keys@),
{
    let mut seen: IndexSet = indices_new();
    let mut r: Vec<usize> = Vec::new();
    let mut i: usize = 0;
    while i < keys.len()
        invariant
            i <= keys@.len(),
            r@ == distinct_keys(keys@.take(i as int)),
            forall|e: usize| #[trigger] indices_of(seen).contains(e) <==> r@.contains(e),
        decreases keys@.len() - i,
    {
        assert(keys@.take(i + 1).drop_last() =~= keys@.take(i as int));
        if let Some(e) = keys[i] {
            if indices_insert(&mut seen, e) {
                let ghost r0 = r@;
                r.push(e);
                proof {
                    assert(r@[r0.len() as int] == e);
                    assert forall|x: usize| #[trigger] r@.contains(x) <==> r0.contains(x) || x == e by {
                        if r0.contains(x) {
                            let j = choose|j: int| 0 <= j < r0.len() && r0[j] == x;
                            assert(r@[j] == x);
                        }
                    }
                }
            }
        }
        i = i + 1;
    }
    assert(keys@.take(i as int) =~= keys@);
    r
}

fn positions_of(keys: &Vec<Option<usize>>, e: usize) -> (r: Vec<usize>)
    ensures
        r@ == positions(keys@, e),
{
    let mut r: Vec<usize> = Vec::new();
    let mut i: usize = 0;
    while i < keys.len()
        invariant
            i <= keys@.len(),
            r@ == positions(keys@.take(i as int), e),
        decreases keys@.len() - i,
    {
        assert(keys@.take(i + 1).drop_last() =~= keys@.take(i as int));
        if let Some(x) = keys[i] {
            if x == e {
                r.push(i);
            }
        }
        i = i + 1;
    }
    assert(keys@.take(i as int) =~= keys@);
    r
}

/// What is known of a cost, as a number: zero if nothing is.
pub open spec fn known_cost(c: HopCost) -> u32 {
    match c {
        HopCost::Unknown => 0,
        HopCost::AtLeast(x) => x,
        HopCost::Exactly(x) => x,
    }
}

/// Whether the cache knows that none of the edges reaches `to` within the limit.
pub open spec fn is_dropped(
    cache: spec_fn((usize, usize)) -> HopCost,
    e_frs: Seq<usize>,
    to: usize,
    max_cost: u32,
) -> bool {
    forall|i: int|
        0 <= i < e_frs.len() ==> known_cost(cache((#[trigger] e_frs[i], to))) > max_cost
}

/// Whether the cache knows that none of the edges reaches `to` within the limit.
pub fn cache_drop(hop_cache: &HopCache, e_frs: &Vec<EdgeIndex>, to: EdgeIndex, max_cost: u32) -> (r:
    bool)
    requires
        hop_cache.wf(),
    ensures
        r == is_dropped(hop_cache@, e_frs@, to, max_cost),
{
    let mut i: usize = 0;
    while i < e_frs.len()
        invariant
            i <= e_frs@.len(),
            hop_cache.wf(),
            forall|j: int|
                0 <= j < i ==> known_cost(hop_cache@((#[trigger] e_frs@[j], to))) > max_cost,
        decreases e_frs@.len() - i,
    {
        let (known, _exact): (u32, bool) = hop_cache.get(e_frs[i], to);
        if known <= max_cost {
            assert(known_cost(hop_cache@((e_frs@[i as int], to))) <= max_cost);
            return false;
        }
        i = i + 1;
    }
    true
}

/// The sum of two costs, cut off at `u32::MAX`.
pub fn add_non_overflow(a: u32, b: u32) -> (r: u32)
    ensures
        r == capped((a + b) as nat),
{
    a.saturating_add(b)
}

/// The largest cost that lies before a candidate on its edge, in billionths.
pub open spec fn max_part(g: &Net, froms: Seq<EdgeCand>) -> nat
    decreases froms.len(),
{
    if froms.len() == 0 {
        0
    } else {
        let rest = max_part(g, froms.drop_last());
        match froms.last().edge {
            Some(e) => {
                let p = part_cost(g, e, froms.last().progr);
                if p > rest {
                    p
                } else {
                    rest
                }
            },
            None => rest,
        }
    }
}

/// What a weight stands for.
pub open spec fn inv_of<TW: TransWeight>(opts: RoutingOpts) -> spec_fn(u128) -> u32 {
    |c: u128| TW::spec_inv_weight(c, opts)
}

/// The cost with which a candidate starts, given the largest part that lies before a candidate:
/// what its weight stands for, and what it has to go less than the others have behind them.
pub open spec fn prep_cost(
    g: &Net,
    c: EdgeCand,
    init: u128,
    inv: spec_fn(u128) -> u32,
    top: nat,
) -> u32 {
    capped(
        (inv(init) + (top - part_cost(g, c.edge->0, c.progr)) / (WHOLE_EDGE as int)) as nat,
    )
}

/// The least cost with which one of the first `n` candidates starts on an edge.
pub open spec fn init_cost(
    g: &Net,
    froms: Seq<EdgeCand>,
    init: Seq<u128>,
    inv: spec_fn(u128) -> u32,
    top: nat,
    e: usize,
    n: int,
) -> u32
    decreases n,
{
    if n <= 0 {
        ROUTE_INF
    } else {
        let rest = init_cost(g, froms, init, inv, top, e, n - 1);
        let c = froms[n - 1];
        if c.edge == Some(e) && init[n - 1] < DAG_INF && prep_cost(g, c, init[n - 1], inv, top)
            < rest {
            prep_cost(g, c, init[n - 1], inv, top)
        } else {
            rest
        }
    }
}

/// The least of several costs, but at most `ROUTE_INF`.
pub open spec fn least(costs: Seq<u32>) -> u32
    decreases costs.len(),
{
    if costs.len() == 0 {
        ROUTE_INF
    } else {
        let rest = least(costs.drop_last());
        if costs.last() < rest {
            costs.last()
        } else {
            rest
        }
    }
}

/// The largest of several costs, `ROUTE_INF` aside.
pub open spec fn largest(costs: Seq<u32>) -> u32
    decreases costs.len(),
{
    if costs.len() == 0 {
        0
    } else {
        let rest = largest(costs.drop_last());
        if costs.last() != ROUTE_INF && costs.last() > rest {
            costs.last()
        } else {
            rest
        }
    }
}

/// The edges that can start, each with what its cost exceeds the least one by.
pub open spec fn starts_of(edges: Seq<usize>, costs: Seq<u32>, least: u32) -> Seq<(usize, u32)>
    decreases edges.len(),
{
    if edges.len() == 0 {
        Seq::empty()
    } else {
        let rest = starts_of(edges.drop_last(), costs.drop_last(), least);
        if costs.last() < ROUTE_INF {
            rest.push((edges.last(), (costs.last() - least) as u32))
        } else {
            rest
        }
    }
}

/// What a search between two stops looks at.
pub struct FastPlan {
    /// For each candidate of the first stop, its edge if it takes part.
    pub fr_keys: Seq<Option<usize>>,
    /// For each candidate of the second stop, its edge if it takes part.
    pub to_keys: Seq<Option<usize>>,
    /// The cost with which each edge of the first stop starts.
    pub init: spec_fn(usize) -> u32,
    pub least: u32,
    pub starts: Seq<(usize, u32)>,
    /// How much the largest part before a candidate costs.
    pub slack: u32,
    pub max_cost: u32,
    pub max_search: u32,
}

pub open spec fn fr_key(
    g: &Net,
    froms: Seq<EdgeCand>,
    tos: Seq<EdgeCand>,
    init: Seq<u128>,
    i: int,
) -> Option<usize> {
    if init[i] < DAG_INF && is_connected(g, froms[i], tos) {
        froms[i].edge
    } else {
        None
    }
}

pub open spec fn to_key(
    g: &Net,
    froms: Seq<EdgeCand>,
    tos: Seq<EdgeCand>,
    cache: spec_fn((usize, usize)) -> HopCost,
    e_frs: Seq<usize>,
    max_cost: u32,
    j: int,
) -> Option<usize> {
    if is_connected(g, tos[j], froms) && tos[j].edge is Some && !is_dropped(
        cache,
        e_frs,
        tos[j].edge->0,
        max_cost,
    ) {
        tos[j].edge
    } else {
        None
    }
}

/// The plan of a search between two stops.
pub open spec fn fast_plan(
    g: &Net,
    froms: Seq<EdgeCand>,
    tos: Seq<EdgeCand>,
    init: Seq<u128>,
    inv: spec_fn(u128) -> u32,
    cache: spec_fn((usize, usize)) -> HopCost,
    max_cost: u32,
) -> FastPlan {
    let fr_keys = Seq::new(froms.len(), |i: int| fr_key(g, froms, tos, init, i));
    let e_frs = distinct_keys(fr_keys);
    let to_keys = Seq::new(
        tos.len(),
        |j: int| to_key(g, froms, tos, cache, e_frs, max_cost, j),
    );
    let top = max_part(g, froms);
    let first = |e: usize| init_cost(g, froms, init, inv, top, e, froms.len() as int);
    let costs = e_frs.map_values(first);
    let slack = (top / (WHOLE_EDGE as nat)) as u32;
    let wider = capped((max_cost + slack) as nat);
    FastPlan {
        fr_keys,
        to_keys,
        init: first,
        least: least(costs),
        starts: starts_of(e_frs, costs, least(costs)),
        slack,
        max_cost: wider,
        max_search: capped((wider + clamp_u32(largest(costs) - least(costs))) as nat),
    }
}

/// The cost, from the end of its own edge, of the way by which an edge was reached.
pub open spec fn way_cost(p: FastPlan, l: Label) -> u32 {
    clamp_u32(l.g - clamp_u32((p.init)(l.origin) - p.least))
}

/// The rows of one candidate of the first stop with several of the second.
pub open spec fn fast_rows_one(
    g: &Net,
    p: FastPlan,
    froms: Seq<EdgeCand>,
    tos: Seq<EdgeCand>,
    base: u32,
    i: usize,
    js: Seq<usize>,
) -> Seq<HopRow>
    decreases js.len(),
{
    if js.len() == 0 {
        Seq::empty()
    } else {
        let rest = fast_rows_one(g, p, froms, tos, base, i, js.drop_last());
        let j = js.last();
        match cand_cost(g, froms[i as int], tos[j as int], base) {
            Some(c) => if c < clamp_u32(p.max_cost - p.slack) {
                rest.push(((i, j), c))
            } else {
                rest
            },
            None => rest,
        }
    }
}

/// The rows of several candidates of the first stop with several of the second.
pub open spec fn fast_rows_block(
    g: &Net,
    p: FastPlan,
    froms: Seq<EdgeCand>,
    tos: Seq<EdgeCand>,
    base: u32,
    is: Seq<usize>,
    js: Seq<usize>,
) -> Seq<HopRow>
    decreases is.len(),
{
    if is.len() == 0 {
        Seq::empty()
    } else {
        fast_rows_block(g, p, froms, tos, base, is.drop_last(), js) + fast_rows_one(
            g,
            p,
            froms,
            tos,
            base,
            is.last(),
            js,
        )
    }
}

/// The rows that belong to one edge of the second stop.
pub open spec fn fast_rows_edge(
    g: &Net,
    p: FastPlan,
    froms: Seq<EdgeCand>,
    tos: Seq<EdgeCand>,
    f: Map<usize, Label>,
    e: usize,
) -> Seq<HopRow> {
    if f.contains_key(e) && way_cost(p, f[e]) < p.max_cost {
        fast_rows_block(
            g,
            p,
            froms,
            tos,
            way_cost(p, f[e]),
            positions(p.fr_keys, f[e].origin),
            positions(p.to_keys, e),
        )
    } else {
        Seq::empty()
    }
}

/// The rows that belong to several edges of the second stop.
pub open spec fn fast_rows(
    g: &Net,
    p: FastPlan,
    froms: Seq<EdgeCand>,
    tos: Seq<EdgeCand>,
    f: Map<usize, Label>,
    edges: Seq<usize>,
) -> Seq<HopRow>
    decreases edges.len(),
{
    if edges.len() == 0 {
        Seq::empty()
    } else {
        fast_rows(g, p, froms, tos, f, edges.drop_last()) + fast_rows_edge(
            g,
            p,
            froms,
            tos,
            f,
            edges.last(),
        )
    }
}

/// Whether the labels, the rows and the cache are what a search by the plan leads to.
pub open spec fn fast_outcome(
    g: &Net,
    p: FastPlan,
    froms: Seq<EdgeCand>,
    tos: Seq<EdgeCand>,
    f: Map<usize, Label>,
    rows: Seq<HopRow>,
    before: spec_fn((usize, usize)) -> HopCost,
    after: spec_fn((usize, usize)) -> HopCost,
) -> bool {
    &&& best_bids(g, p.starts, p.max_search, None, f)
    &&& rows == fast_rows(g, p, froms, tos, f, distinct_keys(p.to_keys))
    &&& forall|k: (usize, usize)| #[trigger]
        after(k) == (if distinct_keys(p.fr_keys).contains(k.0) && distinct_keys(
            p.to_keys,
        ).contains(k.1) && !f.contains_key(k.1) {
            HopCost::AtLeast(p.max_cost)
        } else {
            before(k)
        })
}

pub(crate) fn max_part_of(g: &Net, froms: &EdgeCandGroup) -> (r: u64)
    requires
        cands_ok(g, froms@),
    ensures
        r == max_part(g, froms@),
        r <= 0xffff_ffff * 1_000_000_000,
        forall|i: int|
            #![trigger froms@[i]]
            0 <= i < froms@.len() && froms@[i].edge is Some ==> part_cost(
                g,
                froms@[i].edge->0,
                froms@[i].progr,
            ) <= r,
{
    let mut r: u64 = 0;
    let mut i: usize = 0;
    while i < froms.len()
        invariant
            i <= froms@.len(),
            cands_ok(g, froms@),
            r == max_part(g, froms@.take(i as int)),
            r <= 0xffff_ffff * 1_000_000_000,
            forall|j: int|
                #![trigger froms@[j]]
                0 <= j < i && froms@[j].edge is Some ==> part_cost(
                    g,
                    froms@[j].edge->0,
                    froms@[j].progr,
                ) <= r,
        decreases froms@.len() - i,
    {
        assert(froms@.take(i + 1).drop_last() =~= froms@.take(i as int));
        assert(froms@[i as int].progr <= WHOLE_EDGE);
        if let Some(e) = froms[i].edge {
            let p: u64 = part_cost_of(g, e, froms[i].progr);
            if p > r {
                r = p;
            }
        }
        i = i + 1;
    }
    assert(froms@.take(i as int) =~= froms@);
    r
}

fn init_cost_of<TW: TransWeight>(
    g: &Net,
    froms: &EdgeCandGroup,
    init: &Vec<u128>,
    opts: &RoutingOpts,
    top: u64,
    e: usize,
) -> (r: u32)
    requires
        cands_ok(g, froms@),
        init@.len() == froms@.len(),
        forall|i: int|
            #![trigger froms@[i]]
            0 <= i < froms@.len() && froms@[i].edge is Some ==> part_cost(
                g,
                froms@[i].edge->0,
                froms@[i].progr,
            ) <= top,
    ensures
        r == init_cost(
            g,
            froms@,
            init@,
            inv_of::<TW>(*opts),
            top as nat,
            e,
            froms@.len() as int,
        ),
        r <= ROUTE_INF,
{
    let ghost inv = inv_of::<TW>(*opts);
    let mut r: u32 = ROUTE_INF;
    let mut i: usize = 0;
    while i < froms.len()
        invariant
            i <= froms@.len(),
            cands_ok(g, froms@),
            init@.len() == froms@.len(),
            inv == (inv_of::<TW>(*opts)),
            r == init_cost(g, froms@, init@, inv, top as nat, e, i as int),
            r <= ROUTE_INF,
            forall|j: int|
                #![trigger froms@[j]]
                0 <= j < froms@.len() && froms@[j].edge is Some ==> part_cost(
                    g,
                    froms@[j].edge->0,
                    froms@[j].progr,
                ) <= top,
        decreases froms@.len() - i,
    {
        assert(froms@[i as int].progr <= WHOLE_EDGE);
        if let Some(x) = froms[i].edge {
            if x == e && init[i] < DAG_INF {
                let part: u64 = part_cost_of(g, e, froms[i].progr);
                let lead: u64 = (top - part) / WHOLE_EDGE as u64;
                let inv_cost: u32 = TW::inv_weight(init[i], opts);
                let sum: u128 = inv_cost as u128 + lead as u128;
                let prep: u32 = if sum >= u32::MAX as u128 { u32::MAX } else { sum as u32 };
                assert(prep == prep_cost(g, froms@[i as int], init@[i as int], inv, top as nat));
                if prep < r {
                    r = prep;
                }
            }
        }
        i = i + 1;
    }
    r
}

fn least_of(costs: &Vec<u32>) -> (r: u32)
    ensures
        r == least(costs@),
        r <= ROUTE_INF,
        forall|i: int| 0 <= i < costs@.len() ==> r <= #[trigger] costs@[i],
{
    let mut r: u32 = ROUTE_INF;
    let mut i: usize = 0;
    while i < costs.len()
        invariant
            i <= costs@.len(),
            r == least(costs@.take(i as int)),
            r <= ROUTE_INF,
            forall|j: int| 0 <= j < i ==> r <= #[trigger] costs@[j],
        decreases costs@.len() - i,
    {
        assert(costs@.take(i + 1).drop_last() =~= costs@.take(i as int));
        if costs[i] < r {
            r = costs[i];
        }
        i = i + 1;
    }
    assert(costs@.take(i as int) =~= costs@);
    r
}

fn largest_of(costs: &Vec<u32>) -> (r: u32)
    ensures
        r == largest(costs@),
{
    let mut r: u32 = 0;
    let mut i: usize = 0;
    while i < costs.len()
        invariant
            i <= costs@.len(),
            r == largest(costs@.take(i as int)),
        decreases costs@.len() - i,
    {
        assert(costs@.take(i + 1).drop_last() =~= costs@.take(i as int));
        if costs[i] != ROUTE_INF && costs[i] > r {
            r = costs[i];
        }
        i = i + 1;
    }
    assert(costs@.take(i as int) =~= costs@);
    r
}

fn starts_from(g: &Net, edges: &Vec<usize>, costs: &Vec<u32>, low: u32) -> (r: Vec<(usize, u32)>)
    requires
        edges@.len() == costs@.len(),
        forall|i: int| 0 <= i < costs@.len() ==> low <= #[trigger] costs@[i],
        forall|i: int| 0 <= i < edges@.len() ==> (#[trigger] edges@[i]) < g.edges@.len(),
    ensures
        r@ == starts_of(edges@, costs@, low),
        forall|k: int|
            0 <= k < r@.len() ==> (#[trigger] r@[k]).0 < g.edges@.len() && r@[k].1 < ROUTE_INF,
{
    let mut r: Vec<(usize, u32)> = Vec::new();
    let mut i: usize = 0;
    while i < edges.len()
        invariant
            i <= edges@.len(),
            edges@.len() == costs@.len(),
            r@ == starts_of(edges@.take(i as int), costs@.take(i as int), low),
            forall|j: int| 0 <= j < costs@.len() ==> low <= #[trigger] costs@[j],
            forall|j: int| 0 <= j < edges@.len() ==> (#[trigger] edges@[j]) < g.edges@.len(),
            forall|k: int|
                0 <= k < r@.len() ==> (#[trigger] r@[k]).0 < g.edges@.len() && r@[k].1 < ROUTE_INF,
        decreases edges@.len() - i,
    {
        assert(edges@.take(i + 1).drop_last() =~= edges@.take(i as int));
        assert(costs@.take(i + 1).drop_last() =~= costs@.take(i as int));
        assert(low <= costs@[i as int]);
        assert(edges@[i as int] < g.edges@.len());
        if costs[i] < ROUTE_INF {
            r.push((edges[i], costs[i] - low));
        }
        i = i + 1;
    }
    assert(edges@.take(i as int) =~= edges@);
    assert(costs@.take(i as int) =~= costs@);
    r
}

/// Adds the rows of several candidates of the first stop with several of the second.
fn push_block(
    g: &Net,
    froms: &EdgeCandGroup,
    tos: &EdgeCandGroup,
    base: u32,
    bound: u32,
    is: &Vec<usize>,
    js: &Vec<usize>,
    rows: &mut Vec<HopRow>,
    Ghost(p): Ghost<FastPlan>,
)
    requires
        cands_ok(g, froms@),
        cands_ok(g, tos@),
        bound == clamp_u32(p.max_cost - p.slack),
        forall|k: int|
            0 <= k < is@.len() ==> (#[trigger] is@[k]) < froms@.len() && froms@[is@[k] as int].edge is Some,
        forall|k: int|
            0 <= k < js@.len() ==> (#[trigger] js@[k]) < tos@.len() && tos@[js@[k] as int].edge is Some,
    ensures
        final(rows)@ == old(rows)@ + fast_rows_block(g, p, froms@, tos@, base, is@, js@),
{
    let ghost start = rows@;
    let mut a: usize = 0;
    assert(rows@ =~= start + Seq::<HopRow>::empty());
    while a < is.len()
        invariant
            a <= is@.len(),
            cands_ok(g, froms@),
            cands_ok(g, tos@),
            bound == clamp_u32(p.max_cost - p.slack),
            forall|k: int|
                0 <= k < is@.len() ==> (#[trigger] is@[k]) < froms@.len()
                    && froms@[is@[k] as int].edge is Some,
            forall|k: int|
                0 <= k < js@.len() ==> (#[trigger] js@[k]) < tos@.len()
                    && tos@[js@[k] as int].edge is Some,
            rows@ == start + fast_rows_block(
                g,
                p,
                froms@,
                tos@,
                base,
                is@.take(a as int),
                js@,
            ),
        decreases is@.len() - a,
    {
        let i: usize = is[a];
        let ghost mid = rows@;
        assert(is@.take(a + 1).drop_last() =~= is@.take(a as int));
        assert(rows@ =~= mid + Seq::<HopRow>::empty());
        let mut b: usize = 0;
        while b < js.len()
            invariant
                b <= js@.len(),
                i < froms@.len(),
                froms@[i as int].edge is Some,
                cands_ok(g, froms@),
                cands_ok(g, tos@),
                bound == clamp_u32(p.max_cost - p.slack),
                forall|k: int|
                    0 <= k < js@.len() ==> (#[trigger] js@[k]) < tos@.len()
                        && tos@[js@[k] as int].edge is Some,
                rows@ == mid + fast_rows_one(
                    g,
                    p,
                    froms@,
                    tos@,
                    base,
                    i,
                    js@.take(b as int),
                ),
            decreases js@.len() - b,
        {
            let j: usize = js[b];
            assert(js@.take(b + 1).drop_last() =~= js@.take(b as int));
            assert(froms@[i as int].progr <= WHOLE_EDGE);
            assert(tos@[j as int].progr <= WHOLE_EDGE);
            let ghost was = rows@;
            if let Some(c) = cand_cost_of(g, &froms[i], &tos[j], base) {
                if c < bound {
                    rows.push(((i, j), c));
                }
            }
            b = b + 1;
            assert(rows@ =~= mid + fast_rows_one(
                g,
                p,
                froms@,
                tos@,
                base,
                i,
                js@.take(b as int),
            ));
        }
        assert(js@.take(b as int) =~= js@);
        a = a + 1;
        assert(rows@ =~= start + fast_rows_block(g, p, froms@, tos@, base, is@.take(a as int), js@));
    }
    assert(is@.take(a as int) =~= is@);
}

fn fr_keys_of(
    g: &Net,
    froms: &EdgeCandGroup,
    tos: &EdgeCandGroup,
    init: &Vec<u128>,
) -> (r: Vec<Option<usize>>)
    requires
        g.wf(),
        cands_ok(g, froms@),
        cands_ok(g, tos@),
        init@.len() == froms@.len(),
    ensures
        r@ == Seq::new(froms@.len(), |i: int| fr_key(g, froms@, tos@, init@, i)),
{
    let mut r: Vec<Option<usize>> = Vec::new();
    let mut i: usize = 0;
    while i < froms.len()
        invariant
            g.wf(),
            cands_ok(g, froms@),
            cands_ok(g, tos@),
            init@.len() == froms@.len(),
            i <= froms@.len(),
            r@.len() == i,
            forall|j: int| 0 <= j < i ==> #[trigger] r@[j] == fr_key(g, froms@, tos@, init@, j),
        decreases froms@.len() - i,
    {
        assert(froms@[i as int].progr <= WHOLE_EDGE);
        if init[i] < DAG_INF && connected(g, &froms[i], tos) {
            r.push(froms[i].edge);
        } else {
            r.push(None);
        }
        i = i + 1;
    }
    assert(r@ =~= Seq::new(froms@.len(), |i: int| fr_key(g, froms@, tos@, init@, i)));
    r
}

fn to_keys_of(
    g: &Net,
    froms: &EdgeCandGroup,
    tos: &EdgeCandGroup,
    hop_cache: &HopCache,
    e_frs: &Vec<usize>,
    max_cost: u32,
) -> (r: Vec<Option<usize>>)
    requires
        g.wf(),
        cands_ok(g, froms@),
        cands_ok(g, tos@),
        hop_cache.wf(),
    ensures
        r@ == Seq::new(
            tos@.len(),
            |j: int| to_key(g, froms@, tos@, hop_cache@, e_frs@, max_cost, j),
        ),
{
    let mut r: Vec<Option<usize>> = Vec::new();
    let mut i: usize = 0;
    while i < tos.len()
        invariant
            g.wf(),
            cands_ok(g, froms@),
            cands_ok(g, tos@),
            hop_cache.wf(),
            i <= tos@.len(),
            r@.len() == i,
            forall|j: int|
                0 <= j < i ==> #[trigger] r@[j] == to_key(
                    g,
                    froms@,
                    tos@,
                    hop_cache@,
                    e_frs@,
                    max_cost,
                    j,
                ),
        decreases tos@.len() - i,
    {
        assert(tos@[i as int].progr <= WHOLE_EDGE);
        let mut key: Option<usize> = None;
        if connected(g, &tos[i], froms) {
            if let Some(e) = tos[i].edge {
                if !cache_drop(hop_cache, e_frs, e, max_cost) {
                    key = Some(e);
                }
            }
        }
        r.push(key);
        i = i + 1;
    }
    assert(r@ =~= Seq::new(
        tos@.len(),
        |j: int| to_key(g, froms@, tos@, hop_cache@, e_frs@, max_cost, j),
    ));
    r
}

/// A candidate that takes part lies on an edge of the graph.
proof fn lemma_keys_valid(g: &Net, group: Seq<EdgeCand>, keys: Seq<Option<usize>>)
    requires
        cands_ok(g, group),
        keys.len() == group.len(),
        forall|i: int|
            0 <= i < keys.len() ==> (#[trigger] keys[i] is Some ==> keys[i] == group[i].edge),
    ensures
        forall|k: int|
            0 <= k < distinct_keys(keys).len() ==> (#[trigger] distinct_keys(keys)[k])
                < g.edges@.len(),
{
    lemma_distinct_keys(keys);
    assert forall|k: int| 0 <= k < distinct_keys(keys).len() implies (#[trigger] distinct_keys(
        keys,
    )[k]) < g.edges@.len() by {
        let e = distinct_keys(keys)[k];
        assert(distinct_keys(keys).contains(e));
        let i = choose|i: int| 0 <= i < keys.len() && keys[i] == Some(e);
        assert(group[i].edge == Some(e));
    }
}

/// The costs between the candidates of two stops that stay below `max_cost`, found by a single
/// search. `init_costs` holds the weights with which the candidates of the first stop start.
///
/// Edges that the search does not reach are remembered as out of reach.
pub fn hops_fast<TW: TransWeight>(
    g: &Net,
    froms: &EdgeCandGroup,
    tos: &EdgeCandGroup,
    init_costs: &Vec<u128>,
    r_opts: &RoutingOpts,
    hop_cache: &mut HopCache,
    max_cost: u32,
) -> (rows: Vec<HopRow>)
    requires
        g.wf(),
        cands_ok(g, froms@),
        cands_ok(g, tos@),
        init_costs@.len() == froms@.len(),
        old(hop_cache).wf(),
    ensures
        final(hop_cache).wf(),
        exists|f: Map<usize, Label>| #[trigger]
            fast_outcome(
                g,
                fast_plan(
                    g,
                    froms@,
                    tos@,
                    init_costs@,
                    inv_of::<TW>(*r_opts),
                    old(hop_cache)@,
                    max_cost,
                ),
                froms@,
                tos@,
                f,
                rows@,
                old(hop_cache)@,
                final(hop_cache)@,
            ),
{
    let ghost c0 = hop_cache@;
    let ghost inv = inv_of::<TW>(*r_opts);
    let ghost p = fast_plan(g, froms@, tos@, init_costs@, inv, c0, max_cost);
    let fr_keys = fr_keys_of(g, froms, tos, init_costs);
    let e_frs = distinct_keys_of(&fr_keys);
    let to_keys = to_keys_of(g, froms, tos, hop_cache, &e_frs, max_cost);
    let e_tos = distinct_keys_of(&to_keys);
    assert(fr_keys@ =~= p.fr_keys);
    assert(to_keys@ =~= p.to_keys);
    proof {
        lemma_keys_valid(g, froms@, fr_keys@);
        lemma_distinct_keys(fr_keys@);
        lemma_distinct_keys(to_keys@);
    }
    let top: u64 = max_part_of(g, froms);
    let mut costs: Vec<u32> = Vec::new();
    let mut i: usize = 0;
    while i < e_frs.len()
        invariant
            i <= e_frs@.len(),
            costs@.len() == i,
            cands_ok(g, froms@),
            init_costs@.len() == froms@.len(),
            inv == (inv_of::<TW>(*r_opts)),
            top == max_part(g, froms@),
            forall|j: int|
                #![trigger froms@[j]]
                0 <= j < froms@.len() && froms@[j].edge is Some ==> part_cost(
                    g,
                    froms@[j].edge->0,
                    froms@[j].progr,
                ) <= top,
            forall|j: int|
                0 <= j < i ==> #[trigger] costs@[j] == init_cost(
                    g,
                    froms@,
                    init_costs@,
                    inv,
                    top as nat,
                    e_frs@[j],
                    froms@.len() as int,
                ),
        decreases e_frs@.len() - i,
    {
        costs.push(init_cost_of::<TW>(g, froms, init_costs, r_opts, top, e_frs[i]));
        i = i + 1;
    }
    assert(costs@ =~= e_frs@.map_values(p.init));
    let low: u32 = least_of(&costs);
    let high: u32 = largest_of(&costs);
    let starts = starts_from(g, &e_frs, &costs, low);
    let slack: u32 = (top / WHOLE_EDGE as u64) as u32;
    let wider: u32 = add_non_overflow(max_cost, slack);
    let max_search: u32 = wider.saturating_add(high.saturating_sub(low));
    let labels = search_from(g, starts.as_slice(), max_search);
    let ghost f = labels_of(labels);
    let bound: u32 = wider.saturating_sub(slack);
    assert(starts@ == p.starts);
    assert(max_search == p.max_search);
    assert(wider == p.max_cost && slack == p.slack && low == p.least);
    let mut rows: Vec<HopRow> = Vec::new();
    let mut k: usize = 0;
    while k < e_tos.len()
        invariant
            g.wf(),
            k <= e_tos@.len(),
            cands_ok(g, froms@),
            cands_ok(g, tos@),
            init_costs@.len() == froms@.len(),
            inv == (inv_of::<TW>(*r_opts)),
            p == fast_plan(g, froms@, tos@, init_costs@, inv, c0, max_cost),
            fr_keys@ == p.fr_keys,
            to_keys@ == p.to_keys,
            e_frs@ == distinct_keys(p.fr_keys),
            e_tos@ == distinct_keys(p.to_keys),
            f == labels_of(labels),
            best_bids(g, p.starts, p.max_search, None, f),
            wider == p.max_cost,
            slack == p.slack,
            low == p.least,
            bound == clamp_u32(p.max_cost - p.slack),
            top == max_part(g, froms@),
            forall|j: int|
                #![trigger froms@[j]]
                0 <= j < froms@.len() && froms@[j].edge is Some ==> part_cost(
                    g,
                    froms@[j].edge->0,
                    froms@[j].progr,
                ) <= top,
            hop_cache.wf(),
            rows@ == fast_rows(g, p, froms@, tos@, f, e_tos@.take(k as int)),
            forall|x: (usize, usize)| #[trigger]
                hop_cache@(x) == (if e_frs@.contains(x.0) && e_tos@.take(k as int).contains(x.1)
                    && !f.contains_key(x.1) {
                    HopCost::AtLeast(p.max_cost)
                } else {
                    c0(x)
                }),
        decreases e_tos@.len() - k,
    {
        let e: usize = e_tos[k];
        let ghost rows0 = rows@;
        proof {
            lemma_take_contains(e_tos@, k as int);
            assert(e_tos@.take(k + 1).drop_last() =~= e_tos@.take(k as int));
            assert(e_tos@.take(k + 1).last() == e);
        }
        match labels_get(&labels, e) {
            None => {
                hop_cache.set_min_from_set(e_frs.as_slice(), e, wider);
                assert(rows0 + fast_rows_edge(g, p, froms@, tos@, f, e) =~= rows0);
            },
            Some(l) => {
                let o: usize = l.origin;
                let own: u32 = init_cost_of::<TW>(g, froms, init_costs, r_opts, top, o)
                    .saturating_sub(low);
                let total: u32 = l.g as u32;
                let base: u32 = total.saturating_sub(own);
                assert(l.g < ROUTE_INF);
                assert(base == way_cost(p, l));
                if base < wider {
                    let is = positions_of(&fr_keys, o);
                    let js = positions_of(&to_keys, e);
                    proof {
                        assert(fr_keys.len() == fr_keys@.len());
                        assert(to_keys.len() == to_keys@.len());
                        lemma_positions(fr_keys@, o);
                        lemma_positions(to_keys@, e);
                        assert forall|m: int| 0 <= m < is@.len() implies (#[trigger] is@[m])
                            < froms@.len() && froms@[is@[m] as int].edge is Some by {
                            assert(positions(fr_keys@, o)[m] == is@[m]);
                            assert(fr_keys@[is@[m] as int] == Some(o));
                        }
                        assert forall|m: int| 0 <= m < js@.len() implies (#[trigger] js@[m])
                            < tos@.len() && tos@[js@[m] as int].edge is Some by {
                            assert(positions(to_keys@, e)[m] == js@[m]);
                            assert(to_keys@[js@[m] as int] == Some(e));
                        }
                    }
                    push_block(g, froms, tos, base, bound, &is, &js, &mut rows, Ghost(p));
                } else {
                    assert(rows0 + fast_rows_edge(g, p, froms@, tos@, f, e) =~= rows0);
                }
            },
        }
        k = k + 1;
    }
    assert(e_tos@.take(k as int) =~= e_tos@);
    assert(fast_outcome(g, p, froms@, tos@, f, rows@, c0, hop_cache@));
    rows
}

/// The rows that a search by a plan leads to name candidates of the two groups.
pub proof fn lemma_fast_rows_in(
    g: &Net,
    p: FastPlan,
    froms: Seq<EdgeCand>,
    tos: Seq<EdgeCand>,
    f: Map<usize, Label>,
    edges: Seq<usize>,
)
    requires
        p.fr_keys.len() == froms.len(),
        p.to_keys.len() == tos.len(),
        froms.len() <= usize::MAX,
        tos.len() <= usize::MAX,
    ensures
        crate::router::dag::rows_in(
            fast_rows(g, p, froms, tos, f, edges),
            froms.len(),
            tos.len(),
        ),
    decreases edges.len(),
{
    if edges.len() > 0 {
        lemma_fast_rows_in(g, p, froms, tos, f, edges.drop_last());
        let e = edges.last();
        if f.contains_key(e) {
            lemma_positions(p.fr_keys, f[e].origin);
            lemma_positions(p.to_keys, e);
            let is = positions(p.fr_keys, f[e].origin);
            let js = positions(p.to_keys, e);
            assert forall|k: int| 0 <= k < is.len() implies #[trigger] is[k] < froms.len() by {
                assert(positions(p.fr_keys, f[e].origin)[k] == is[k]);
            }
            assert forall|k: int| 0 <= k < js.len() implies #[trigger] js[k] < tos.len() by {
                assert(positions(p.to_keys, e)[k] == js[k]);
            }
            lemma_block_in(g, p, froms, tos, way_cost(p, f[e]), is, js);
        }
        let a = fast_rows(g, p, froms, tos, f, edges.drop_last());
        let b = fast_rows_edge(g, p, froms, tos, f, e);
        assert forall|k: int| 0 <= k < (a + b).len() implies (#[trigger] (a + b)[k]).0.0
            < froms.len() && (a + b)[k].0.1 < tos.len() by {
            if k < a.len() {
                assert((a + b)[k] == a[k]);
            } else {
                assert((a + b)[k] == b[k - a.len()]);
            }
        }
    }
}

proof fn lemma_block_in(
    g: &Net,
    p: FastPlan,
    froms: Seq<EdgeCand>,
    tos: Seq<EdgeCand>,
    base: u32,
    is: Seq<usize>,
    js: Seq<usize>,
)
    requires
        forall|k: int| 0 <= k < is.len() ==> #[trigger] is[k] < froms.len(),
        forall|k: int| 0 <= k < js.len() ==> #[trigger] js[k] < tos.len(),
    ensures
        crate::router::dag::rows_in(
            fast_rows_block(g, p, froms, tos, base, is, js),
            froms.len(),
            tos.len(),
        ),
    decreases is.len(),
{
    if is.len() > 0 {
        let a = fast_rows_block(g, p, froms, tos, base, is.drop_last(), js);
        let b = fast_rows_one(g, p, froms, tos, base, is.last(), js);
        assert forall|k: int| 0 <= k < is.drop_last().len() implies #[trigger] is.drop_last()[k]
            < froms.len() by {
            assert(is[k] == is.drop_last()[k]);
        }
        lemma_block_in(g, p, froms, tos, base, is.drop_last(), js);
        assert(is[is.len() - 1] == is.last());
        lemma_one_in(g, p, froms, tos, base, is.last(), js);
        assert forall|k: int| 0 <= k < (a + b).len() implies (#[trigger] (a + b)[k]).0.0
            < froms.len() && (a + b)[k].0.1 < tos.len() by {
            if k < a.len() {
                assert((a + b)[k] == a[k]);
            } else {
                assert((a + b)[k] == b[k - a.len()]);
            }
        }
    }
}

proof fn lemma_one_in(
    g: &Net,
    p: FastPlan,
    froms: Seq<EdgeCand>,
    tos: Seq<EdgeCand>,
    base: u32,
    i: usize,
    js: Seq<usize>,
)
    requires
        i < froms.len(),
        forall|k: int| 0 <= k < js.len() ==> #[trigger] js[k] < tos.len(),
    ensures
        crate::router::dag::rows_in(
            fast_rows_one(g, p, froms, tos, base, i, js),
            froms.len(),
            tos.len(),
        ),
    decreases js.len(),
{
    if js.len() > 0 {
        assert forall|k: int| 0 <= k < js.drop_last().len() implies #[trigger] js.drop_last()[k]
            < tos.len() by {
            assert(js[k] == js.drop_last()[k]);
        }
        lemma_one_in(g, p, froms, tos, base, i, js.drop_last());
        assert(js[js.len() - 1] == js.last());
    }
}

// What the rows of a fast search are for.

proof fn lemma_row_of_one(
    g: &Net,
    p: FastPlan,
    froms: Seq<EdgeCand>,
    tos: Seq<EdgeCand>,
    base: u32,
    i: usize,
    js: Seq<usize>,
    row: HopRow,
)
    requires
        fast_rows_one(g, p, froms, tos, base, i, js).contains(row),
    ensures
        row.0.0 == i,
        js.contains(row.0.1),
        cand_cost(g, froms[i as int], tos[row.0.1 as int], base) == Some(row.1),
    decreases js.len(),
{
    let all = fast_rows_one(g, p, froms, tos, base, i, js);
    if js.len() > 0 {
        let rest = fast_rows_one(g, p, froms, tos, base, i, js.drop_last());
        let k = choose|k: int| 0 <= k < all.len() && all[k] == row;
        if k < rest.len() {
            assert(rest[k] == row);
            lemma_row_of_one(g, p, froms, tos, base, i, js.drop_last(), row);
            let m = choose|m: int| 0 <= m < js.len() - 1 && js.drop_last()[m] == row.0.1;
            assert(js[m] == row.0.1);
        } else {
            assert(js[js.len() - 1] == row.0.1);
        }
    }
}

proof fn lemma_row_of_block(
    g: &Net,
    p: FastPlan,
    froms: Seq<EdgeCand>,
    tos: Seq<EdgeCand>,
    base: u32,
    is: Seq<usize>,
    js: Seq<usize>,
    row: HopRow,
)
    requires
        fast_rows_block(g, p, froms, tos, base, is, js).contains(row),
    ensures
        is.contains(row.0.0),
        js.contains(row.0.1),
        cand_cost(g, froms[row.0.0 as int], tos[row.0.1 as int], base) == Some(row.1),
    decreases is.len(),
{
    if is.len() > 0 {
        let a = fast_rows_block(g, p, froms, tos, base, is.drop_last(), js);
        let b = fast_rows_one(g, p, froms, tos, base, is.last(), js);
        let all = a + b;
        let k = choose|k: int| 0 <= k < all.len() && all[k] == row;
        if k < a.len() {
            assert(a[k] == row);
            lemma_row_of_block(g, p, froms, tos, base, is.drop_last(), js, row);
            let m = choose|m: int| 0 <= m < is.len() - 1 && is.drop_last()[m] == row.0.0;
            assert(is[m] == row.0.0);
        } else {
            assert(b[k - a.len()] == row);
            lemma_row_of_one(g, p, froms, tos, base, is.last(), js, row);
            assert(is[is.len() - 1] == row.0.0);
        }
    }
}

proof fn lemma_row_of_edges(
    g: &Net,
    p: FastPlan,
    froms: Seq<EdgeCand>,
    tos: Seq<EdgeCand>,
    f: Map<usize, Label>,
    edges: Seq<usize>,
    row: HopRow,
) -> (e: usize)
    requires
        fast_rows(g, p, froms, tos, f, edges).contains(row),
    ensures
        edges.contains(e),
        f.contains_key(e),
        positions(p.fr_keys, f[e].origin).contains(row.0.0),
        positions(p.to_keys, e).contains(row.0.1),
        cand_cost(g, froms[row.0.0 as int], tos[row.0.1 as int], way_cost(p, f[e])) == Some(row.1),
    decreases edges.len(),
{
    let a = fast_rows(g, p, froms, tos, f, edges.drop_last());
    let b = fast_rows_edge(g, p, froms, tos, f, edges.last());
    let all = a + b;
    let k = choose|k: int| 0 <= k < all.len() && all[k] == row;
    if k < a.len() {
        assert(a[k] == row);
        let e = lemma_row_of_edges(g, p, froms, tos, f, edges.drop_last(), row);
        let m = choose|m: int| 0 <= m < edges.len() - 1 && edges.drop_last()[m] == e;
        assert(edges[m] == e);
        e
    } else {
        assert(b[k - a.len()] == row);
        let e = edges.last();
        lemma_row_of_block(
            g,
            p,
            froms,
            tos,
            way_cost(p, f[e]),
            positions(p.fr_keys, f[e].origin),
            positions(p.to_keys, e),
            row,
        );
        assert(edges[edges.len() - 1] == e);
        e
    }
}

/// A start of a search is one of the edges, at what its cost exceeds the least one by.
proof fn lemma_starts(edges: Seq<usize>, costs: Seq<u32>, low: u32, k: int) -> (i: int)
    requires
        edges.len() == costs.len(),
        0 <= k < starts_of(edges, costs, low).len(),
    ensures
        0 <= i < edges.len(),
        costs[i] < ROUTE_INF,
        starts_of(edges, costs, low)[k] == (edges[i], (costs[i] - low) as u32),
    decreases edges.len(),
{
    let rest = starts_of(edges.drop_last(), costs.drop_last(), low);
    if k < rest.len() {
        lemma_starts(edges.drop_last(), costs.drop_last(), low, k)
    } else {
        edges.len() - 1
    }
}

proof fn lemma_started(edges: Seq<usize>, costs: Seq<u32>, low: u32, i: int) -> (k: int)
    requires
        edges.len() == costs.len(),
        0 <= i < edges.len(),
        costs[i] < ROUTE_INF,
    ensures
        0 <= k < starts_of(edges, costs, low).len(),
        starts_of(edges, costs, low)[k] == (edges[i], (costs[i] - low) as u32),
    decreases edges.len(),
{
    let rest = starts_of(edges.drop_last(), costs.drop_last(), low);
    if i < edges.len() - 1 {
        lemma_started(edges.drop_last(), costs.drop_last(), low, i)
    } else {
        rest.len() as int
    }
}

proof fn lemma_least(costs: Seq<u32>, i: int)
    requires
        0 <= i < costs.len(),
    ensures
        least(costs) <= costs[i],
    decreases costs.len(),
{
    if i < costs.len() - 1 {
        lemma_least(costs.drop_last(), i);
    }
}

/// The cost with which an edge starts is the least over its candidates of what their weights stand for and of
/// what they have less behind them on the edge than the farthest candidate.
pub proof fn lemma_init_cost(
    g: &Net,
    froms: Seq<EdgeCand>,
    init: Seq<u128>,
    inv: spec_fn(u128) -> u32,
    top: nat,
    e: usize,
    n: int,
)
    requires
        0 <= n <= froms.len(),
    ensures
        init_cost(g, froms, init, inv, top, e, n) <= ROUTE_INF,
        forall|i: int|
            #![trigger froms[i]]
            0 <= i < n && froms[i].edge == Some(e) && init[i] < DAG_INF ==> {
                let part = g.edges@[e as int].payload.cost * froms[i].progr;
                part <= top ==> init_cost(g, froms, init, inv, top, e, n) * 1_000_000_000 <= inv(init[i])
                    * 1_000_000_000 + top - part
            },
        init_cost(g, froms, init, inv, top, e, n) < ROUTE_INF ==> exists|i: int|
            0 <= i < n && (#[trigger] froms[i]).edge == Some(e) && init[i] < DAG_INF && ({
                let part = g.edges@[e as int].payload.cost * froms[i].progr;
                part <= top ==> inv(init[i]) * 1_000_000_000 + top - part < (init_cost(
                    g,
                    froms,
                    init,
                    inv,
                    top,
                    e,
                    n,
                ) + 1) * 1_000_000_000
            }),
    decreases n,
{
    if n > 0 {
        lemma_init_cost(g, froms, init, inv, top, e, n - 1);
        let c = froms[n - 1];
        let part = g.edges@[e as int].payload.cost * c.progr;
        assert(part == (g.edges@[e as int].payload.cost as nat) * (c.progr as nat));
    }
}

/// What a fast search says of a way is true: every row is that of a way along the edges of the graph, from the
/// edge of the one candidate to that of the other, and its cost is the cost of that way between the
/// candidates. No other start gets to that edge for less, the cost with which it starts counted.
pub proof fn lemma_fast_row_is_way(
    g: &Net,
    froms: Seq<EdgeCand>,
    tos: Seq<EdgeCand>,
    init: Seq<u128>,
    inv: spec_fn(u128) -> u32,
    f: Map<usize, Label>,
    rows: Seq<HopRow>,
    before: spec_fn((usize, usize)) -> HopCost,
    after: spec_fn((usize, usize)) -> HopCost,
    max_cost: u32,
    row: HopRow,
) -> (es: Seq<usize>)
    requires
        froms.len() <= usize::MAX,
        tos.len() <= usize::MAX,
        fast_outcome(
            g,
            fast_plan(g, froms, tos, init, inv, before, max_cost),
            froms,
            tos,
            f,
            rows,
            before,
            after,
        ),
        rows.contains(row),
    ensures
        ({
            let p = fast_plan(g, froms, tos, init, inv, before, max_cost);
            let (i, j) = (row.0.0 as int, row.0.1 as int);
            &&& i < froms.len()
            &&& j < tos.len()
            &&& init[i] < DAG_INF
            &&& froms[i].edge is Some
            &&& tos[j].edge is Some
            &&& crate::router::edge_search::chain(g, es, froms[i].edge->0, tos[j].edge->0)
            &&& crate::router::edge_search::chain_cost(g, es) < ROUTE_INF
            &&& cand_cost(
                g,
                froms[i],
                tos[j],
                crate::router::edge_search::chain_cost(g, es) as u32,
            ) == Some(row.1)
            &&& forall|k: int, other: Seq<usize>, cost: nat| #[trigger]
                crate::router::edge_search::bid(
                    g,
                    p.starts,
                    p.max_search,
                    k,
                    other,
                    tos[j].edge->0,
                    cost,
                ) && cost < ROUTE_INF ==> (p.init)(froms[i].edge->0)
                    + crate::router::edge_search::chain_cost(g, es) <= p.least + cost
        }),
{
    let p = fast_plan(g, froms, tos, init, inv, before, max_cost);
    let e_frs = distinct_keys(p.fr_keys);
    let costs = e_frs.map_values(p.init);
    let e = lemma_row_of_edges(g, p, froms, tos, f, distinct_keys(p.to_keys), row);
    let is = positions(p.fr_keys, f[e].origin);
    let js = positions(p.to_keys, e);
    lemma_positions(p.fr_keys, f[e].origin);
    lemma_positions(p.to_keys, e);
    let a = choose|a: int| 0 <= a < is.len() && is[a] == row.0.0;
    let b = choose|b: int| 0 <= b < js.len() && js[b] == row.0.1;
    assert(is[a] == row.0.0 && js[b] == row.0.1);
    assert(p.fr_keys[row.0.0 as int] == Some(f[e].origin));
    assert(p.to_keys[row.0.1 as int] == Some(e));
    let (k, es) = choose|k: int, es: Seq<usize>| #[trigger]
        crate::router::edge_search::bid(g, p.starts, p.max_search, k, es, e, f[e].g as nat)
            && p.starts[k].0 == f[e].origin;
    let i = lemma_starts(e_frs, costs, p.least, k);
    assert(costs[i] == (p.init)(e_frs[i]));
    lemma_least(costs, i);
    assert(p.starts[k].1 == (p.init)(f[e].origin) - p.least);
    assert(way_cost(p, f[e]) == crate::router::edge_search::chain_cost(g, es));
    es
}

/// The starts of a fast search are the edges of the candidates that take part, each at what its cost exceeds
/// the least one by.
pub proof fn lemma_fast_starts(
    g: &Net,
    froms: Seq<EdgeCand>,
    tos: Seq<EdgeCand>,
    init: Seq<u128>,
    inv: spec_fn(u128) -> u32,
    before: spec_fn((usize, usize)) -> HopCost,
    max_cost: u32,
    i: int,
) -> (k: int)
    requires
        0 <= i < froms.len(),
        init[i] < DAG_INF,
        is_connected(g, froms[i], tos),
        init_cost(
            g,
            froms,
            init,
            inv,
            max_part(g, froms),
            froms[i].edge->0,
            froms.len() as int,
        ) < ROUTE_INF,
    ensures
        ({
            let p = fast_plan(g, froms, tos, init, inv, before, max_cost);
            &&& froms[i].edge is Some
            &&& 0 <= k < p.starts.len()
            &&& p.starts[k].0 == froms[i].edge->0
            &&& p.least + p.starts[k].1 == init_cost(
                g,
                froms,
                init,
                inv,
                max_part(g, froms),
                froms[i].edge->0,
                froms.len() as int,
            )
        }),
{
    let p = fast_plan(g, froms, tos, init, inv, before, max_cost);
    let j = choose|j: int| 0 <= j < tos.len() && same_comp(g, froms[i], #[trigger] tos[j]);
    let e = froms[i].edge->0;
    let e_frs = distinct_keys(p.fr_keys);
    let costs = e_frs.map_values(p.init);
    lemma_distinct_keys(p.fr_keys);
    assert(p.fr_keys[i] == Some(e));
    assert(e_frs.contains(e));
    let m = choose|m: int| 0 <= m < e_frs.len() && e_frs[m] == e;
    assert(costs[m] == (p.init)(e));
    lemma_least(costs, m);
    lemma_started(e_frs, costs, p.least, m)
}

} // verus!
