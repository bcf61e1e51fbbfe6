//! Weights of candidates, handed on from stop to stop.

use crate::router::edge_search::Net;
use crate::router::hop_cache::{HopCache, HopCost, Known};
use crate::router::hops::{base_cost, cache_after, cands_ok, hops, rows_of, HopRow, DAG_INF};
use crate::router::hops_fast::{fast_outcome, fast_plan, hops_fast, inv_of};
use crate::router::types::{EdgeCand, EdgeCandGroup};
use crate::router::weights::{ExpoTransWeight, RoutingOpts, TransWeight};
use crate::hashed::Label;
use vstd::prelude::*;

verus! {

/// A weight for a candidate, and the candidate of the stop before from which it comes.
pub type Offer = (u128, usize);

/// The position that stands for no candidate.
pub const NO_PREDE: usize = usize::MAX;

/// The first of the smallest offers, if it is below `DAG_INF`.
pub open spec fn best_offer(offers: Seq<Offer>) -> Offer
    decreases offers.len(),
{
    if offers.len() == 0 {
        (DAG_INF, NO_PREDE)
    } else {
        let rest = best_offer(offers.drop_last());
        if offers.last().0 < rest.0 {
            offers.last()
        } else {
            rest
        }
    }
}

/// No offer is below the best one, which is one of them or stands for none.
pub proof fn lemma_best_offer(offers: Seq<Offer>)
    ensures
        best_offer(offers).0 <= DAG_INF,
        best_offer(offers) == (DAG_INF, NO_PREDE) || (best_offer(offers).0 < DAG_INF
            && offers.contains(best_offer(offers))),
        forall|k: int| 0 <= k < offers.len() ==> best_offer(offers).0 <= (#[trigger] offers[k]).0,
    decreases offers.len(),
{
    if offers.len() > 0 {
        let p = offers.drop_last();
        lemma_best_offer(p);
        let b = best_offer(p);
        if p.contains(b) {
            let k = choose|k: int| 0 <= k < p.len() && p[k] == b;
            assert(offers[k] == b);
        }
        assert(offers[offers.len() - 1] == offers.last());
        assert forall|k: int| 0 <= k < offers.len() implies best_offer(offers).0 <= (
        #[trigger] offers[k]).0 by {
            if k < p.len() {
                assert(p[k] == offers[k]);
            }
        }
    }
}

/// Takes the better of two offers, the first if they are equal.
fn better(a: Offer, b: Offer) -> (r: Offer)
    ensures
        r == (if b.0 < a.0 {
            b
        } else {
            a
        }),
{
    if b.0 < a.0 {
        b
    } else {
        a
    }
}

/// What a departure candidate is offered by the candidates of the arrival it may follow.
pub open spec fn stay_offers(costs: Seq<u128>, to: EdgeCand) -> Seq<Offer> {
    to.dep_prede@.map_values(|i: usize| ((costs[i as int] + to.pen) as u128, i))
}

/// What a candidate is offered by the rows that lead to it.
pub open spec fn row_offers<TW: TransWeight>(
    costs: Seq<u128>,
    froms: Seq<EdgeCand>,
    tos: Seq<EdgeCand>,
    rows: Seq<HopRow>,
    hop_dist: u64,
    opts: RoutingOpts,
    j: int,
) -> Seq<Offer>
    decreases rows.len(),
{
    if rows.len() == 0 {
        Seq::empty()
    } else {
        let rest = row_offers::<TW>(costs, froms, tos, rows.drop_last(), hop_dist, opts, j);
        let ((a, b), c) = rows.last();
        if b == j {
            rest.push(
                (
                    (costs[a as int] + tos[j].pen + TW::spec_weight(
                        c,
                        0,
                        (tos[j].time - froms[a as int].time) as i64,
                        hop_dist,
                        opts,
                    )) as u128,
                    a,
                ),
            )
        } else {
            rest
        }
    }
}

/// How many candidates from position `from` on, up to the first that lies on an edge, lie on none.
pub open spec fn nulls_end(group: Seq<EdgeCand>, from: int) -> int
    decreases group.len() - from,
{
    if 0 <= from < group.len() && group[from].edge is None {
        nulls_end(group, from + 1)
    } else {
        from
    }
}

/// What a candidate is offered if no way was found: a candidate at the beginning of the group that
/// lies on no edge is reached at a hundred times the largest cost that was looked for; one that
/// follows those is reached at its own penalty.
pub open spec fn giving_up_offers(
    costs: Seq<u128>,
    tos: Seq<EdgeCand>,
    max_cost: u32,
    j: int,
) -> Seq<Offer> {
    if j < nulls_end(tos, 0) {
        Seq::new(
            costs.len(),
            |i: int| ((costs[i] + (max_cost as nat) * 10_000_000_000) as u128, i as usize),
        )
    } else if j >= nulls_end(tos, 1) {
        Seq::new(costs.len(), |i: int| ((costs[i] + tos[j].pen) as u128, i as usize))
    } else {
        Seq::empty()
    }
}

/// The weights of a group's candidates and where they come from.
pub struct Weights {
    pub costs: Vec<u128>,
    pub prede: Vec<usize>,
}

impl Weights {
    /// Whether every candidate has the best of its offers.
    pub open spec fn best_of(&self, n: nat, offers: spec_fn(int) -> Seq<Offer>) -> bool {
        &&& self.costs@.len() == n
        &&& self.prede@.len() == n
        &&& forall|j: int|
            0 <= j < n ==> (#[trigger] self.costs@[j], self.prede@[j]) == best_offer(offers(j))
    }

    /// Whether the weights are in range and come from one of `n` candidates.
    pub open spec fn in_range(&self, n: nat) -> bool {
        &&& self.prede@.len() == self.costs@.len()
        &&& forall|j: int| 0 <= j < self.costs@.len() ==> #[trigger] self.costs@[j] <= DAG_INF
        &&& forall|j: int|
            0 <= j < self.prede@.len() ==> #[trigger] self.prede@[j] < n || self.prede@[j]
                == NO_PREDE
    }

    /// Whether a candidate has been reached.
    pub open spec fn any_reached(&self) -> bool {
        exists|j: int| 0 <= j < self.costs@.len() && #[trigger] self.costs@[j] < DAG_INF
    }
}

/// The weights of the candidates of a departure.
pub fn stay(costs: &Vec<u128>, tos: &EdgeCandGroup) -> (w: Weights)
    requires
        forall|i: int| 0 <= i < costs@.len() ==> #[trigger] costs@[i] <= DAG_INF,
        forall|j: int, k: int|
            #![trigger tos@[j].dep_prede@[k]]
            0 <= j < tos@.len() && 0 <= k < tos@[j].dep_prede@.len() ==> tos@[j].dep_prede@[k]
                < costs@.len(),
    ensures
        w.best_of(tos@.len(), |j: int| stay_offers(costs@, tos@[j])),
        w.in_range(costs@.len()),
{
    let mut w = Weights { costs: Vec::new(), prede: Vec::new() };
    let mut j: usize = 0;
    while j < tos.len()
        invariant
            j <= tos@.len(),
            forall|i: int| 0 <= i < costs@.len() ==> #[trigger] costs@[i] <= DAG_INF,
            forall|j: int, k: int|
                #![trigger tos@[j].dep_prede@[k]]
                0 <= j < tos@.len() && 0 <= k < tos@[j].dep_prede@.len() ==> tos@[j].dep_prede@[k]
                    < costs@.len(),
            w.costs@.len() == j,
            w.prede@.len() == j,
            forall|m: int|
                0 <= m < j ==> (#[trigger] w.costs@[m], w.prede@[m]) == best_offer(
                    stay_offers(costs@, tos@[m]),
                ),
            w.in_range(costs@.len()),
        decreases tos@.len() - j,
    {
        let to = &tos[j];
        let ghost all = stay_offers(costs@, *to);
        let mut best: Offer = (DAG_INF, NO_PREDE);
        let mut k: usize = 0;
        while k < to.dep_prede.len()
            invariant
                k <= to.dep_prede@.len(),
                j < tos@.len(),
                *to == tos@[j as int],
                all == stay_offers(costs@, *to),
                forall|i: int| 0 <= i < costs@.len() ==> #[trigger] costs@[i] <= DAG_INF,
                forall|j: int, k: int|
                    #![trigger tos@[j].dep_prede@[k]]
                    0 <= j < tos@.len() && 0 <= k < tos@[j].dep_prede@.len()
                        ==> tos@[j].dep_prede@[k] < costs@.len(),
                best == best_offer(all.take(k as int)),
                best.0 <= DAG_INF,
                best.1 < costs@.len() || best.1 == NO_PREDE,
            decreases to.dep_prede@.len() - k,
        {
            let i: usize = to.dep_prede[k];
            assert(tos@[j as int].dep_prede@[k as int] == i);
            let offer: Offer = (costs[i] + to.pen as u128, i);
            assert(all.take(k + 1).drop_last() =~= all.take(k as int));
            assert(all[k as int] == offer);
            best = better(best, offer);
            k = k + 1;
        }
        assert(all.take(k as int) =~= all);
        w.costs.push(best.0);
        w.prede.push(best.1);
        j = j + 1;
    }
    w
}

/// Bounds that keep the sums of weights and the differences of times in range.
pub open spec fn times_ok(group: Seq<EdgeCand>) -> bool {
    forall|i: int|
        0 <= i < group.len() ==> -0x4000_0000_0000_0000 < (#[trigger] group[i]).time
            < 0x4000_0000_0000_0000
}

/// Whether the rows name candidates of the two groups.
pub open spec fn rows_in(rows: Seq<HopRow>, n: nat, m: nat) -> bool {
    forall|k: int|
        0 <= k < rows.len() ==> (#[trigger] rows[k]).0.0 < n && rows[k].0.1 < m
}

/// The weights to which the rows lead.
fn ride<TW: TransWeight>(
    costs: &Vec<u128>,
    froms: &EdgeCandGroup,
    tos: &EdgeCandGroup,
    rows: &Vec<HopRow>,
    hop_dist: u64,
    opts: &RoutingOpts,
) -> (r: (Weights, bool))
    requires
        costs@.len() == froms@.len(),
        forall|i: int| 0 <= i < costs@.len() ==> #[trigger] costs@[i] <= DAG_INF,
        times_ok(froms@),
        times_ok(tos@),
        rows_in(rows@, froms@.len(), tos@.len()),
    ensures
        r.0.best_of(
            tos@.len(),
            |j: int| row_offers::<TW>(costs@, froms@, tos@, rows@, hop_dist, *opts, j),
        ),
        r.0.in_range(costs@.len()),
        r.1 == r.0.any_reached(),
{
    let mut w = Weights { costs: Vec::new(), prede: Vec::new() };
    let n: usize = tos.len();
    let mut j: usize = 0;
    while j < n
        invariant
            n == tos@.len(),
            j <= n,
            w.costs@.len() == j,
            w.prede@.len() == j,
            forall|m: int| 0 <= m < j ==> #[trigger] w.costs@[m] == DAG_INF,
            forall|m: int| 0 <= m < j ==> #[trigger] w.prede@[m] == NO_PREDE,
        decreases n - j,
    {
        w.costs.push(DAG_INF);
        w.prede.push(NO_PREDE);
        j = j + 1;
    }
    let mut found = false;
    let mut k: usize = 0;
    proof {
        assert(rows@.take(0) =~= Seq::<HopRow>::empty());
    }
    while k < rows.len()
        invariant
            n == tos@.len(),
            k <= rows@.len(),
            costs@.len() == froms@.len(),
            forall|i: int| 0 <= i < costs@.len() ==> #[trigger] costs@[i] <= DAG_INF,
            times_ok(froms@),
            times_ok(tos@),
            rows_in(rows@, froms@.len(), tos@.len()),
            w.costs@.len() == n,
            w.prede@.len() == n,
            forall|m: int|
                0 <= m < n ==> (#[trigger] w.costs@[m], w.prede@[m]) == best_offer(
                    row_offers::<TW>(
                        costs@,
                        froms@,
                        tos@,
                        rows@.take(k as int),
                        hop_dist,
                        *opts,
                        m,
                    ),
                ),
            w.in_range(costs@.len()),
            found == w.any_reached(),
        decreases rows@.len() - k,
    {
        let ((a, b), c): ((usize, usize), u32) = rows[k];
        assert(rows@[k as int].0.0 < froms@.len() && rows@[k as int].0.1 < tos@.len());
        assert(rows@.take(k + 1).drop_last() =~= rows@.take(k as int));
        assert(times_ok(froms@) && froms@[a as int].time < 0x4000_0000_0000_0000);
        assert(tos@[b as int].time < 0x4000_0000_0000_0000);
        let time: i64 = tos[b].time - froms[a].time;
        let weight: u128 = TW::weight(c, 0, time, hop_dist, opts);
        let offer: u128 = costs[a] + tos[b].pen as u128 + weight;
        let ghost w0 = w;
        let ghost all = row_offers::<TW>(
            costs@,
            froms@,
            tos@,
            rows@.take(k + 1),
            hop_dist,
            *opts,
            b as int,
        );
        assert(all.last() == (offer, a));
        assert(all.drop_last() =~= row_offers::<TW>(
            costs@,
            froms@,
            tos@,
            rows@.take(k as int),
            hop_dist,
            *opts,
            b as int,
        ));
        if offer < w.costs[b] {
            w.costs[b] = offer;
            w.prede[b] = a;
            found = true;
            assert(w.costs@[b as int] < DAG_INF);
        }
        assert forall|m: int| 0 <= m < n implies (#[trigger] w.costs@[m], w.prede@[m])
            == best_offer(
            row_offers::<TW>(costs@, froms@, tos@, rows@.take(k + 1), hop_dist, *opts, m),
        ) by {
            assert((w0.costs@[m], w0.prede@[m]) == best_offer(
                row_offers::<TW>(
                    costs@,
                    froms@,
                    tos@,
                    rows@.take(k as int),
                    hop_dist,
                    *opts,
                    m,
                ),
            ));
        }
        proof {
            if w0.any_reached() {
                let m = choose|m: int| 0 <= m < w0.costs@.len() && #[trigger] w0.costs@[m] < DAG_INF;
                assert(w.costs@[m] < DAG_INF);
            }
            if w.any_reached() && !found {
                assert(w.costs@ == w0.costs@);
            }
        }
        k = k + 1;
    }
    assert(rows@.take(k as int) =~= rows@);
    (w, found)
}

/// The position of the first candidate from `from` on that lies on an edge.
fn nulls_end_of(group: &EdgeCandGroup, from: usize) -> (r: usize)
    ensures
        r == nulls_end(group@, from as int),
{
    let mut r: usize = from;
    while r < group.len() && group[r].edge.is_none()
        invariant
            from <= r,
            r <= group@.len() || r == from,
            nulls_end(group@, from as int) == nulls_end(group@, r as int),
        decreases group@.len() - r,
    {
        r = r + 1;
    }
    r
}

/// The best of the offers that all candidates of the stop before make with the same extra weight.
fn best_with(costs: &Vec<u128>, extra: u128) -> (r: Offer)
    requires
        forall|i: int| 0 <= i < costs@.len() ==> #[trigger] costs@[i] <= DAG_INF,
        extra < 0x1_0000_0000_0000_0000_0000_0000,
    ensures
        r == best_offer(
            Seq::new(costs@.len(), |i: int| ((costs@[i] + extra) as u128, i as usize)),
        ),
        r.0 <= DAG_INF,
        r.1 < costs@.len() || r.1 == NO_PREDE,
{
    let ghost all = Seq::new(costs@.len(), |i: int| ((costs@[i] + extra) as u128, i as usize));
    let mut best: Offer = (DAG_INF, NO_PREDE);
    let mut i: usize = 0;
    while i < costs.len()
        invariant
            i <= costs@.len(),
            all == Seq::new(costs@.len(), |i: int| ((costs@[i] + extra) as u128, i as usize)),
            forall|i: int| 0 <= i < costs@.len() ==> #[trigger] costs@[i] <= DAG_INF,
            extra < 0x1_0000_0000_0000_0000_0000_0000,
            best == best_offer(all.take(i as int)),
            best.0 <= DAG_INF,
            best.1 < costs@.len() || best.1 == NO_PREDE,
        decreases costs@.len() - i,
    {
        let offer: Offer = (costs[i] + extra, i);
        assert(all.take(i + 1).drop_last() =~= all.take(i as int));
        assert(all[i as int] == offer);
        best = better(best, offer);
        i = i + 1;
    }
    assert(all.take(i as int) =~= all);
    best
}

/// The weights if no way was found.
fn give_up(costs: &Vec<u128>, tos: &EdgeCandGroup, max_cost: u32) -> (w: Weights)
    requires
        forall|i: int| 0 <= i < costs@.len() ==> #[trigger] costs@[i] <= DAG_INF,
    ensures
        w.best_of(tos@.len(), |j: int| giving_up_offers(costs@, tos@, max_cost, j)),
        w.in_range(costs@.len()),
{
    let first: usize = nulls_end_of(tos, 0);
    let second: usize = nulls_end_of(tos, 1);
    let mut w = Weights { costs: Vec::new(), prede: Vec::new() };
    let mut j: usize = 0;
    while j < tos.len()
        invariant
            j <= tos@.len(),
            first == nulls_end(tos@, 0),
            second == nulls_end(tos@, 1),
            forall|i: int| 0 <= i < costs@.len() ==> #[trigger] costs@[i] <= DAG_INF,
            w.costs@.len() == j,
            w.prede@.len() == j,
            forall|m: int|
                0 <= m < j ==> (#[trigger] w.costs@[m], w.prede@[m]) == best_offer(
                    giving_up_offers(costs@, tos@, max_cost, m),
                ),
            w.in_range(costs@.len()),
        decreases tos@.len() - j,
    {
        let best: Offer = if j < first {
            let extra: u128 = max_cost as u128 * 10_000_000_000;
            assert(giving_up_offers(costs@, tos@, max_cost, j as int) =~= Seq::new(
                costs@.len(),
                |i: int| ((costs@[i] + extra) as u128, i as usize),
            ));
            best_with(costs, extra)
        } else if j >= second {
            let extra: u128 = tos[j].pen as u128;
            assert(giving_up_offers(costs@, tos@, max_cost, j as int) =~= Seq::new(
                costs@.len(),
                |i: int| ((costs@[i] + extra) as u128, i as usize),
            ));
            best_with(costs, extra)
        } else {
            (DAG_INF, NO_PREDE)
        };
        w.costs.push(best.0);
        w.prede.push(best.1);
        j = j + 1;
    }
    w
}

/// What a search between two groups may find, given what a cache knows before, and what it knows
/// after.
pub open spec fn may_find<TW: TransWeight>(
    g: &Net,
    froms: Seq<EdgeCand>,
    tos: Seq<EdgeCand>,
    costs: Seq<u128>,
    opts: RoutingOpts,
    slow: bool,
    max_cost: u32,
    a: Attempt,
) -> bool {
    if slow || !TW::spec_allows_fast_route() {
        &&& a.rows == rows_of(
            g,
            froms,
            tos,
            |k: (usize, usize)| base_cost(g, a.cache, TW::spec_need_dist(), max_cost, k),
            max_cost,
            froms.len() as int,
        )
        &&& forall|k: (usize, usize)| #[trigger]
            (a.after)(k) == cache_after(
                g,
                froms,
                tos,
                a.cache,
                TW::spec_need_dist(),
                max_cost,
                k,
            )
    } else {
        exists|f: Map<usize, Label>| #[trigger]
            fast_outcome(
                g,
                fast_plan(g, froms, tos, costs, inv_of::<TW>(opts), a.cache, max_cost),
                froms,
                tos,
                f,
                a.rows,
                a.cache,
                a.after,
            )
    }
}

/// A cache that knows nothing.
pub open spec fn blank() -> Known {
    |k: (usize, usize)| HopCost::Unknown
}

/// The largest cost that is looked for in attempt number `s`.
pub open spec fn doubled(first: u32, s: nat) -> u32
    decreases s,
{
    if s == 0 {
        first
    } else {
        let d = doubled(first, (s - 1) as nat);
        if d <= u32::MAX / 2 {
            (2 * d) as u32
        } else {
            u32::MAX
        }
    }
}

/// One attempt: what the cache knew, the rows that were found, and what the cache knew afterwards.
pub struct Attempt {
    pub cache: Known,
    pub rows: Seq<HopRow>,
    pub after: Known,
}

/// Whether attempts hand on what they know: each begins with what the one before left, from `before` to
/// `after`. Without a cache each begins with nothing, and nothing is kept.
pub open spec fn handed_on(tries: Seq<Attempt>, use_cache: bool, before: Known, after: Known) -> bool {
    if use_cache {
        &&& tries[0].cache == before
        &&& forall|s: int|
            0 < s < tries.len() ==> (#[trigger] tries[s]).cache == tries[s - 1].after
        &&& after == tries.last().after
    } else {
        &&& forall|s: int| 0 <= s < tries.len() ==> (#[trigger] tries[s]).cache == blank()
        &&& after == before
    }
}

/// Whether an attempt reached no candidate.
pub open spec fn missed<TW: TransWeight>(
    costs: Seq<u128>,
    froms: Seq<EdgeCand>,
    tos: Seq<EdgeCand>,
    hop_dist: u64,
    opts: RoutingOpts,
    a: Attempt,
) -> bool {
    forall|j: int|
        0 <= j < tos.len() ==> (#[trigger] best_offer(
            row_offers::<TW>(costs, froms, tos, a.rows, hop_dist, opts, j),
        )).0 >= DAG_INF
}

/// Whether the weights of a group come about by attempts at ever larger costs: every attempt but
/// the last reached no candidate, the last one was needed, and if it reached none either, the
/// group is reached without a way.
pub open spec fn hop_step<TW: TransWeight>(
    g: &Net,
    froms: Seq<EdgeCand>,
    tos: Seq<EdgeCand>,
    costs: Seq<u128>,
    hop_dist: u64,
    opts: RoutingOpts,
    slow: bool,
    use_cache: bool,
    first: u32,
    before: Known,
    tries: Seq<Attempt>,
    after: Known,
    w: Weights,
    max_cost: u32,
) -> bool {
    let n = tries.len() as int;
    &&& 1 <= n <= 4
    &&& handed_on(tries, use_cache, before, after)
    &&& max_cost == doubled(first, (n - 1) as nat)
    &&& forall|s: int|
        0 <= s < n ==> may_find::<TW>(
            g,
            froms,
            tos,
            costs,
            opts,
            slow,
            doubled(first, s as nat),
            #[trigger] tries[s],
        )
    &&& forall|s: int|
        0 <= s < n - 1 ==> missed::<TW>(costs, froms, tos, hop_dist, opts, #[trigger] tries[s])
    &&& if missed::<TW>(costs, froms, tos, hop_dist, opts, tries[n - 1]) {
        &&& n == 4 || doubled(first, n as nat) == max_cost
        &&& w.best_of(tos.len(), |j: int| giving_up_offers(costs, tos, max_cost, j))
    } else {
        w.best_of(
            tos.len(),
            |j: int|
                row_offers::<TW>(costs, froms, tos, tries[n - 1].rows, hop_dist, opts, j),
        )
    }
}

/// Rows name candidates of the two groups.
proof fn lemma_rows_of_one_in(
    g: &Net,
    froms: Seq<EdgeCand>,
    tos: Seq<EdgeCand>,
    base: spec_fn((usize, usize)) -> u32,
    max_cost: u32,
    i: int,
    m: int,
)
    requires
        0 <= i < froms.len(),
        m <= tos.len(),
        froms.len() <= usize::MAX,
        tos.len() <= usize::MAX,
    ensures
        rows_in(
            crate::router::hops::rows_of_one(g, froms, tos, base, max_cost, i, m),
            froms.len(),
            tos.len(),
        ),
    decreases m,
{
    if m > 0 {
        lemma_rows_of_one_in(g, froms, tos, base, max_cost, i, m - 1);
    }
}

proof fn lemma_rows_of_in(
    g: &Net,
    froms: Seq<EdgeCand>,
    tos: Seq<EdgeCand>,
    base: spec_fn((usize, usize)) -> u32,
    max_cost: u32,
    n: int,
)
    requires
        n <= froms.len(),
        froms.len() <= usize::MAX,
        tos.len() <= usize::MAX,
    ensures
        rows_in(rows_of(g, froms, tos, base, max_cost, n), froms.len(), tos.len()),
    decreases n,
{
    if n > 0 {
        lemma_rows_of_in(g, froms, tos, base, max_cost, n - 1);
        lemma_rows_of_one_in(g, froms, tos, base, max_cost, n - 1, tos.len() as int);
        lemma_rows_in_join(
            rows_of(g, froms, tos, base, max_cost, n - 1),
            crate::router::hops::rows_of_one(
                g,
                froms,
                tos,
                base,
                max_cost,
                n - 1,
                tos.len() as int,
            ),
            froms.len(),
            tos.len(),
        );
    }
}

proof fn lemma_rows_in_join(a: Seq<HopRow>, b: Seq<HopRow>, n: nat, m: nat)
    requires
        rows_in(a, n, m),
        rows_in(b, n, m),
    ensures
        rows_in(a + b, n, m),
{
    assert forall|k: int| 0 <= k < (a + b).len() implies (#[trigger] (a + b)[k]).0.0 < n && (a
        + b)[k].0.1 < m by {
        if k < a.len() {
            assert((a + b)[k] == a[k]);
        } else {
            assert((a + b)[k] == b[k - a.len()]);
        }
    }
}

/// Looks for ways between two groups.
fn look<TW: TransWeight>(
    g: &Net,
    froms: &EdgeCandGroup,
    tos: &EdgeCandGroup,
    costs: &Vec<u128>,
    opts: &RoutingOpts,
    slow: bool,
    hop_cache: &mut HopCache,
    use_cache: bool,
    max_cost: u32,
) -> (r: (Vec<HopRow>, Ghost<Attempt>))
    requires
        g.wf(),
        cands_ok(g, froms@),
        cands_ok(g, tos@),
        costs@.len() == froms@.len(),
        old(hop_cache).wf(),
    ensures
        final(hop_cache).wf(),
        !use_cache ==> *final(hop_cache) == *old(hop_cache),
        r.0@ == r.1@.rows,
        rows_in(r.0@, froms@.len(), tos@.len()),
        may_find::<TW>(g, froms@, tos@, costs@, *opts, slow, max_cost, r.1@),
        use_cache ==> r.1@.cache == old(hop_cache)@ && r.1@.after == final(hop_cache)@,
        !use_cache ==> r.1@.cache == blank(),
{
    if !use_cache {
        let mut own = HopCache::new();
        assert(own@ =~= blank());
        return look_with::<TW>(g, froms, tos, costs, opts, slow, &mut own, max_cost);
    }
    look_with::<TW>(g, froms, tos, costs, opts, slow, hop_cache, max_cost)
}

fn look_with<TW: TransWeight>(
    g: &Net,
    froms: &EdgeCandGroup,
    tos: &EdgeCandGroup,
    costs: &Vec<u128>,
    opts: &RoutingOpts,
    slow: bool,
    hop_cache: &mut HopCache,
    max_cost: u32,
) -> (r: (Vec<HopRow>, Ghost<Attempt>))
    requires
        g.wf(),
        cands_ok(g, froms@),
        cands_ok(g, tos@),
        costs@.len() == froms@.len(),
        old(hop_cache).wf(),
    ensures
        final(hop_cache).wf(),
        r.0@ == r.1@.rows,
        rows_in(r.0@, froms@.len(), tos@.len()),
        may_find::<TW>(g, froms@, tos@, costs@, *opts, slow, max_cost, r.1@),
        r.1@.cache == old(hop_cache)@,
        r.1@.after == final(hop_cache)@,
{
    proof {
        assert(froms.len() == froms@.len());
        assert(tos.len() == tos@.len());
    }
    let ghost before = hop_cache@;
    if slow || !TW::allows_fast_route() {
        let need_dist = TW::need_dist();
        let rows = hops(g, froms, tos, need_dist, hop_cache, max_cost);
        proof {
            let base = |k: (usize, usize)|
                base_cost(g, before, TW::spec_need_dist(), max_cost, k);
            lemma_rows_of_in(g, froms@, tos@, base, max_cost, froms@.len() as int);
        }
        let ghost a = Attempt { cache: before, rows: rows@, after: hop_cache@ };
        assert(may_find::<TW>(g, froms@, tos@, costs@, *opts, slow, max_cost, a));
        (rows, Ghost(a))
    } else {
        let rows = hops_fast::<TW>(g, froms, tos, costs, opts, hop_cache, max_cost);
        let ghost a = Attempt { cache: before, rows: rows@, after: hop_cache@ };
        proof {
            let p = fast_plan(g, froms@, tos@, costs@, inv_of::<TW>(*opts), before, max_cost);
            let f = choose|f: Map<usize, Label>| #[trigger]
                fast_outcome(g, p, froms@, tos@, f, rows@, before, hop_cache@);
            assert(fast_outcome(g, p, froms@, tos@, f, a.rows, a.cache, a.after));
            crate::router::hops_fast::lemma_fast_rows_in(
                g,
                p,
                froms@,
                tos@,
                f,
                crate::router::hops_fast::distinct_keys(p.to_keys),
            );
            assert(may_find::<TW>(g, froms@, tos@, costs@, *opts, slow, max_cost, a));
        }
        (rows, Ghost(a))
    }
}

/// Finds the weights of a group's candidates from those of the group before.
///
/// Ways are looked for at a cost that is doubled up to three times. If none is found, the group is
/// reached without one.
pub fn travel<TW: TransWeight>(
    g: &Net,
    froms: &EdgeCandGroup,
    tos: &EdgeCandGroup,
    costs: &Vec<u128>,
    hop_dist: u64,
    opts: &RoutingOpts,
    slow: bool,
    hop_cache: &mut HopCache,
    use_cache: bool,
    first: u32,
) -> (r: (Weights, u32))
    requires
        g.wf(),
        cands_ok(g, froms@),
        cands_ok(g, tos@),
        times_ok(froms@),
        times_ok(tos@),
        costs@.len() == froms@.len(),
        forall|i: int| 0 <= i < costs@.len() ==> #[trigger] costs@[i] <= DAG_INF,
        old(hop_cache).wf(),
    ensures
        final(hop_cache).wf(),
        !use_cache ==> *final(hop_cache) == *old(hop_cache),
        r.0.in_range(costs@.len()),
        r.0.costs@.len() == tos@.len(),
        exists|tries: Seq<Attempt>| #[trigger]
            hop_step::<TW>(
                g,
                froms@,
                tos@,
                costs@,
                hop_dist,
                *opts,
                slow,
                use_cache,
                first,
                old(hop_cache)@,
                tries,
                final(hop_cache)@,
                r.0,
                r.1,
            ),
{
    let ghost mut tries = Seq::<Attempt>::empty();
    let ghost c0 = hop_cache@;
    let mut max_cost: u32 = first;
    let mut step: u32 = 0;
    loop
        invariant
            g.wf(),
            cands_ok(g, froms@),
            cands_ok(g, tos@),
            times_ok(froms@),
            times_ok(tos@),
            costs@.len() == froms@.len(),
            forall|i: int| 0 <= i < costs@.len() ==> #[trigger] costs@[i] <= DAG_INF,
            hop_cache.wf(),
            !use_cache ==> *hop_cache == *old(hop_cache),
            c0 == old(hop_cache)@,
            step <= 3,
            tries.len() == step,
            tries.len() == 0 ==> hop_cache@ == c0,
            tries.len() > 0 ==> handed_on(tries, use_cache, c0, hop_cache@),
            max_cost == doubled(first, step as nat),
            forall|s: int|
                0 <= s < tries.len() ==> may_find::<TW>(
                    g,
                    froms@,
                    tos@,
                    costs@,
                    *opts,
                    slow,
                    doubled(first, s as nat),
                    #[trigger] tries[s],
                ),
            forall|s: int|
                0 <= s < tries.len() ==> missed::<TW>(
                    costs@,
                    froms@,
                    tos@,
                    hop_dist,
                    *opts,
                    #[trigger] tries[s],
                ),
        decreases 4 - step,
    {
        let (rows, attempt) = look::<TW>(
            g,
            froms,
            tos,
            costs,
            opts,
            slow,
            hop_cache,
            use_cache,
            max_cost,
        );
        let ghost before = tries;
        proof {
            tries = tries.push(attempt@);
        }
        let (w, found) = ride::<TW>(costs, froms, tos, &rows, hop_dist, opts);
        proof {
            lemma_missed::<TW>(costs@, froms@, tos@, hop_dist, *opts, attempt@, w);
            assert(handed_on(tries, use_cache, c0, hop_cache@)) by {
                assert forall|s: int| 0 < s < tries.len() && use_cache implies (#[trigger] tries[s]).cache
                    == tries[s - 1].after by {
                    assert(tries[s - 1] == before[s - 1]);
                    if s < before.len() {
                        assert(tries[s] == before[s]);
                    }
                }
            }
            assert forall|s: int| 0 <= s < tries.len() implies may_find::<TW>(
                g,
                froms@,
                tos@,
                costs@,
                *opts,
                slow,
                doubled(first, s as nat),
                #[trigger] tries[s],
            ) by {
                if s < before.len() {
                    assert(tries[s] == before[s]);
                }
            }
            assert forall|s: int| 0 <= s < tries.len() - 1 implies missed::<TW>(
                costs@,
                froms@,
                tos@,
                hop_dist,
                *opts,
                #[trigger] tries[s],
            ) by {
                assert(tries[s] == before[s]);
            }
        }
        if found {
            let result: (Weights, u32) = (w, max_cost);
            assert(hop_step::<TW>(
                g,
                froms@,
                tos@,
                costs@,
                hop_dist,
                *opts,
                slow,
                use_cache,
                first,
                c0,
                tries,
                hop_cache@,
                result.0,
                result.1,
            ));
            return result;
        }
        let next: u32 = if max_cost <= u32::MAX / 2 { max_cost * 2 } else { u32::MAX };
        assert(next == doubled(first, (step + 1) as nat));
        if step == 3 || next == max_cost {
            let w = give_up(costs, tos, max_cost);
            let result: (Weights, u32) = (w, max_cost);
            assert(hop_step::<TW>(
                g,
                froms@,
                tos@,
                costs@,
                hop_dist,
                *opts,
                slow,
                use_cache,
                first,
                c0,
                tries,
                hop_cache@,
                result.0,
                result.1,
            ));
            return result;
        }
        max_cost = next;
        step = step + 1;
    }
}

/// An attempt misses exactly if the weights that its rows lead to reach no candidate.
proof fn lemma_missed<TW: TransWeight>(
    costs: Seq<u128>,
    froms: Seq<EdgeCand>,
    tos: Seq<EdgeCand>,
    hop_dist: u64,
    opts: RoutingOpts,
    a: Attempt,
    w: Weights,
)
    requires
        w.best_of(
            tos.len(),
            |j: int| row_offers::<TW>(costs, froms, tos, a.rows, hop_dist, opts, j),
        ),
    ensures
        missed::<TW>(costs, froms, tos, hop_dist, opts, a) == !w.any_reached(),
{
    let offers = |j: int| row_offers::<TW>(costs, froms, tos, a.rows, hop_dist, opts, j);
    if w.any_reached() {
        let j = choose|j: int| 0 <= j < w.costs@.len() && #[trigger] w.costs@[j] < DAG_INF;
        assert((w.costs@[j], w.prede@[j]) == best_offer(offers(j)));
        assert(best_offer(row_offers::<TW>(costs, froms, tos, a.rows, hop_dist, opts, j)).0
            < DAG_INF);
    } else {
        assert forall|j: int| 0 <= j < tos.len() implies (#[trigger] best_offer(
            row_offers::<TW>(costs, froms, tos, a.rows, hop_dist, opts, j),
        )).0 >= DAG_INF by {
            assert((w.costs@[j], w.prede@[j]) == best_offer(offers(j)));
        }
    }
}

// What the weights are for.

/// What it costs to come to a candidate by a way: the weight of the candidate before, the penalty of the
/// candidate itself, and the cost of the way at the penalty of travel.
pub open spec fn price(costs: Seq<u128>, tos: Seq<EdgeCand>, opts: RoutingOpts, row: HopRow) -> int {
    costs[row.0.0 as int] + tos[row.0.1 as int].pen + opts.transition_pen * row.1
}

spec fn is_offer(costs: Seq<u128>, tos: Seq<EdgeCand>, opts: RoutingOpts, o: Offer, row: HopRow) -> bool {
    o.0 == price(costs, tos, opts, row) && o.1 == row.0.0
}

/// Whether one of the offers is that of a row.
#[verifier::opaque]
spec fn is_made(costs: Seq<u128>, tos: Seq<EdgeCand>, opts: RoutingOpts, offers: Seq<Offer>, row: HopRow) -> bool {
    exists|m: int| 0 <= m < offers.len() && #[trigger] is_offer(costs, tos, opts, offers[m], row)
}

/// Whether an offer is that of one of the rows to a candidate.
#[verifier::opaque]
spec fn is_due(
    costs: Seq<u128>,
    tos: Seq<EdgeCand>,
    opts: RoutingOpts,
    rows: Seq<HopRow>,
    o: Offer,
    j: int,
) -> bool {
    exists|k: int|
        0 <= k < rows.len() && rows[k].0.1 == j && #[trigger] is_offer(costs, tos, opts, o, rows[k])
}

spec fn offers_match(
    costs: Seq<u128>,
    tos: Seq<EdgeCand>,
    opts: RoutingOpts,
    rows: Seq<HopRow>,
    offers: Seq<Offer>,
    j: int,
) -> bool {
    &&& forall|k: int|
        #![trigger rows[k]]
        0 <= k < rows.len() && rows[k].0.1 == j ==> is_made(costs, tos, opts, offers, rows[k])
    &&& forall|m: int|
        #![trigger offers[m]]
        0 <= m < offers.len() ==> is_due(costs, tos, opts, rows, offers[m], j)
}

proof fn lemma_row_offers(
    costs: Seq<u128>,
    froms: Seq<EdgeCand>,
    tos: Seq<EdgeCand>,
    rows: Seq<HopRow>,
    hop_dist: u64,
    opts: RoutingOpts,
    j: int,
)
    requires
        rows_in(rows, froms.len(), tos.len()),
        costs.len() == froms.len(),
        forall|i: int| 0 <= i < costs.len() ==> #[trigger] costs[i] <= DAG_INF,
        0 <= j < tos.len(),
    ensures
        offers_match(
            costs,
            tos,
            opts,
            rows,
            row_offers::<ExpoTransWeight>(costs, froms, tos, rows, hop_dist, opts, j),
            j,
        ),
    decreases rows.len(),
{
    if rows.len() > 0 {
        let p = rows.drop_last();
        assert(rows_in(p, froms.len(), tos.len())) by {
            assert forall|k: int| 0 <= k < p.len() implies (#[trigger] p[k]).0.0 < froms.len()
                && p[k].0.1 < tos.len() by {
                assert(rows[k] == p[k]);
            }
        }
        lemma_row_offers(costs, froms, tos, p, hop_dist, opts, j);
        let a = row_offers::<ExpoTransWeight>(costs, froms, tos, p, hop_dist, opts, j);
        let b = row_offers::<ExpoTransWeight>(costs, froms, tos, rows, hop_dist, opts, j);
        let last = rows[rows.len() - 1];
        assert(last.0.0 < froms.len() && last.0.1 < tos.len());
        assert(costs[last.0.0 as int] <= DAG_INF);
        assert(0 <= opts.transition_pen * last.1 <= 0xffff_ffff_ffff_ffff * 0xffff_ffff)
            by (nonlinear_arith)
            requires
                0 <= opts.transition_pen <= 0xffff_ffff_ffff_ffff,
                0 <= last.1 <= 0xffff_ffff,
        ;
        if last.0.1 == j {
            let o: Offer = (price(costs, tos, opts, last) as u128, last.0.0);
            assert(opts.transition_pen * last.1 == (opts.transition_pen as nat) * (last.1 as nat));
            assert(b == a.push(o));
            assert(b.drop_last() =~= a);
            assert(is_offer(costs, tos, opts, b.last(), rows.last()));
        }
        lemma_offers_next(costs, tos, opts, rows, a, b, j);
    }
}

proof fn lemma_offers_next(
    costs: Seq<u128>,
    tos: Seq<EdgeCand>,
    opts: RoutingOpts,
    rows: Seq<HopRow>,
    a: Seq<Offer>,
    b: Seq<Offer>,
    j: int,
)
    requires
        rows.len() > 0,
        offers_match(costs, tos, opts, rows.drop_last(), a, j),
        rows.last().0.1 != j ==> b == a,
        rows.last().0.1 == j ==> b.len() == a.len() + 1 && b.drop_last() == a && is_offer(
            costs,
            tos,
            opts,
            b.last(),
            rows.last(),
        ),
    ensures
        offers_match(costs, tos, opts, rows, b, j),
{
    let p = rows.drop_last();
    assert forall|k: int| #![trigger rows[k]] 0 <= k < rows.len() && rows[k].0.1 == j implies is_made(
        costs,
        tos,
        opts,
        b,
        rows[k],
    ) by {
        reveal(is_made);
        if k < p.len() {
            assert(p[k] == rows[k]);
            assert(is_made(costs, tos, opts, a, p[k]));
            let m = choose|m: int|
                0 <= m < a.len() && #[trigger] is_offer(costs, tos, opts, a[m], p[k]);
            assert(b[m] == a[m]);
            assert(is_offer(costs, tos, opts, b[m], rows[k]));
        } else {
            assert(is_offer(costs, tos, opts, b[b.len() - 1], rows[k]));
        }
    }
    assert forall|m: int| #![trigger b[m]] 0 <= m < b.len() implies is_due(
        costs,
        tos,
        opts,
        rows,
        b[m],
        j,
    ) by {
        reveal(is_due);
        if m < a.len() {
            assert(b[m] == a[m]);
            assert(is_due(costs, tos, opts, p, a[m], j));
            let k = choose|k: int|
                0 <= k < p.len() && p[k].0.1 == j && #[trigger] is_offer(costs, tos, opts, a[m], p[k]);
            assert(rows[k] == p[k]);
            assert(is_offer(costs, tos, opts, b[m], rows[k]));
        } else {
            assert(is_offer(costs, tos, opts, b[m], rows[rows.len() - 1]));
        }
    }
}

/// Whether the weights are the least that the rows allow: no row leads to a candidate for less, and every
/// candidate that is reached is so by a row, from the candidate from which it is said to come.
pub open spec fn takes_least(
    w: Weights,
    costs: Seq<u128>,
    tos: Seq<EdgeCand>,
    opts: RoutingOpts,
    rows: Seq<HopRow>,
) -> bool {
    &&& w.costs@.len() == tos.len()
    &&& w.prede@.len() == tos.len()
    &&& forall|k: int|
        0 <= k < rows.len() ==> w.costs@[(#[trigger] rows[k]).0.1 as int] <= price(
            costs,
            tos,
            opts,
            rows[k],
        )
    &&& forall|j: int|
        0 <= j < tos.len() && #[trigger] w.costs@[j] < DAG_INF ==> exists|k: int|
            0 <= k < rows.len() && (#[trigger] rows[k]).0.1 == j && rows[k].0.0 == w.prede@[j]
                && w.costs@[j] == price(costs, tos, opts, rows[k])
}

/// A ride brings every candidate the least weight that the ways to it allow: that of the candidate before,
/// its own penalty and the cost of the way at the penalty of travel, together.
pub proof fn lemma_ride_takes_least(
    costs: Seq<u128>,
    froms: Seq<EdgeCand>,
    tos: Seq<EdgeCand>,
    rows: Seq<HopRow>,
    hop_dist: u64,
    opts: RoutingOpts,
    w: Weights,
)
    requires
        rows_in(rows, froms.len(), tos.len()),
        costs.len() == froms.len(),
        forall|i: int| 0 <= i < costs.len() ==> #[trigger] costs[i] <= DAG_INF,
        w.best_of(
            tos.len(),
            |j: int|
                row_offers::<ExpoTransWeight>(costs, froms, tos, rows, hop_dist, opts, j),
        ),
    ensures
        takes_least(w, costs, tos, opts, rows),
{
    let offers = |j: int|
        row_offers::<ExpoTransWeight>(costs, froms, tos, rows, hop_dist, opts, j);
    assert forall|k: int| 0 <= k < rows.len() implies w.costs@[(#[trigger] rows[k]).0.1 as int]
        <= price(costs, tos, opts, rows[k]) by {
        let j = rows[k].0.1 as int;
        assert(rows[k].0.1 < tos.len());
        lemma_row_offers(costs, froms, tos, rows, hop_dist, opts, j);
        let o = row_offers::<ExpoTransWeight>(costs, froms, tos, rows, hop_dist, opts, j);
        lemma_best_offer(o);
        assert((w.costs@[j], w.prede@[j]) == best_offer(offers(j)));
        reveal(is_made);
        assert(is_made(costs, tos, opts, o, rows[k]));
        let m = choose|m: int|
            0 <= m < o.len() && #[trigger] is_offer(costs, tos, opts, o[m], rows[k]);
        assert(best_offer(o).0 <= o[m].0);
    }
    assert forall|j: int| 0 <= j < tos.len() && #[trigger] w.costs@[j] < DAG_INF implies exists|k: int|
        0 <= k < rows.len() && (#[trigger] rows[k]).0.1 == j && rows[k].0.0 == w.prede@[j]
            && w.costs@[j] == price(costs, tos, opts, rows[k]) by {
        lemma_row_offers(costs, froms, tos, rows, hop_dist, opts, j);
        let o = row_offers::<ExpoTransWeight>(costs, froms, tos, rows, hop_dist, opts, j);
        lemma_best_offer(o);
        assert((w.costs@[j], w.prede@[j]) == best_offer(offers(j)));
        let m = choose|m: int| 0 <= m < o.len() && o[m] == best_offer(o);
        reveal(is_due);
        assert(is_due(costs, tos, opts, rows, o[m], j));
        let k = choose|k: int|
            0 <= k < rows.len() && rows[k].0.1 == j && #[trigger] is_offer(
                costs,
                tos,
                opts,
                o[m],
                rows[k],
            );
        assert(rows[k].0.1 == j);
    }
}

/// Of two candidates with the same penalty, each reached by one way from candidates of the same weight, the
/// one with the cheaper way weighs less.
pub proof fn lemma_cheaper_way_weighs_less(
    costs: Seq<u128>,
    tos: Seq<EdgeCand>,
    opts: RoutingOpts,
    rows: Seq<HopRow>,
    w: Weights,
    k: int,
    l: int,
)
    requires
        takes_least(w, costs, tos, opts, rows),
        0 <= k < rows.len(),
        0 <= l < rows.len(),
        rows[k].0.1 < tos.len(),
        rows[l].0.1 < tos.len(),
        forall|m: int|
            #![trigger rows[m]]
            0 <= m < rows.len() && m != l ==> rows[m].0.1 != rows[l].0.1,
        costs[rows[k].0.0 as int] == costs[rows[l].0.0 as int],
        tos[rows[k].0.1 as int].pen == tos[rows[l].0.1 as int].pen,
        opts.transition_pen > 0,
        rows[k].1 < rows[l].1,
        w.costs@[rows[l].0.1 as int] < DAG_INF,
    ensures
        w.costs@[rows[k].0.1 as int] < w.costs@[rows[l].0.1 as int],
{
    assert(opts.transition_pen * rows[k].1 < opts.transition_pen * rows[l].1) by (nonlinear_arith)
        requires
            opts.transition_pen > 0,
            rows[k].1 < rows[l].1,
    ;
    assert(w.costs@[rows[k].0.1 as int] <= price(costs, tos, opts, rows[k]));
}

/// Whether the weights are the least that the candidates before allow, each with the same extra weight.
pub open spec fn least_with(w: Weights, costs: Seq<u128>, j: int, extra: int) -> bool {
    &&& forall|i: int| 0 <= i < costs.len() ==> w.costs@[j] <= #[trigger] costs[i] + extra
    &&& w.costs@[j] < DAG_INF ==> w.prede@[j] < costs.len() && w.costs@[j] == costs[w.prede@[j] as int]
        + extra
}

proof fn lemma_least_with(w: Weights, costs: Seq<u128>, j: int, extra: int, offers: Seq<Offer>)
    requires
        costs.len() <= usize::MAX,
        forall|i: int| 0 <= i < costs.len() ==> #[trigger] costs[i] <= DAG_INF,
        0 <= extra <= 0xffff_ffff_ffff_ffff * 0xffff_ffff,
        offers.len() == costs.len(),
        forall|i: int|
            #![trigger offers[i]]
            0 <= i < offers.len() ==> offers[i] == ((costs[i] + extra) as u128, i as usize),
        (w.costs@[j], w.prede@[j]) == best_offer(offers),
    ensures
        least_with(w, costs, j, extra),
{
    lemma_best_offer(offers);
    assert forall|i: int| 0 <= i < costs.len() implies w.costs@[j] <= #[trigger] costs[i] + extra by {
        assert(best_offer(offers).0 <= offers[i].0);
    }
    if w.costs@[j] < DAG_INF {
        let i = choose|i: int| 0 <= i < offers.len() && offers[i] == best_offer(offers);
        assert(offers[i].1 == i);
        assert(costs[i] <= DAG_INF);
    }
}

/// Where no way was found, a candidate that lies on no edge is reached from the best candidate before, at a
/// hundred times the largest cost that was looked for, if no candidate stands before it that lies on an edge;
/// one on an edge is reached at its own penalty.
pub proof fn lemma_giving_up(
    costs: Seq<u128>,
    tos: Seq<EdgeCand>,
    max_cost: u32,
    w: Weights,
    j: int,
)
    requires
        costs.len() <= usize::MAX,
        forall|i: int| 0 <= i < costs.len() ==> #[trigger] costs[i] <= DAG_INF,
        w.best_of(tos.len(), |j: int| giving_up_offers(costs, tos, max_cost, j)),
        0 <= j < tos.len(),
    ensures
        (forall|i: int| 0 <= i <= j ==> (#[trigger] tos[i]).edge is None) ==> least_with(
            w,
            costs,
            j,
            max_cost * 100 * 100_000_000,
        ),
        j > 0 && tos[j].edge is Some ==> least_with(w, costs, j, tos[j].pen as int),
{
    let offers = |j: int| giving_up_offers(costs, tos, max_cost, j);
    assert((w.costs@[j], w.prede@[j]) == best_offer(offers(j)));
    lemma_nulls_end(tos, 0, j);
    lemma_nulls_end(tos, 1, j);
    if forall|i: int| 0 <= i <= j ==> (#[trigger] tos[i]).edge is None {
        lemma_least_with(
            w,
            costs,
            j,
            max_cost * 100 * 100_000_000,
            giving_up_offers(costs, tos, max_cost, j),
        );
    }
    if j > 0 && tos[j].edge is Some {
        lemma_least_with(w, costs, j, tos[j].pen as int, giving_up_offers(costs, tos, max_cost, j));
    }
}

proof fn lemma_nulls_end(group: Seq<EdgeCand>, from: int, j: int)
    requires
        0 <= from,
        0 <= j < group.len(),
    ensures
        from <= j && (forall|i: int| from <= i <= j ==> (#[trigger] group[i]).edge is None)
            ==> nulls_end(group, from) > j,
        from <= j && group[j].edge is Some ==> nulls_end(group, from) <= j,
    decreases group.len() - from,
{
    if from <= j {
        assert(group[from] == group[from]);
        if group[from].edge is None {
            lemma_nulls_end(group, from + 1, j);
            if from == j {
                lemma_nulls_end_grows(group, from + 1);
            }
        }
    }
}

proof fn lemma_nulls_end_grows(group: Seq<EdgeCand>, from: int)
    ensures
        nulls_end(group, from) >= from,
    decreases group.len() - from,
{
    if 0 <= from < group.len() && group[from].edge is None {
        lemma_nulls_end_grows(group, from + 1);
    }
}

/// A stay brings every candidate of the departure the least weight of the candidates of the arrival that it
/// may follow, and its own penalty.
pub proof fn lemma_stay_takes_least(costs: Seq<u128>, tos: Seq<EdgeCand>, w: Weights, j: int)
    requires
        forall|i: int| 0 <= i < costs.len() ==> #[trigger] costs[i] <= DAG_INF,
        forall|j: int, k: int|
            #![trigger tos[j].dep_prede@[k]]
            0 <= j < tos.len() && 0 <= k < tos[j].dep_prede@.len() ==> tos[j].dep_prede@[k] < costs.len(),
        w.best_of(tos.len(), |j: int| stay_offers(costs, tos[j])),
        0 <= j < tos.len(),
    ensures
        forall|i: usize| #[trigger]
            tos[j].dep_prede@.contains(i) ==> w.costs@[j] <= costs[i as int] + tos[j].pen,
        w.costs@[j] < DAG_INF ==> tos[j].dep_prede@.contains(w.prede@[j]) && w.costs@[j]
            == costs[w.prede@[j] as int] + tos[j].pen,
{
    let offers = |j: int| stay_offers(costs, tos[j]);
    let o = stay_offers(costs, tos[j]);
    assert((w.costs@[j], w.prede@[j]) == best_offer(offers(j)));
    lemma_best_offer(o);
    assert forall|i: usize| #[trigger] tos[j].dep_prede@.contains(i) implies w.costs@[j]
        <= costs[i as int] + tos[j].pen by {
        let k = choose|k: int| 0 <= k < tos[j].dep_prede@.len() && tos[j].dep_prede@[k] == i;
        assert(o[k] == ((costs[i as int] + tos[j].pen) as u128, i));
        assert(costs[i as int] <= DAG_INF);
        assert(best_offer(o).0 <= o[k].0);
    }
    if w.costs@[j] < DAG_INF {
        let k = choose|k: int| 0 <= k < o.len() && o[k] == best_offer(o);
        let i = tos[j].dep_prede@[k];
        assert(o[k] == ((costs[i as int] + tos[j].pen) as u128, i));
        assert(costs[i as int] <= DAG_INF);
    }
}

/// What a ride between two groups brings about: ways that a search may find, and either the least weights
/// that these allow, or, if they reach no candidate, a group that is reached without a way.
pub proof fn lemma_travel(
    g: &Net,
    froms: Seq<EdgeCand>,
    tos: Seq<EdgeCand>,
    costs: Seq<u128>,
    hop_dist: u64,
    opts: RoutingOpts,
    slow: bool,
    use_cache: bool,
    first: u32,
    before: Known,
    tries: Seq<Attempt>,
    after: Known,
    w: Weights,
    max_cost: u32,
) -> (a: Attempt)
    requires
        costs.len() == froms.len(),
        froms.len() <= usize::MAX,
        tos.len() <= usize::MAX,
        forall|i: int| 0 <= i < costs.len() ==> #[trigger] costs[i] <= DAG_INF,
        hop_step::<ExpoTransWeight>(
            g,
            froms,
            tos,
            costs,
            hop_dist,
            opts,
            slow,
            use_cache,
            first,
            before,
            tries,
            after,
            w,
            max_cost,
        ),
    ensures
        may_find::<ExpoTransWeight>(g, froms, tos, costs, opts, slow, max_cost, a),
        rows_in(a.rows, froms.len(), tos.len()),
        w.costs@.len() == tos.len(),
        forall|j: int| 0 <= j < tos.len() ==> #[trigger] w.costs@[j] <= DAG_INF,
        forall|k: int|
            0 <= k < a.rows.len() ==> w.costs@[(#[trigger] a.rows[k]).0.1 as int] <= price(
                costs,
                tos,
                opts,
                a.rows[k],
            ),
        takes_least(w, costs, tos, opts, a.rows) || forall|k: int|
            0 <= k < a.rows.len() ==> price(costs, tos, opts, #[trigger] a.rows[k]) >= DAG_INF,
{
    let n = tries.len() as int;
    let a = tries[n - 1];
    assert(may_find::<ExpoTransWeight>(
        g,
        froms,
        tos,
        costs,
        opts,
        slow,
        doubled(first, (n - 1) as nat),
        tries[n - 1],
    ));
    lemma_found_rows_in(g, froms, tos, costs, opts, slow, max_cost, a);
    let ride = |j: int|
        row_offers::<ExpoTransWeight>(costs, froms, tos, a.rows, hop_dist, opts, j);
    let none = |j: int| giving_up_offers(costs, tos, max_cost, j);
    let lost = missed::<ExpoTransWeight>(costs, froms, tos, hop_dist, opts, a);
    assert forall|j: int| 0 <= j < tos.len() implies #[trigger] w.costs@[j] <= DAG_INF by {
        if lost {
            assert((w.costs@[j], w.prede@[j]) == best_offer(none(j)));
            lemma_best_offer(none(j));
        } else {
            assert((w.costs@[j], w.prede@[j]) == best_offer(ride(j)));
            lemma_best_offer(ride(j));
        }
    }
    if lost {
        assert forall|k: int| 0 <= k < a.rows.len() implies price(
            costs,
            tos,
            opts,
            #[trigger] a.rows[k],
        ) >= DAG_INF by {
            let j = a.rows[k].0.1 as int;
            assert(a.rows[k].0.1 < tos.len());
            lemma_row_offers(costs, froms, tos, a.rows, hop_dist, opts, j);
            let o = row_offers::<ExpoTransWeight>(costs, froms, tos, a.rows, hop_dist, opts, j);
            lemma_best_offer(o);
            assert(best_offer(o).0 >= DAG_INF);
            reveal(is_made);
            assert(is_made(costs, tos, opts, o, a.rows[k]));
            let m = choose|m: int|
                0 <= m < o.len() && #[trigger] is_offer(costs, tos, opts, o[m], a.rows[k]);
            assert(best_offer(o).0 <= o[m].0);
        }
        assert forall|k: int| 0 <= k < a.rows.len() implies w.costs@[(#[trigger] a.rows[k]).0.1 as int]
            <= price(costs, tos, opts, a.rows[k]) by {
            assert(a.rows[k].0.1 < tos.len());
            assert(w.costs@[a.rows[k].0.1 as int] <= DAG_INF);
        }
    } else {
        lemma_ride_takes_least(costs, froms, tos, a.rows, hop_dist, opts, w);
    }
    a
}

proof fn lemma_found_rows_in(
    g: &Net,
    froms: Seq<EdgeCand>,
    tos: Seq<EdgeCand>,
    costs: Seq<u128>,
    opts: RoutingOpts,
    slow: bool,
    max_cost: u32,
    a: Attempt,
)
    requires
        froms.len() <= usize::MAX,
        tos.len() <= usize::MAX,
        may_find::<ExpoTransWeight>(g, froms, tos, costs, opts, slow, max_cost, a),
    ensures
        rows_in(a.rows, froms.len(), tos.len()),
{
    if slow {
        let base = |k: (usize, usize)|
            base_cost(g, a.cache, ExpoTransWeight::spec_need_dist(), max_cost, k);
        lemma_rows_of_in(g, froms, tos, base, max_cost, froms.len() as int);
    } else {
        let p = fast_plan(
            g,
            froms,
            tos,
            costs,
            inv_of::<ExpoTransWeight>(opts),
            a.cache,
            max_cost,
        );
        let f = choose|f: Map<usize, Label>| #[trigger]
            fast_outcome(g, p, froms, tos, f, a.rows, a.cache, a.after);
        crate::router::hops_fast::lemma_fast_rows_in(
            g,
            p,
            froms,
            tos,
            f,
            crate::router::hops_fast::distinct_keys(p.to_keys),
        );
    }
}

} // verus!
