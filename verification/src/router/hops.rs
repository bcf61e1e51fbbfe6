//! The costs between the candidates of two stops.

use crate::graph::EdgeIndex;
use crate::hashed::{
    hops_get, hops_insert, hops_new, hops_of, indices_insert, indices_new, indices_of, labels_get,
    labels_of, HopTable, IndexSet, Label,
};
use crate::router::edge_search::{
    best_bids, cost_between, lemma_cost_between_unique, run_dijkstra_1_to_n, search_from, Net,
    ROUTE_INF,
};
use crate::router::hop_cache::{lemma_take_contains, HopCache, HopCost};
use crate::router::types::{EdgeCand, EdgeCandGroup, WHOLE_EDGE};
use crate::router::weights::{capped, RoutingOpts, TransWeight};
use vstd::prelude::*;

verus! {

/// Weights from here on count as unreachable, in units of `1e-8`.
pub const DAG_INF: u128 = 100_000_000_000_000_000_000_000_000;

/// The cost of the way between two candidates, which are given by their positions.
pub type HopRow = ((usize, usize), u32);

/// Whether the candidates lie on edges of the graph.
pub open spec fn cands_ok(g: &Net, group: Seq<EdgeCand>) -> bool {
    forall|i: int|
        #![trigger group[i]]
        0 <= i < group.len() ==> group[i].progr <= WHOLE_EDGE && (group[i].edge matches Some(e)
            ==> e < g.edges@.len())
}

/// The cost of the part of an edge that lies before a candidate, in billionths.
pub open spec fn part_cost(g: &Net, e: usize, progr: u32) -> nat {
    (g.edges@[e as int].payload.cost as nat) * (progr as nat)
}

/// The cost of the part of an edge that lies before a candidate.
pub open spec fn progr_cost(g: &Net, e: usize, progr: u32) -> nat {
    part_cost(g, e, progr) / (WHOLE_EDGE as nat)
}

pub(crate) fn part_cost_of(g: &Net, e: EdgeIndex, progr: u32) -> (r: u64)
    requires
        e < g.edges@.len(),
        progr <= WHOLE_EDGE,
    ensures
        r == part_cost(g, e, progr),
        r <= 0xffff_ffff * 1_000_000_000,
{
    let c: u64 = g.edge(e).payload.cost as u64;
    let p: u64 = progr as u64;
    assert(c * p <= 0xffff_ffff * 1_000_000_000) by (nonlinear_arith)
        requires
            c <= 0xffff_ffff,
            p <= 1_000_000_000,
    ;
    c * p
}

fn progr_cost_of(g: &Net, e: EdgeIndex, progr: u32) -> (r: u32)
    requires
        e < g.edges@.len(),
        progr <= WHOLE_EDGE,
    ensures
        r == progr_cost(g, e, progr),
{
    (part_cost_of(g, e, progr) / WHOLE_EDGE as u64) as u32
}

/// A number, cut off at `u32::MAX`, or raised to zero.
pub open spec fn clamp_u32(n: int) -> u32 {
    if n < 0 {
        0
    } else {
        capped(n as nat)
    }
}

/// The cost from candidate to candidate, given the cost `base` from the end of one's edge to the
/// end of the other's: what lies before the first one is taken off, and what lies before the
/// second one is added instead of its whole edge. On one edge there is no way backwards.
pub open spec fn cand_cost(g: &Net, fr: EdgeCand, to: EdgeCand, base: u32) -> Option<u32> {
    let a = fr.edge->0;
    let b = to.edge->0;
    if a == b {
        if fr.progr <= to.progr {
            Some(clamp_u32(base + progr_cost(g, b, to.progr) - progr_cost(g, a, fr.progr)))
        } else {
            None
        }
    } else {
        Some(clamp_u32(clamp_u32(base - progr_cost(g, a, fr.progr)) + progr_cost(g, b, to.progr)))
    }
}

pub(crate) fn cand_cost_of(g: &Net, fr: &EdgeCand, to: &EdgeCand, base: u32) -> (r: Option<u32>)
    requires
        fr.edge is Some,
        to.edge is Some,
        fr.edge->0 < g.edges@.len(),
        to.edge->0 < g.edges@.len(),
        fr.progr <= WHOLE_EDGE,
        to.progr <= WHOLE_EDGE,
    ensures
        r == cand_cost(g, *fr, *to, base),
{
    let (a, b): (usize, usize) = match (fr.edge, to.edge) {
        (Some(a), Some(b)) => (a, b),
        _ => {
            return None;
        },
    };
    let before_fr: u32 = progr_cost_of(g, a, fr.progr);
    let before_to: u32 = progr_cost_of(g, b, to.progr);
    if a == b {
        if fr.progr <= to.progr {
            proof {
                let c = g.edges@[a as int].payload.cost as nat;
                let p = fr.progr as nat;
                let q = to.progr as nat;
                assert(c * p <= c * q) by (nonlinear_arith)
                    requires
                        p <= q,
                ;
                vstd::arithmetic::div_mod::lemma_div_is_ordered(
                    (c * p) as int,
                    (c * q) as int,
                    WHOLE_EDGE as int,
                );
            }
            Some(base.saturating_add(before_to - before_fr))
        } else {
            None
        }
    } else {
        Some(base.saturating_sub(before_fr).saturating_add(before_to))
    }
}

/// The row of two candidates, if both lie on edges and the cost stays below the limit.
pub open spec fn hop_row(
    g: &Net,
    fr: EdgeCand,
    to: EdgeCand,
    base: spec_fn((usize, usize)) -> u32,
    max_cost: u32,
) -> Option<u32> {
    if fr.edge is Some && to.edge is Some && base((fr.edge->0, to.edge->0)) < max_cost {
        match cand_cost(g, fr, to, base((fr.edge->0, to.edge->0))) {
            Some(c) => if c < max_cost {
                Some(c)
            } else {
                None
            },
            None => None,
        }
    } else {
        None
    }
}

/// The rows of the candidate at position `i` with the first `m` candidates of the other stop.
pub open spec fn rows_of_one(
    g: &Net,
    froms: Seq<EdgeCand>,
    tos: Seq<EdgeCand>,
    base: spec_fn((usize, usize)) -> u32,
    max_cost: u32,
    i: int,
    m: int,
) -> Seq<HopRow>
    decreases m,
{
    if m <= 0 {
        Seq::empty()
    } else {
        let rest = rows_of_one(g, froms, tos, base, max_cost, i, m - 1);
        match hop_row(g, froms[i], tos[m - 1], base, max_cost) {
            Some(c) => rest.push(((i as usize, (m - 1) as usize), c)),
            None => rest,
        }
    }
}

/// The rows of the first `n` candidates, by candidate and then by candidate of the other stop.
pub open spec fn rows_of(
    g: &Net,
    froms: Seq<EdgeCand>,
    tos: Seq<EdgeCand>,
    base: spec_fn((usize, usize)) -> u32,
    max_cost: u32,
    n: int,
) -> Seq<HopRow>
    decreases n,
{
    if n <= 0 {
        Seq::empty()
    } else {
        rows_of(g, froms, tos, base, max_cost, n - 1) + rows_of_one(
            g,
            froms,
            tos,
            base,
            max_cost,
            n - 1,
            tos.len() as int,
        )
    }
}

/// The cost between two edges that a search within the limit finds.
pub open spec fn searched_cost(g: &Net, max_cost: u32, k: (usize, usize)) -> u32 {
    choose|c: u32| cost_between(g, k.0, max_cost, k.1, c)
}

/// Whether the cache spares the search for the cost between two edges.
pub open spec fn spared(known: HopCost, need_dist: bool) -> bool {
    known matches HopCost::Exactly(c) && (c >= ROUTE_INF || !need_dist)
}

/// The cost between two edges: the one that the cache knows, or else the one that a search finds.
pub open spec fn base_cost(
    g: &Net,
    cache: spec_fn((usize, usize)) -> HopCost,
    need_dist: bool,
    max_cost: u32,
    k: (usize, usize),
) -> u32 {
    if spared(cache(k), need_dist) {
        if cache(k)->Exactly_0 >= ROUTE_INF {
            ROUTE_INF
        } else {
            cache(k)->Exactly_0
        }
    } else {
        searched_cost(g, max_cost, k)
    }
}

/// Whether the edge is that of one of the candidates.
pub open spec fn has_edge(group: Seq<EdgeCand>, e: usize) -> bool {
    exists|i: int| 0 <= i < group.len() && (#[trigger] group[i]).edge == Some(e)
}

/// What the cache holds after a search between two groups: what the search found, and what it
/// held before where it was not asked.
pub open spec fn cache_after(
    g: &Net,
    froms: Seq<EdgeCand>,
    tos: Seq<EdgeCand>,
    before: spec_fn((usize, usize)) -> HopCost,
    need_dist: bool,
    max_cost: u32,
    k: (usize, usize),
) -> HopCost {
    if has_edge(froms, k.0) && has_edge(tos, k.1) && !spared(before(k), need_dist) {
        let c = searched_cost(g, max_cost, k);
        if c == ROUTE_INF {
            HopCost::AtLeast(max_cost)
        } else {
            HopCost::Exactly(c)
        }
    } else {
        before(k)
    }
}

/// The distinct edges of a group of candidates.
fn distinct_edges(group: &EdgeCandGroup) -> (r: Vec<EdgeIndex>)
    ensures
        r@.no_duplicates(),
        forall|e: usize| #[trigger] r@.contains(e) <==> has_edge(group@, e),
{
    let mut seen: IndexSet = indices_new();
    let mut r: Vec<EdgeIndex> = Vec::new();
    let mut i: usize = 0;
    while i < group.len()
        invariant
            i <= group@.len(),
            r@.no_duplicates(),
            forall|e: usize| #[trigger] indices_of(seen).contains(e) <==> r@.contains(e),
            forall|e: usize| #[trigger] r@.contains(e) <==> has_edge(group@.take(i as int), e),
        decreases group@.len() - i,
    {
        proof {
            lemma_has_edge_next(group@, i as int);
        }
        if let Some(e) = group[i].edge {
            if indices_insert(&mut seen, e) {
                let ghost r0 = r@;
                r.push(e);
                proof {
                    assert(r@[r0.len() as int] == e);
                    assert forall|x: usize| #[trigger] r@.contains(x) <==> r0.contains(x) || x == e by {
                        if r0.contains(x) {
                            let j = choose|j: int| 0 <= j < r0.len() && r0[j] == x;
                            assert(r@[j] == x);
                        }
                    }
                }
            }
        }
        i = i + 1;
    }
    assert(group@.take(i as int) =~= group@);
    r
}

proof fn lemma_has_edge_next(group: Seq<EdgeCand>, i: int)
    requires
        0 <= i < group.len(),
    ensures
        forall|e: usize| #[trigger]
            has_edge(group.take(i + 1), e) <==> has_edge(group.take(i), e) || group[i].edge == Some(
                e,
            ),
{
    let a = group.take(i);
    let b = group.take(i + 1);
    assert forall|e: usize| #[trigger] has_edge(b, e) <==> has_edge(a, e) || group[i].edge == Some(
        e,
    ) by {
        if has_edge(a, e) {
            let j = choose|j: int| 0 <= j < a.len() && (#[trigger] a[j]).edge == Some(e);
            assert(b[j].edge == Some(e));
        }
        if group[i].edge == Some(e) {
            assert(b[i].edge == Some(e));
        }
        if has_edge(b, e) && group[i].edge != Some(e) {
            let j = choose|j: int| 0 <= j < b.len() && (#[trigger] b[j]).edge == Some(e);
            assert(a[j].edge == Some(e));
        }
    }
}

/// Finds the costs from one edge to the others, and remembers what it had to search for.
fn costs_from(
    g: &Net,
    from: EdgeIndex,
    tos: &Vec<EdgeIndex>,
    need_dist: bool,
    max_cost: u32,
    cache: &mut HopCache,
    table: &mut HopTable,
)
    requires
        g.wf(),
        from < g.edges@.len(),
        old(cache).wf(),
        tos@.no_duplicates(),
    ensures
        final(cache).wf(),
        forall|k: (usize, usize)| #[trigger]
            final(cache)@(k) == (if k.0 == from && tos@.contains(k.1) && !spared(
                old(cache)@(k),
                need_dist,
            ) {
                let c = searched_cost(g, max_cost, k);
                if c == ROUTE_INF {
                    HopCost::AtLeast(max_cost)
                } else {
                    HopCost::Exactly(c)
                }
            } else {
                old(cache)@(k)
            }),
        forall|k: (usize, usize)| #[trigger]
            hops_of(*final(table)).contains_key(k) <==> hops_of(*old(table)).contains_key(k) || (
            k.0 == from && tos@.contains(k.1)),
        forall|k: (usize, usize)| #[trigger]
            hops_of(*final(table)).contains_key(k) ==> hops_of(*final(table))[k] == (if k.0 == from
                && tos@.contains(k.1) {
                base_cost(g, old(cache)@, need_dist, max_cost, k) as i64
            } else {
                hops_of(*old(table))[k]
            }),
{
    let ghost c0 = cache@;
    let ghost t0 = hops_of(*table);
    let mut open: Vec<EdgeIndex> = Vec::new();
    let mut i: usize = 0;
    while i < tos.len()
        invariant
            i <= tos@.len(),
            cache@ == c0,
            cache.wf(),
            forall|e: usize| #[trigger]
                open@.contains(e) <==> tos@.take(i as int).contains(e) && !spared(
                    c0((from, e)),
                    need_dist,
                ),
            forall|k: (usize, usize)| #[trigger]
                hops_of(*table).contains_key(k) <==> t0.contains_key(k) || (k.0 == from
                    && tos@.take(i as int).contains(k.1) && spared(c0(k), need_dist)),
            forall|k: (usize, usize)| #[trigger]
                hops_of(*table).contains_key(k) ==> hops_of(*table)[k] == (if k.0 == from
                    && tos@.take(i as int).contains(k.1) && spared(c0(k), need_dist) {
                    base_cost(g, c0, need_dist, max_cost, k) as i64
                } else {
                    t0[k]
                }),
        decreases tos@.len() - i,
    {
        let to: usize = tos[i];
        proof {
            lemma_take_contains(tos@, i as int);
        }
        let (known, exact): (u32, bool) = cache.get(from, to);
        if exact && known >= ROUTE_INF {
            hops_insert(table, (from, to), ROUTE_INF as i64);
        } else if exact && !need_dist {
            hops_insert(table, (from, to), known as i64);
        } else {
            let ghost o0 = open@;
            open.push(to);
            proof {
                assert(open@[o0.len() as int] == to);
                assert forall|x: usize| #[trigger] open@.contains(x) <==> o0.contains(x) || x == to by {
                    if o0.contains(x) {
                        let j = choose|j: int| 0 <= j < o0.len() && o0[j] == x;
                        assert(open@[j] == x);
                    }
                }
            }
        }
        i = i + 1;
    }
    assert(tos@.take(i as int) =~= tos@);
    let ghost t1 = hops_of(*table);
    if open.len() > 0 {
        let costs: Vec<u32> = run_dijkstra_1_to_n(g, from, open.as_slice(), max_cost);
        let mut j: usize = 0;
        while j < open.len()
            invariant
                j <= open@.len(),
                costs@.len() == open@.len(),
                cache.wf(),
                forall|m: int|
                    0 <= m < costs@.len() ==> cost_between(
                        g,
                        from,
                        max_cost,
                        open@[m],
                        #[trigger] costs@[m],
                    ),
                forall|k: (usize, usize)| #[trigger]
                    cache@(k) == (if k.0 == from && open@.take(j as int).contains(k.1) {
                        let c = searched_cost(g, max_cost, k);
                        if c == ROUTE_INF {
                            HopCost::AtLeast(max_cost)
                        } else {
                            HopCost::Exactly(c)
                        }
                    } else {
                        c0(k)
                    }),
                forall|k: (usize, usize)| #[trigger]
                    hops_of(*table).contains_key(k) <==> t1.contains_key(k) || (k.0 == from
                        && open@.take(j as int).contains(k.1)),
                forall|k: (usize, usize)| #[trigger]
                    hops_of(*table).contains_key(k) ==> hops_of(*table)[k] == (if k.0 == from
                        && open@.take(j as int).contains(k.1) {
                        searched_cost(g, max_cost, k) as i64
                    } else {
                        t1[k]
                    }),
            decreases open@.len() - j,
        {
            let to: usize = open[j];
            let cost: u32 = costs[j];
            proof {
                lemma_take_contains(open@, j as int);
                let k = (from, to);
                assert(cost_between(g, k.0, max_cost, k.1, cost));
                lemma_cost_between_unique(g, from, max_cost, to, cost, searched_cost(g, max_cost, k));
            }
            hops_insert(table, (from, to), cost as i64);
            if cost == ROUTE_INF {
                cache.set_min(from, to, max_cost);
            } else {
                cache.set_ex(from, to, cost);
            }
            j = j + 1;
        }
        assert(open@.take(j as int) =~= open@);
    }
    proof {
        assert forall|k: (usize, usize)| k.0 == from implies (#[trigger] open@.contains(k.1)
            <==> tos@.contains(k.1) && !spared(c0(k), need_dist)) by {
            assert(k == (from, k.1));
        }
        assert forall|k: (usize, usize)| #[trigger] cache@(k) == (if k.0 == from && tos@.contains(
            k.1,
        ) && !spared(c0(k), need_dist) {
            let c = searched_cost(g, max_cost, k);
            if c == ROUTE_INF {
                HopCost::AtLeast(max_cost)
            } else {
                HopCost::Exactly(c)
            }
        } else {
            c0(k)
        }) by {
            if k.0 == from {
                assert(open@.contains(k.1) <==> tos@.contains(k.1) && !spared(c0(k), need_dist));
            }
        }
        assert forall|k: (usize, usize)| #[trigger] hops_of(*table).contains_key(k)
            <==> t0.contains_key(k) || (k.0 == from && tos@.contains(k.1)) by {
            if k.0 == from {
                assert(open@.contains(k.1) <==> tos@.contains(k.1) && !spared(c0(k), need_dist));
            }
        }
        assert forall|k: (usize, usize)| #[trigger] hops_of(*table).contains_key(k) implies hops_of(
            *table,
        )[k] == (if k.0 == from && tos@.contains(k.1) {
            base_cost(g, c0, need_dist, max_cost, k) as i64
        } else {
            t0[k]
        }) by {
            if k.0 == from {
                assert(open@.contains(k.1) <==> tos@.contains(k.1) && !spared(c0(k), need_dist));
            }
            assert(t1.contains_key(k) || k.0 == from && open@.contains(k.1));
        }
    }
}

/// The costs between the candidates of two stops that stay below `max_cost`.
///
/// What the cache knows exactly is not searched for again, and what is found is remembered.
pub fn hops(
    g: &Net,
    froms: &EdgeCandGroup,
    tos: &EdgeCandGroup,
    need_dist: bool,
    hop_cache: &mut HopCache,
    max_cost: u32,
) -> (rows: Vec<HopRow>)
    requires
        g.wf(),
        cands_ok(g, froms@),
        cands_ok(g, tos@),
        old(hop_cache).wf(),
    ensures
        final(hop_cache).wf(),
        rows@ == rows_of(
            g,
            froms@,
            tos@,
            |k: (usize, usize)| base_cost(g, old(hop_cache)@, need_dist, max_cost, k),
            max_cost,
            froms@.len() as int,
        ),
        forall|k: (usize, usize)| #[trigger]
            final(hop_cache)@(k) == cache_after(
                g,
                froms@,
                tos@,
                old(hop_cache)@,
                need_dist,
                max_cost,
                k,
            ),
{
    let e_frs = distinct_edges(froms);
    let e_tos = distinct_edges(tos);
    let ghost c0 = hop_cache@;
    let ghost base = |k: (usize, usize)| base_cost(g, c0, need_dist, max_cost, k);
    let mut table: HopTable = hops_new();
    let mut i: usize = 0;
    while i < e_frs.len()
        invariant
            g.wf(),
            i <= e_frs@.len(),
            e_frs@.no_duplicates(),
            e_tos@.no_duplicates(),
            cands_ok(g, froms@),
            forall|e: usize| #[trigger] e_frs@.contains(e) <==> has_edge(froms@, e),
            hop_cache.wf(),
            base == (|k: (usize, usize)| base_cost(g, c0, need_dist, max_cost, k)),
            forall|k: (usize, usize)| #[trigger]
                hop_cache@(k) == (if e_frs@.take(i as int).contains(k.0) && e_tos@.contains(k.1)
                    && !spared(c0(k), need_dist) {
                    let c = searched_cost(g, max_cost, k);
                    if c == ROUTE_INF {
                        HopCost::AtLeast(max_cost)
                    } else {
                        HopCost::Exactly(c)
                    }
                } else {
                    c0(k)
                }),
            forall|k: (usize, usize)| #[trigger]
                hops_of(table).contains_key(k) <==> e_frs@.take(i as int).contains(k.0)
                    && e_tos@.contains(k.1),
            forall|k: (usize, usize)| #[trigger]
                hops_of(table).contains_key(k) ==> hops_of(table)[k] == base(k),
        decreases e_frs@.len() - i,
    {
        let from: usize = e_frs[i];
        proof {
            lemma_take_contains(e_frs@, i as int);
            assert(e_frs@.contains(from));
            let n = choose|n: int| 0 <= n < froms@.len() && (#[trigger] froms@[n]).edge == Some(
                from,
            );
            assert(froms@[n].edge == Some(from));
            assert(!e_frs@.take(i as int).contains(from)) by {
                if e_frs@.take(i as int).contains(from) {
                    let j = choose|j: int|
                        0 <= j < i && e_frs@.take(i as int)[j] == from;
                    assert(e_frs@[j] == e_frs@[i as int]);
                }
            }
        }
        let ghost before = hop_cache@;
        costs_from(g, from, &e_tos, need_dist, max_cost, hop_cache, &mut table);
        proof {
            assert forall|k: (usize, usize)| #[trigger] hops_of(table).contains_key(k) implies hops_of(
                table,
            )[k] == base(k) by {
                if k.0 == from {
                    assert(before(k) == c0(k));
                }
            }
        }
        i = i + 1;
    }
    assert(e_frs@.take(i as int) =~= e_frs@);
    let mut rows: Vec<HopRow> = Vec::new();
    let mut a: usize = 0;
    while a < froms.len()
        invariant
            g.wf(),
            a <= froms@.len(),
            cands_ok(g, froms@),
            cands_ok(g, tos@),
            rows@ == rows_of(g, froms@, tos@, base, max_cost, a as int),
            forall|e: usize| #[trigger] e_frs@.contains(e) <==> has_edge(froms@, e),
            forall|e: usize| #[trigger] e_tos@.contains(e) <==> has_edge(tos@, e),
            forall|k: (usize, usize)| #[trigger]
                hops_of(table).contains_key(k) <==> e_frs@.contains(k.0) && e_tos@.contains(k.1),
            forall|k: (usize, usize)| #[trigger]
                hops_of(table).contains_key(k) ==> hops_of(table)[k] == base(k),
        decreases froms@.len() - a,
    {
        let ghost rows0 = rows@;
        let mut b: usize = 0;
        while b < tos.len()
            invariant
                g.wf(),
                a < froms@.len(),
                b <= tos@.len(),
                cands_ok(g, froms@),
                cands_ok(g, tos@),
                rows@ == rows0 + rows_of_one(g, froms@, tos@, base, max_cost, a as int, b as int),
                forall|e: usize| #[trigger] e_frs@.contains(e) <==> has_edge(froms@, e),
                forall|e: usize| #[trigger] e_tos@.contains(e) <==> has_edge(tos@, e),
                forall|k: (usize, usize)| #[trigger]
                    hops_of(table).contains_key(k) <==> e_frs@.contains(k.0) && e_tos@.contains(k.1),
                forall|k: (usize, usize)| #[trigger]
                    hops_of(table).contains_key(k) ==> hops_of(table)[k] == base(k),
            decreases tos@.len() - b,
        {
            let fr = &froms[a];
            let to = &tos[b];
            assert(froms@[a as int] == *fr);
            assert(tos@[b as int] == *to);
            if let (Some(e_fr), Some(e_to)) = (fr.edge, to.edge) {
                proof {
                    assert(has_edge(froms@, e_fr));
                    assert(has_edge(tos@, e_to));
                    assert(hops_of(table).contains_key((e_fr, e_to)));
                }
                let val: u32 = match hops_get(&table, (e_fr, e_to)) {
                    Some(v) => v as u32,
                    None => ROUTE_INF,
                };
                assert(val == base((e_fr, e_to)));
                if val < max_cost {
                    if let Some(c) = cand_cost_of(g, fr, to, val) {
                        if c < max_cost {
                            rows.push(((a, b), c));
                        }
                    }
                }
            }
            b = b + 1;
            proof {
                assert(rows@ =~= rows0 + rows_of_one(
                    g,
                    froms@,
                    tos@,
                    base,
                    max_cost,
                    a as int,
                    b as int,
                ));
            }
        }
        a = a + 1;
    }
    proof {
        assert forall|k: (usize, usize)| #[trigger] hop_cache@(k) == cache_after(
            g,
            froms@,
            tos@,
            c0,
            need_dist,
            max_cost,
            k,
        ) by {
            assert(e_frs@.contains(k.0) <==> has_edge(froms@, k.0));
            assert(e_tos@.contains(k.1) <==> has_edge(tos@, k.1));
        }
    }
    rows
}

// What the costs of hops are for.

/// The cost from candidate to candidate is that from edge to edge, less what lies before the first one and
/// more what lies before the second one, up to the rounding of each part. On one edge there is no way back.
pub proof fn lemma_cand_cost(g: &Net, fr: EdgeCand, to: EdgeCand, base: u32)
    requires
        fr.edge is Some,
        to.edge is Some,
        fr.progr <= 1_000_000_000,
        to.progr <= 1_000_000_000,
    ensures
        cand_cost(g, fr, to, base) is None <==> fr.edge == to.edge && fr.progr > to.progr,
        cand_cost(g, fr, to, base) matches Some(c) ==> {
            let before = g.edges@[fr.edge->0 as int].payload.cost * fr.progr;
            let behind = g.edges@[to.edge->0 as int].payload.cost * to.progr;
            let exact = base * 1_000_000_000 - before + behind;
            &&& base * 1_000_000_000 >= before && exact < 0xffff_fffe * 1_000_000_000 ==> -1_000_000_000
                < c * 1_000_000_000 - exact < 1_000_000_000
            &&& fr.edge == to.edge && fr.progr == to.progr ==> c == base
        },
{
    let a = g.edges@[fr.edge->0 as int].payload.cost as nat;
    let b = g.edges@[to.edge->0 as int].payload.cost as nat;
    let p = a * (fr.progr as nat);
    let q = b * (to.progr as nat);
    assert(p >= 0 && q >= 0);
    assert(p == g.edges@[fr.edge->0 as int].payload.cost * fr.progr);
    assert(q == g.edges@[to.edge->0 as int].payload.cost * to.progr);
    let x = p / 1_000_000_000;
    let y = q / 1_000_000_000;
    assert(x * 1_000_000_000 <= p < (x + 1) * 1_000_000_000);
    assert(y * 1_000_000_000 <= q < (y + 1) * 1_000_000_000);
    if fr.edge == to.edge && fr.progr <= to.progr {
        assert(p <= q) by (nonlinear_arith)
            requires
                p == a * (fr.progr as nat),
                q == b * (to.progr as nat),
                a == b,
                fr.progr <= to.progr,
        ;
    }
}

proof fn lemma_rows_one(
    g: &Net,
    froms: Seq<EdgeCand>,
    tos: Seq<EdgeCand>,
    base: spec_fn((usize, usize)) -> u32,
    max_cost: u32,
    i: int,
    m: int,
    row: HopRow,
)
    requires
        0 <= m <= tos.len() <= usize::MAX,
        0 <= i < froms.len() <= usize::MAX,
    ensures
        rows_of_one(g, froms, tos, base, max_cost, i, m).contains(row) <==> row.0.0 == i && row.0.1 < m
            && hop_row(g, froms[i], tos[row.0.1 as int], base, max_cost) == Some(row.1),
    decreases m,
{
    let all = rows_of_one(g, froms, tos, base, max_cost, i, m);
    if m > 0 {
        lemma_rows_one(g, froms, tos, base, max_cost, i, m - 1, row);
        let rest = rows_of_one(g, froms, tos, base, max_cost, i, m - 1);
        if rest.contains(row) {
            let k = choose|k: int| 0 <= k < rest.len() && rest[k] == row;
            assert(all[k] == row);
        }
        if all.contains(row) && !rest.contains(row) {
            let k = choose|k: int| 0 <= k < all.len() && all[k] == row;
            if k < rest.len() {
                assert(rest[k] == row);
            }
        }
        if row.0.0 == i && row.0.1 == m - 1 && hop_row(g, froms[i], tos[m - 1], base, max_cost)
            == Some(row.1) {
            assert(all[rest.len() as int] == row);
        }
    }
}

/// The rows between two groups are those of all pairs of candidates on edges, between which the way stays
/// below the limit, each with its cost.
pub proof fn lemma_rows_complete(
    g: &Net,
    froms: Seq<EdgeCand>,
    tos: Seq<EdgeCand>,
    base: spec_fn((usize, usize)) -> u32,
    max_cost: u32,
    n: int,
    row: HopRow,
)
    requires
        0 <= n <= froms.len() <= usize::MAX,
        tos.len() <= usize::MAX,
    ensures
        rows_of(g, froms, tos, base, max_cost, n).contains(row) <==> {
            let (i, j) = (row.0.0 as int, row.0.1 as int);
            &&& i < n
            &&& j < tos.len()
            &&& froms[i].edge is Some
            &&& tos[j].edge is Some
            &&& base((froms[i].edge->0, tos[j].edge->0)) < max_cost
            &&& cand_cost(g, froms[i], tos[j], base((froms[i].edge->0, tos[j].edge->0))) == Some(row.1)
            &&& row.1 < max_cost
        },
    decreases n,
{
    if n > 0 {
        lemma_rows_complete(g, froms, tos, base, max_cost, n - 1, row);
        lemma_rows_one(g, froms, tos, base, max_cost, n - 1, tos.len() as int, row);
        let a = rows_of(g, froms, tos, base, max_cost, n - 1);
        let b = rows_of_one(g, froms, tos, base, max_cost, n - 1, tos.len() as int);
        let all = a + b;
        if a.contains(row) {
            let k = choose|k: int| 0 <= k < a.len() && a[k] == row;
            assert(all[k] == row);
        }
        if b.contains(row) {
            let k = choose|k: int| 0 <= k < b.len() && b[k] == row;
            assert(all[a.len() + k] == row);
        }
        if all.contains(row) {
            let k = choose|k: int| 0 <= k < all.len() && all[k] == row;
            if k < a.len() {
                assert(a[k] == row);
            } else {
                assert(b[k - a.len()] == row);
            }
        }
    }
}

} // verus!
