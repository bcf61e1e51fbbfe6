//! What a collapsed graph still needs: costs, components, opposite edges and penalties.

use crate::collapse::{
    aligned, anchored, apply_one_way_penalty, lemma_every_edge_has_opposite, lemma_opposites_aligned,
    lemma_penalized, lemma_same_ends_wf, leads, penalized, with_opposites, work_of,
    write_other_direction_edges, Work, WorkView,
};
use crate::geometry::Point;
use crate::components::{is_number, write_components};
use crate::graph::{EdgePL, EdgeView, Graph, NodePL};
use vstd::prelude::*;

verus! {

/// Edges with their costs.
pub open spec fn costed(w: Work, costs: Seq<u32>) -> Work {
    Seq::new(
        w.len(),
        |k: int| WorkView { payload: EdgeView { cost: costs[k], ..w[k].payload }, ..w[k] },
    )
}

/// An edge, dearer if it is used against its direction.
pub open spec fn penalized_edge(e: WorkView, factor: u32, entry_cost_seconds: u32) -> WorkView {
    if e.payload.oneway == 2 {
        WorkView {
            payload: EdgeView {
                cost: penalized(e.payload.cost, factor, entry_cost_seconds),
                ..e.payload
            },
            ..e
        }
    } else {
        e
    }
}

/// The edges of a finished graph: with their costs, with opposites, and dearer if they are used against
/// their direction.
pub open spec fn finished(w: Work, costs: Seq<u32>, factor: u32, entry_cost_seconds: u32) -> Work {
    with_opposites(costed(w, costs), w.len() as int).map_values(
        |e: WorkView| penalized_edge(e, factor, entry_cost_seconds),
    )
}

pub(crate) fn set_costs(graph: &mut Graph<NodePL, EdgePL>, costs: &Vec<u32>)
    requires
        old(graph).wf(),
        costs@.len() == old(graph).edges@.len(),
    ensures
        final(graph).wf(),
        final(graph).nodes@ == old(graph).nodes@,
        final(graph).transit_lines@ == old(graph).transit_lines@,
        work_of(final(graph).edges@) == costed(work_of(old(graph).edges@), costs@),
{
    let ghost g0 = *graph;
    let mut k: usize = 0;
    while k < graph.edges.len()
        invariant
            g0 == *old(graph),
            costs@.len() == g0.edges@.len(),
            graph.nodes@ == g0.nodes@,
            graph.transit_lines@ == g0.transit_lines@,
            graph.edges@.len() == g0.edges@.len(),
            k <= graph.edges@.len(),
            forall|j: int|
                #![trigger graph.edges@[j]]
                0 <= j < graph.edges@.len() ==> {
                    let a = g0.edges@[j];
                    let b = graph.edges@[j];
                    &&& b.from == a.from
                    &&& b.to == a.to
                    &&& b.payload@ == (if j < k {
                        EdgeView { cost: costs@[j], ..a.payload@ }
                    } else {
                        a.payload@
                    })
                },
        decreases graph.edges@.len() - k,
    {
        graph.edges[k].payload.cost = costs[k];
        k = k + 1;
    }
    proof {
        lemma_same_ends_wf(g0, *graph);
        assert(work_of(graph.edges@) =~= costed(work_of(g0.edges@), costs@));
    }
}

/// Finishes a collapsed graph: numbers its components, gives its edges their costs and the opposites
/// that they lack, and makes those dearer that are used against their direction.
pub fn finish_graph(
    graph: &mut Graph<NodePL, EdgePL>,
    costs: &Vec<u32>,
    factor: u32,
    entry_cost_seconds: u32,
)
    requires
        old(graph).wf(),
        costs@.len() == old(graph).edges@.len(),
    ensures
        final(graph).wf(),
        final(graph).transit_lines@ == old(graph).transit_lines@,
        final(graph).nodes@.len() == old(graph).nodes@.len(),
        forall|v: int|
            #![trigger final(graph).nodes@[v]]
            0 <= v < old(graph).nodes@.len() ==> final(graph).nodes@[v].payload.point == old(
                graph,
            ).nodes@[v].payload.point && is_number(
                old(graph).edges@,
                v,
                final(graph).nodes@[v].payload.comp_id as int,
            ),
        work_of(final(graph).edges@) == finished(
            work_of(old(graph).edges@),
            costs@,
            factor,
            entry_cost_seconds,
        ),
{
    let ghost w0 = work_of(graph.edges@);
    write_components(graph);
    let ghost g1 = *graph;
    set_costs(graph, costs);
    assert(work_of(graph.edges@).len() == w0.len());
    assert(graph.edges@.len() == w0.len());
    write_other_direction_edges(graph);
    let ghost g3 = *graph;
    apply_one_way_penalty(graph, factor, entry_cost_seconds);
    proof {
        assert(work_of(g3.edges@) == with_opposites(costed(w0, costs@), w0.len() as int));
        assert(work_of(graph.edges@) =~= work_of(g3.edges@).map_values(
            |e: WorkView| penalized_edge(e, factor, entry_cost_seconds),
        ));
        assert forall|v: int| #![trigger graph.nodes@[v]] 0 <= v < old(graph).nodes@.len() implies graph.nodes@[v].payload.point
            == old(graph).nodes@[v].payload.point && is_number(
            old(graph).edges@,
            v,
            graph.nodes@[v].payload.comp_id as int,
        ) by {
            assert(graph.nodes@[v].payload == g3.nodes@[v].payload);
            assert(g3.nodes@[v].payload == g1.nodes@[v].payload);
        }
    }
}

/// If the courses of the edges begin where the edges begin and end where they end, then in the finished graph
/// the course of every edge, in the direction in which it is used, does so, too. Every edge leads back by
/// another.
pub proof fn lemma_finished_courses(
    w: Work,
    costs: Seq<u32>,
    factor: u32,
    entry_cost_seconds: u32,
    points: Seq<Point>,
)
    requires
        anchored(w, points),
        forall|k: int|
            #![trigger w[k]]
            0 <= k < w.len() ==> w[k].active && !w[k].payload.is_reverse,
    ensures
        aligned(finished(w, costs, factor, entry_cost_seconds), points),
        forall|k: int|
            #![trigger finished(w, costs, factor, entry_cost_seconds)[k]]
            0 <= k < finished(w, costs, factor, entry_cost_seconds).len() ==> leads(
                finished(w, costs, factor, entry_cost_seconds),
                finished(w, costs, factor, entry_cost_seconds)[k].to,
                finished(w, costs, factor, entry_cost_seconds)[k].from,
            ),
{
    let c = costed(w, costs);
    let n = w.len() as int;
    let a = with_opposites(c, n);
    let r = finished(w, costs, factor, entry_cost_seconds);
    assert(aligned(c, points)) by {
        assert forall|k: int| #![trigger c[k]] 0 <= k < c.len() implies {
            let g = c[k].payload.geometry;
            &&& c[k].from < points.len()
            &&& c[k].to < points.len()
            &&& g.len() > 0
            &&& g[0] == points[c[k].from as int]
            &&& g[g.len() - 1] == points[c[k].to as int]
            &&& !c[k].payload.is_reverse
        } by {
            assert(w[k].active);
        }
    }
    assert forall|i: int| #![trigger c[i]] 0 <= i < c.len() implies !c[i].payload.is_reverse by {
        assert(w[i].active);
    }
    lemma_opposites_aligned(c, n, points);
    lemma_every_edge_has_opposite(c, n);
    assert forall|k: int| #![trigger r[k]] 0 <= k < r.len() implies {
        let g = r[k].payload.geometry;
        &&& r[k].from < points.len()
        &&& r[k].to < points.len()
        &&& g.len() > 0
        &&& (if r[k].payload.is_reverse {
            g[g.len() - 1]
        } else {
            g[0]
        }) == points[r[k].from as int]
        &&& (if r[k].payload.is_reverse {
            g[0]
        } else {
            g[g.len() - 1]
        }) == points[r[k].to as int]
        &&& leads(r, r[k].to, r[k].from)
    } by {
        assert(r[k] == penalized_edge(a[k], factor, entry_cost_seconds));
        assert(a[k].from < points.len());
        let m = choose|m: int| 0 <= m < a.len() && (#[trigger] a[m]).from == a[k].to && a[m].to == a[k].from;
        assert(r[m] == penalized_edge(a[m], factor, entry_cost_seconds));
        assert(r[m].from == r[k].to && r[m].to == r[k].from);
    }
}

/// What the edges of a finished graph cost: the cost that was given for it, if the edge is used in its
/// direction, else that cost times the factor, and ten for every second of the entry cost, as far as can be
/// counted. An edge that has been added costs what the edge costs to which it is opposite, by the same rule.
pub proof fn lemma_finished_costs(
    w: Work,
    costs: Seq<u32>,
    factor: u32,
    entry_cost_seconds: u32,
    points: Seq<Point>,
    k: int,
) -> (j: int)
    requires
        costs.len() == w.len(),
        anchored(w, points),
        forall|k: int|
            #![trigger w[k]]
            0 <= k < w.len() ==> w[k].active && !w[k].payload.is_reverse,
        0 <= k < finished(w, costs, factor, entry_cost_seconds).len(),
    ensures
        ({
            let e = finished(w, costs, factor, entry_cost_seconds)[k];
            let whole = costs[j] * factor + 10 * entry_cost_seconds;
            &&& 0 <= j < w.len()
            &&& k < w.len() ==> j == k && e.from == w[j].from && e.to == w[j].to && e.payload.oneway
                == w[j].payload.oneway
            &&& k >= w.len() ==> e.from == w[j].to && e.to == w[j].from && (w[j].payload.oneway == 1
                ==> e.payload.oneway == 2)
            &&& e.payload.oneway != 2 ==> e.payload.cost == costs[j]
            &&& e.payload.oneway == 2 && whole <= u32::MAX ==> e.payload.cost == whole
            &&& e.payload.oneway == 2 && whole > u32::MAX ==> e.payload.cost == u32::MAX
        }),
{
    let c = costed(w, costs);
    let n = w.len() as int;
    let a = with_opposites(c, n);
    let r = finished(w, costs, factor, entry_cost_seconds);
    assert forall|i: int| #![trigger c[i]] 0 <= i < c.len() implies !c[i].payload.is_reverse
        && c[i].payload.geometry == w[i].payload.geometry by {
        assert(w[i].active);
    }
    assert(aligned(c, points)) by {
        assert forall|k: int| #![trigger c[k]] 0 <= k < c.len() implies {
            let g = c[k].payload.geometry;
            &&& c[k].from < points.len()
            &&& c[k].to < points.len()
            &&& g.len() > 0
            &&& g[0] == points[c[k].from as int]
            &&& g[g.len() - 1] == points[c[k].to as int]
            &&& !c[k].payload.is_reverse
        } by {
            assert(w[k].active);
        }
    }
    lemma_opposites_aligned(c, n, points);
    crate::collapse::lemma_with_opposites_prefix(c, n);
    assert(r[k] == penalized_edge(a[k], factor, entry_cost_seconds));
    lemma_penalized(a[k].payload.cost, factor, entry_cost_seconds);
    if k < n {
        assert(a[k] == c[k]);
        k
    } else {
        let j = choose|j: int|
            0 <= j < n && (#[trigger] c[j]).from == a[k].to && c[j].to == a[k].from
                && c[j].payload.geometry == a[k].payload.geometry && c[j].payload.cost
                == a[k].payload.cost && c[j].payload.lines == a[k].payload.lines && (
            c[j].payload.oneway == 1 ==> a[k].payload.oneway == 2) && (c[j].payload.oneway == 0
                ==> a[k].payload.oneway == 0);
        assert(c[j].from == w[j].from);
        j
    }
}

} // verus!
