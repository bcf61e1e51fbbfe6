//! The road graph of a group of tiles.

use crate::collapse::{
    collapse_edges, collapse_upto, leads, rebuilt, work_of, Work, WorkView, NODE_FLAG_RESTRICTION,
};
use crate::components::is_number;
use crate::finish::{finish_graph, finished};
use crate::geometry::Point;
use crate::graph::{
    ascending, Edge, EdgePL, EdgeView, Graph, NodePL, TransitInfo, TransitInfoId,
    TransitInfoInterner, MODE_BUS,
};
use crate::hashed::{index_get, index_of, slots_at, id_slots_get};
use crate::light_osm::{chars, LightOsmData, LightRelation};
use crate::lines::{is_line, value_or_empty, with_line, Line};
use crate::osm_builder::{
    chained, leads_once, points_of, segment, with_edge, Course, RawGraph,
};
use crate::osm_profile::{cost_at_speed, travel_cost};
use crate::osm_split::{NodeData, TileItem, WayData};
use crate::rules::{bus_speed_mps, clamped, coach_speed_mps, rail_speeds, road_speeds};
use vstd::prelude::*;
use vstd::slice::slice_to_vec;

verus! {

/// For what a road graph is built.
#[derive(Debug, Clone, Copy, PartialEq, Eq, Hash, Structural)]
pub enum RoadProfile {
    Bus,
    Coach,
}

impl RoadProfile {
    pub open spec fn level_of(self, way: WayData) -> int {
        match self {
            RoadProfile::Bus => way.bus_level as int,
            RoadProfile::Coach => way.coach_level as int,
        }
    }

    /// The level of a way.
    pub fn level(self, way: &WayData) -> (r: i32)
        ensures
            r == self.level_of(*way),
    {
        match self {
            RoadProfile::Bus => way.bus_level as i32,
            RoadProfile::Coach => way.coach_level as i32,
        }
    }

    pub open spec fn speed(self, level: int) -> u32 {
        match self {
            RoadProfile::Bus => road_speeds()[clamped(level)],
            RoadProfile::Coach => rail_speeds()[clamped(level)],
        }
    }

    /// The speed on a level, in units of a metre in 3.6 seconds.
    pub fn speed_mps(self, level: i32) -> (r: u32)
        ensures
            r == self.speed(level as int),
            r >= 5,
    {
        match self {
            RoadProfile::Bus => bus_speed_mps(level),
            RoadProfile::Coach => coach_speed_mps(level),
        }
    }
}

/// Whether turns are restricted at a node that is in the graph.
pub open spec fn turns_restricted(raw: RawGraph, id: i64) -> bool {
    index_of(raw.index).contains_key(id) && raw.flags@[index_of(raw.index)[id] as int]
        & NODE_FLAG_RESTRICTION != 0
}

/// The course of a way on a road graph.
pub open spec fn road_course(raw: RawGraph, way: WayData, profile: RoadProfile) -> Course {
    Course {
        points: points_of(raw.graph.nodes@),
        base: EdgeView {
            geometry: Seq::empty(),
            lines: Seq::empty(),
            oneway: way.oneway,
            cost: 0,
            level: profile.level_of(way) as i32,
            restriction: false,
            is_reverse: false,
            allowed_modes: MODE_BUS,
            osmid: way.id,
            preferred_direction: 0,
        },
        restricted: way.restriction,
        via: Set::new(|id: i64| turns_restricted(raw, id)),
    }
}

/// The edges once the first `k` references of a way have been joined, each with the next. Where one of
/// the two is not in the graph, there is no edge.
pub open spec fn joined_refs(
    w: Work,
    refs: Seq<i64>,
    k: int,
    index: Map<i64, usize>,
    c: Course,
) -> Work
    decreases k,
{
    if k <= 1 {
        w
    } else {
        let rest = joined_refs(w, refs, k - 1, index, c);
        let a = refs[k - 2];
        let b = refs[k - 1];
        if index.contains_key(a) && index.contains_key(b) {
            with_edge(rest, segment(c, (a, index[a]), (b, index[b])))
        } else {
            rest
        }
    }
}

impl RawGraph {
    /// Adds the node of a tile. If it is there already, from another tile, only its flags are joined.
    pub fn merge_node(&mut self, node: &NodeData)
        requires
            old(self).wf(),
        ensures
            final(self).wf(),
            final(self).graph.edges@ == old(self).graph.edges@,
            final(self).graph.transit_lines@ == old(self).graph.transit_lines@,
            ({
                let index = index_of(old(self).index);
                if index.contains_key(node.id) {
                    let i = index[node.id] as int;
                    &&& final(self).graph == old(self).graph
                    &&& final(self).index == old(self).index
                    &&& final(self).flags@ == old(self).flags@.update(
                        i,
                        old(self).flags@[i] | node.flags,
                    )
                } else {
                    &&& final(self).graph.nodes@.len() == old(self).graph.nodes@.len() + 1
                    &&& final(self).graph.nodes@.drop_last() == old(self).graph.nodes@
                    &&& final(self).graph.nodes@.last().payload == (NodePL {
                        point: node.point,
                        comp_id: 0,
                    })
                    &&& index_of(final(self).index) == index.insert(
                        node.id,
                        old(self).graph.nodes@.len() as usize,
                    )
                    &&& final(self).flags@ == old(self).flags@.push(node.flags)
                }
            }),
    {
        match index_get(&self.index, node.id) {
            Some(i) => {
                let f: u8 = self.flags[i] | node.flags;
                self.flags.set(i, f);
            },
            None => {
                self.put_node(node.id, node.point, node.flags);
            },
        }
    }

    /// Adds the edges of a way of a tile.
    pub fn merge_way(&mut self, way: &WayData, profile: RoadProfile)
        requires
            old(self).wf(),
        ensures
            final(self).wf(),
            final(self).index == old(self).index,
            final(self).flags == old(self).flags,
            final(self).graph.transit_lines@ == old(self).graph.transit_lines@,
            final(self).graph.nodes@.len() == old(self).graph.nodes@.len(),
            forall|i: int|
                #![trigger final(self).graph.nodes@[i]]
                0 <= i < old(self).graph.nodes@.len() ==> final(self).graph.nodes@[i].payload
                    == old(self).graph.nodes@[i].payload,
            work_of(final(self).graph.edges@) == joined_refs(
                work_of(old(self).graph.edges@),
                way.refs@,
                way.refs@.len() as int,
                index_of(old(self).index),
                road_course(*old(self), *way, profile),
            ),
    {
        let ghost g0 = *self;
        let ghost w0 = work_of(self.graph.edges@);
        let ghost c = road_course(*self, *way, profile);
        let ghost index = index_of(self.index);
        let level: i32 = profile.level(way);
        let mut k: usize = 1;
        while k < way.refs.len()
            invariant
                1 <= k,
                k == 1 || k <= way.refs@.len(),
                self.wf(),
                self.index == g0.index,
                self.flags == g0.flags,
                index == index_of(g0.index),
                c == road_course(g0, *way, profile),
                level == profile.level_of(*way),
                self.graph.transit_lines@ == g0.graph.transit_lines@,
                self.graph.nodes@.len() == g0.graph.nodes@.len(),
                forall|i: int|
                    #![trigger self.graph.nodes@[i]]
                    0 <= i < g0.graph.nodes@.len() ==> self.graph.nodes@[i].payload
                        == g0.graph.nodes@[i].payload,
                work_of(self.graph.edges@) == joined_refs(w0, way.refs@, k as int, index, c),
            decreases way.refs@.len() - k,
        {
            let a: i64 = way.refs[k - 1];
            let b: i64 = way.refs[k];
            if let Some(from) = index_get(&self.index, a) {
                if let Some(to) = index_get(&self.index, b) {
                    let p: Point = self.graph.nodes[from].payload.point;
                    let q: Point = self.graph.nodes[to].payload.point;
                    let mut payload = EdgePL::new();
                    payload.geometry.push(p);
                    payload.geometry.push(q);
                    payload.level = level;
                    payload.oneway = way.oneway;
                    payload.allowed_modes = MODE_BUS;
                    payload.osmid = way.id;
                    payload.restriction = way.restriction && (self.flags[from]
                        & NODE_FLAG_RESTRICTION != 0 || self.flags[to] & NODE_FLAG_RESTRICTION
                        != 0);
                    proof {
                        let s = segment(c, (a, from), (b, to));
                        assert(c.via.contains(a) == turns_restricted(g0, a));
                        assert(c.via.contains(b) == turns_restricted(g0, b));
                        assert(payload.geometry@ =~= s.payload.geometry);
                        assert(payload.lines@ =~= s.payload.lines);
                        assert(payload@ == s.payload);
                    }
                    self.put_edge(from, to, payload);
                }
            }
            k = k + 1;
        }
        proof {
            assert(joined_refs(w0, way.refs@, k as int, index, c) == joined_refs(
                w0,
                way.refs@,
                way.refs@.len() as int,
                index,
                c,
            ));
        }
    }
}

/// The line that a bus route is.
pub open spec fn light_line(r: LightRelation) -> Line {
    (
        value_or_empty(
            if r.ref_tag is Some {
                chars(r.ref_tag)
            } else {
                chars(r.name)
            },
        ),
        r.from_str@,
        r.to_str@,
    )
}

/// The bus routes at positions, as lines, each joined to those before unless it is there or is no line.
pub open spec fn joined_lines(
    lines: Seq<Line>,
    rels: Seq<LightRelation>,
    at: Seq<usize>,
    n: int,
) -> Seq<Line>
    decreases n,
{
    if n <= 0 {
        lines
    } else {
        let rest = joined_lines(lines, rels, at, n - 1);
        let i = at[n - 1] as int;
        if i < rels.len() && is_line(light_line(rels[i])) {
            with_line(rest, light_line(rels[i]))
        } else {
            rest
        }
    }
}

/// The positions of the bus routes that use a way. Edges that come from no single way have none.
pub open spec fn routes_on(light: LightOsmData, way: i64) -> Seq<usize> {
    if way != 0 && slots_at(light.way_to_relations).contains_key(way) {
        slots_at(light.way_to_relations)[way]
    } else {
        Seq::empty()
    }
}

/// The lines on the first `n` edges, each once, in the order in which they are met.
pub open spec fn lines_met(w: Work, n: int, light: LightOsmData) -> Seq<Line>
    decreases n,
{
    if n <= 0 {
        Seq::empty()
    } else {
        let at = routes_on(light, w[n - 1].payload.osmid);
        joined_lines(lines_met(w, n - 1, light), light.relations@, at, at.len() as int)
    }
}

/// Whether a line is one of those at positions.
pub open spec fn line_at(rels: Seq<LightRelation>, at: Seq<usize>, n: int, l: Line) -> bool {
    exists|j: int|
        0 <= j < n && (#[trigger] at[j]) < rels.len() && is_line(light_line(rels[at[j] as int]))
            && light_line(rels[at[j] as int]) == l
}

/// Whether an edge carries the lines that use its way: ascending, by their positions among all lines.
pub open spec fn carries_lines(e: EdgeView, all: Seq<Line>, light: LightOsmData) -> bool {
    let at = routes_on(light, e.osmid);
    &&& ascending(e.lines)
    &&& forall|x: u32| #[trigger]
        e.lines.contains(x) <==> x < all.len() && line_at(
            light.relations@,
            at,
            at.len() as int,
            all[x as int],
        )
}

fn light_info(r: &LightRelation) -> (info: TransitInfo)
    ensures
        info@ == light_line(*r),
{
    let short_name = match &r.ref_tag {
        Some(s) => s.clone(),
        None => match &r.name {
            Some(s) => s.clone(),
            None => String::new(),
        },
    };
    TransitInfo { short_name, from_str: r.from_str.clone(), to_str: r.to_str.clone() }
}

proof fn lemma_joined_prefix(lines: Seq<Line>, rels: Seq<LightRelation>, at: Seq<usize>, n: int)
    requires
        0 <= n <= at.len(),
    ensures
        lines.len() <= joined_lines(lines, rels, at, n).len(),
        joined_lines(lines, rels, at, n).take(lines.len() as int) == lines,
        lines.no_duplicates() ==> joined_lines(lines, rels, at, n).no_duplicates(),
    decreases n,
{
    if n > 0 {
        lemma_joined_prefix(lines, rels, at, n - 1);
        let rest = joined_lines(lines, rels, at, n - 1);
        let all = joined_lines(lines, rels, at, n);
        assert(all.take(lines.len() as int) =~= rest.take(lines.len() as int));
        if lines.no_duplicates() {
            assert forall|i: int, j: int| 0 <= i < all.len() && 0 <= j < all.len() && i != j implies all[i]
                != all[j] by {
                if i < rest.len() {
                    assert(rest.contains(rest[i]));
                }
                if j < rest.len() {
                    assert(rest.contains(rest[j]));
                }
            }
        }
    } else {
        assert(lines.take(lines.len() as int) =~= lines);
    }
}

proof fn lemma_met_prefix(w: Work, m: int, n: int, light: LightOsmData)
    requires
        0 <= m <= n <= w.len(),
    ensures
        lines_met(w, m, light).len() <= lines_met(w, n, light).len(),
        lines_met(w, n, light).take(lines_met(w, m, light).len() as int) == lines_met(w, m, light),
        lines_met(w, n, light).no_duplicates(),
    decreases n,
{
    if n > 0 {
        if m < n {
            lemma_met_prefix(w, m, n - 1, light);
        } else {
            lemma_met_prefix(w, n - 1, n - 1, light);
        }
        let at = routes_on(light, w[n - 1].payload.osmid);
        let rest = lines_met(w, n - 1, light);
        let all = lines_met(w, n, light);
        lemma_joined_prefix(rest, light.relations@, at, at.len() as int);
        let k = lines_met(w, m, light).len() as int;
        if m < n {
            assert(all.take(k) =~= all.take(rest.len() as int).take(k));
        } else {
            assert(all.take(k) =~= all);
        }
    } else {
        assert(lines_met(w, n, light).take(0) =~= lines_met(w, m, light));
    }
}

/// Every line at the positions stands in the list once they have been joined.
proof fn lemma_joined_has(
    lines: Seq<Line>,
    rels: Seq<LightRelation>,
    at: Seq<usize>,
    n: int,
    l: Line,
)
    requires
        0 <= n <= at.len(),
        line_at(rels, at, n, l),
    ensures
        joined_lines(lines, rels, at, n).contains(l),
    decreases n,
{
    let rest = joined_lines(lines, rels, at, n - 1);
    let all = joined_lines(lines, rels, at, n);
    let j = choose|j: int|
        0 <= j < n && (#[trigger] at[j]) < rels.len() && is_line(light_line(rels[at[j] as int]))
            && light_line(rels[at[j] as int]) == l;
    if j < n - 1 {
        assert(line_at(rels, at, n - 1, l));
        lemma_joined_has(lines, rels, at, n - 1, l);
        let k = choose|k: int| 0 <= k < rest.len() && rest[k] == l;
        assert(all[k] == l);
    } else if !rest.contains(l) {
        assert(all[rest.len() as int] == l);
    }
}

/// Gives the positions of the lines that use a way, and notes the lines that are new.
fn lines_for_way(
    interner: &mut TransitInfoInterner,
    light: &LightOsmData,
    way: i64,
) -> (r: Vec<TransitInfoId>)
    requires
        old(interner).wf(),
        old(interner)@.no_duplicates(),
        joined_lines(
            old(interner)@,
            light.relations@,
            routes_on(*light, way),
            routes_on(*light, way).len() as int,
        ).len() <= u32::MAX + 1,
    ensures
        final(interner).wf(),
        final(interner)@ == joined_lines(
            old(interner)@,
            light.relations@,
            routes_on(*light, way),
            routes_on(*light, way).len() as int,
        ),
        ascending(r@),
        forall|x: u32| #[trigger]
            r@.contains(x) <==> x < final(interner)@.len() && line_at(
                light.relations@,
                routes_on(*light, way),
                routes_on(*light, way).len() as int,
                final(interner)@[x as int],
            ),
{
    let ghost lines0 = interner@;
    let ghost rels = light.relations@;
    let ghost at = routes_on(*light, way);
    let mut holder = EdgePL::new();
    if way == 0 {
        return holder.lines;
    }
    if let Some(list) = id_slots_get(&light.way_to_relations, way) {
        let mut k: usize = 0;
        while k < list.len()
            invariant
                rels == light.relations@,
                at == list@,
                k <= list@.len(),
                interner.wf(),
                lines0.no_duplicates(),
                joined_lines(lines0, rels, at, at.len() as int).len() <= u32::MAX + 1,
                interner@ == joined_lines(lines0, rels, at, k as int),
                ascending(holder.lines@),
                forall|x: u32| #[trigger]
                    holder.lines@.contains(x) <==> x < interner@.len() && line_at(
                        rels,
                        at,
                        k as int,
                        interner@[x as int],
                    ),
            decreases list@.len() - k,
        {
            let ghost before = interner@;
            let ghost lines_before = holder.lines@;
            proof {
                lemma_joined_step(lines0, rels, at, k + 1, at.len() as int);
                lemma_joined_prefix(lines0, rels, at, k + 1);
            }
            let i: usize = list[k];
            if i < light.relations.len() {
                let info = light_info(&light.relations[i]);
                if info.short_name.as_str().unicode_len() > 0 || info.from_str.as_str().unicode_len()
                    > 0 || info.to_str.as_str().unicode_len() > 0 {
                    let ghost l = info@;
                    let id: TransitInfoId = interner.intern(info);
                    holder.add_line_id(id);
                    proof {
                        let after = interner@;
                        assert(after == joined_lines(lines0, rels, at, k + 1));
                        assert forall|x: u32| #[trigger] holder.lines@.contains(x) <==> x
                            < after.len() && line_at(rels, at, k + 1, after[x as int]) by {
                            assert(lines_before.contains(x) <==> x < before.len() && line_at(
                                rels,
                                at,
                                k as int,
                                before[x as int],
                            ));
                            if x < after.len() {
                                lemma_line_at_step(rels, at, k as int, after[x as int]);
                                if x < before.len() {
                                    assert(after[x as int] == before[x as int]);
                                } else if line_at(rels, at, k as int, after[x as int]) {
                                    lemma_joined_has(
                                        lines0,
                                        rels,
                                        at,
                                        k as int,
                                        after[x as int],
                                    );
                                }
                                if after[x as int] == l {
                                    assert(after[id as int] == l);
                                }
                            }
                        }
                    }
                } else {
                    proof {
                        lemma_line_at_same(rels, at, k as int);
                    }
                }
            } else {
                proof {
                    lemma_line_at_same(rels, at, k as int);
                }
            }
            k = k + 1;
        }
    }
    holder.lines
}

proof fn lemma_joined_step(
    lines: Seq<Line>,
    rels: Seq<LightRelation>,
    at: Seq<usize>,
    m: int,
    n: int,
)
    requires
        0 <= m <= n <= at.len(),
    ensures
        joined_lines(lines, rels, at, m).len() <= joined_lines(lines, rels, at, n).len(),
    decreases n,
{
    if m < n {
        lemma_joined_step(lines, rels, at, m, n - 1);
    }
}

proof fn lemma_line_at_step(rels: Seq<LightRelation>, at: Seq<usize>, k: int, l: Line)
    requires
        0 <= k < at.len(),
    ensures
        line_at(rels, at, k + 1, l) <==> line_at(rels, at, k, l) || (at[k] < rels.len() && is_line(
            light_line(rels[at[k] as int]),
        ) && light_line(rels[at[k] as int]) == l),
{
    if at[k] < rels.len() && is_line(light_line(rels[at[k] as int])) && light_line(
        rels[at[k] as int],
    ) == l {
        assert(at[k] < rels.len());
    }
}

proof fn lemma_line_at_same(rels: Seq<LightRelation>, at: Seq<usize>, k: int)
    requires
        0 <= k < at.len(),
        !(at[k] < rels.len() && is_line(light_line(rels[at[k] as int]))),
    ensures
        forall|l: Line| #[trigger] line_at(rels, at, k + 1, l) <==> line_at(rels, at, k, l),
{
    assert forall|l: Line| #[trigger] line_at(rels, at, k + 1, l) <==> line_at(rels, at, k, l) by {
        lemma_line_at_step(rels, at, k, l);
    }
}

/// Gives every edge of a way the lines that use the way, and the graph the lines.
pub fn attach_bus_transit_lines(graph: &mut Graph<NodePL, EdgePL>, light: &LightOsmData)
    requires
        old(graph).wf(),
        lines_met(work_of(old(graph).edges@), old(graph).edges@.len() as int, *light).len()
            <= u32::MAX + 1,
    ensures
        final(graph).wf(),
        with_lines(*old(graph), *final(graph), *light),
{
    let ghost g0 = *graph;
    let ghost w0 = work_of(graph.edges@);
    let ghost n0 = graph.edges@.len() as int;
    let mut interner = TransitInfoInterner::new();
    let mut k: usize = 0;
    while k < graph.edges.len()
        invariant
            g0.wf(),
            w0 == work_of(g0.edges@),
            n0 == g0.edges@.len(),
            lines_met(w0, n0, *light).len() <= u32::MAX + 1,
            graph.nodes == g0.nodes,
            graph.edges@.len() == n0,
            k <= n0,
            interner.wf(),
            interner@ == lines_met(w0, k as int, *light),
            forall|j: int|
                #![trigger graph.edges@[j]]
                0 <= j < n0 ==> {
                    let a = g0.edges@[j];
                    let b = graph.edges@[j];
                    &&& b.from == a.from
                    &&& b.to == a.to
                    &&& b.payload@ == (EdgeView { lines: b.payload.lines@, ..a.payload@ })
                    &&& j >= k ==> b.payload.lines@ == a.payload.lines@
                    &&& a.payload.osmid == 0 ==> b.payload.lines@ == a.payload.lines@
                    &&& j < k && a.payload.osmid != 0 ==> carries_lines(
                        b.payload@,
                        lines_met(w0, n0, *light),
                        *light,
                    )
                },
        decreases n0 - k,
    {
        let way: i64 = graph.edges[k].payload.osmid;
        proof {
            assert(w0[k as int].payload.osmid == way);
            lemma_met_prefix(w0, k as int, k as int, *light);
            lemma_met_prefix(w0, k + 1, n0, *light);
        }
        if way != 0 {
            let lines = lines_for_way(&mut interner, light, way);
            proof {
                lemma_carries(lines@, w0, k + 1, n0, *light, way);
            }
            graph.edges[k].payload.lines = lines;
        }
        k = k + 1;
    }
    graph.transit_lines = interner.into_infos();
    proof {
        crate::collapse::lemma_same_ends_wf(g0, *graph);
    }
}

/// Whether a graph has got its lines: the lines that are met on its edges, and on every edge of a way the
/// positions of those that use the way.
pub open spec fn with_lines(
    a: Graph<NodePL, EdgePL>,
    b: Graph<NodePL, EdgePL>,
    light: LightOsmData,
) -> bool {
    let all = lines_met(work_of(a.edges@), a.edges@.len() as int, light);
    &&& b.nodes == a.nodes
    &&& b.transit_lines@.map_values(|i: TransitInfo| i@) == all
    &&& b.edges@.len() == a.edges@.len()
    &&& forall|k: int|
        #![trigger b.edges@[k]]
        0 <= k < a.edges@.len() ==> {
            let x = a.edges@[k];
            let y = b.edges@[k];
            &&& y.from == x.from
            &&& y.to == x.to
            &&& y.payload@ == (EdgeView { lines: y.payload.lines@, ..x.payload@ })
            &&& if x.payload.osmid == 0 {
                y.payload.lines@ == x.payload.lines@
            } else {
                carries_lines(y.payload@, all, light)
            }
        }
}

/// The positions of lines stay what they are when more lines are met.
proof fn lemma_carries(
    lines: Seq<u32>,
    w: Work,
    m: int,
    n: int,
    light: LightOsmData,
    way: i64,
)
    requires
        1 <= m <= n <= w.len(),
        w[m - 1].payload.osmid == way,
        ascending(lines),
        forall|x: u32| #[trigger]
            lines.contains(x) <==> x < lines_met(w, m, light).len() && line_at(
                light.relations@,
                routes_on(light, way),
                routes_on(light, way).len() as int,
                lines_met(w, m, light)[x as int],
            ),
    ensures
        forall|x: u32| #[trigger]
            lines.contains(x) <==> x < lines_met(w, n, light).len() && line_at(
                light.relations@,
                routes_on(light, way),
                routes_on(light, way).len() as int,
                lines_met(w, n, light)[x as int],
            ),
{
    lemma_met_prefix(w, m, n, light);
    let a = lines_met(w, m, light);
    let b = lines_met(w, n, light);
    let at = routes_on(light, way);
    assert forall|x: u32| #[trigger] lines.contains(x) <==> x < b.len() && line_at(
        light.relations@,
        at,
        at.len() as int,
        b[x as int],
    ) by {
        if x < a.len() {
            assert(b.take(a.len() as int)[x as int] == a[x as int]);
        } else if x < b.len() && line_at(light.relations@, at, at.len() as int, b[x as int]) {
            lemma_joined_has(
                lines_met(w, m - 1, light),
                light.relations@,
                at,
                at.len() as int,
                b[x as int],
            );
            let k = choose|k: int| 0 <= k < a.len() && a[k] == b[x as int];
            assert(b.take(a.len() as int)[k] == a[k]);
            assert(b[k] == b[x as int]);
        }
    }
}

/// Adds the nodes among the items of tiles, then the edges of the ways among them.
pub fn merge_items(items: &Vec<TileItem>, profile: RoadProfile) -> (raw: RawGraph)
    ensures
        raw.wf(),
        exists|nodes: RawGraph| #[trigger]
            nodes_merged(nodes, items@) && ways_merged(nodes, raw, items@, profile),
        forall|k: int|
            #![trigger raw.graph.edges@[k]]
            0 <= k < raw.graph.edges@.len() ==> raw.graph.edges@[k].payload.lines@
                == Seq::<u32>::empty(),
{
    let mut raw = RawGraph::new();
    let mut i: usize = 0;
    assert(items@.take(0) =~= Seq::<TileItem>::empty());
    while i < items.len()
        invariant
            i <= items@.len(),
            raw.wf(),
            raw.graph.edges@.len() == 0,
            nodes_merged(raw, items@.take(i as int)),
        decreases items@.len() - i,
    {
        let ghost before = raw;
        assert(items@.take(i + 1).drop_last() =~= items@.take(i as int));
        match &items[i] {
            TileItem::Node(node) => {
                raw.merge_node(node);
                proof {
                    lemma_merged_node(before, raw, items@.take(i as int), *node);
                    assert(items@.take(i + 1) =~= items@.take(i as int).push(
                        TileItem::Node(*node),
                    ));
                }
            },
            _ => {},
        }
        i = i + 1;
    }
    assert(items@.take(i as int) =~= items@);
    let ghost nodes = raw;
    let mut j: usize = 0;
    assert(work_of(raw.graph.edges@) =~= Seq::<WorkView>::empty());
    while j < items.len()
        invariant
            j <= items@.len(),
            raw.wf(),
            nodes.wf(),
            raw.index == nodes.index,
            raw.flags == nodes.flags,
            raw.graph.nodes@.len() == nodes.graph.nodes@.len(),
            forall|i: int|
                #![trigger raw.graph.nodes@[i]]
                0 <= i < nodes.graph.nodes@.len() ==> raw.graph.nodes@[i].payload
                    == nodes.graph.nodes@[i].payload,
            work_of(raw.graph.edges@) == merged_edges(nodes, items@, j as int, profile),
        decreases items@.len() - j,
    {
        let ghost before = raw;
        match &items[j] {
            TileItem::Way(way) => {
                raw.merge_way(way, profile);
                proof {
                    assert(points_of(before.graph.nodes@) =~= points_of(nodes.graph.nodes@));
                    assert(Set::new(|id: i64| turns_restricted(before, id)) =~= Set::new(
                        |id: i64| turns_restricted(nodes, id),
                    ));
                    assert(road_course(before, *way, profile) == road_course(
                        nodes,
                        *way,
                        profile,
                    ));
                }
            },
            _ => {},
        }
        j = j + 1;
    }
    proof {
        assert(nodes_merged(nodes, items@) && ways_merged(nodes, raw, items@, profile));
        lemma_no_lines(nodes, items@, items@.len() as int, profile);
        assert forall|k: int|
            #![trigger raw.graph.edges@[k]]
            0 <= k < raw.graph.edges@.len() implies raw.graph.edges@[k].payload.lines@
            == Seq::<u32>::empty() by {
            assert(work_of(raw.graph.edges@)[k].payload.lines == raw.graph.edges@[k].payload.lines@);
        }
    }
    raw
}

/// The positions of nodes by their identifiers: in the order in which they are first met.
pub open spec fn met_index(items: Seq<TileItem>) -> Map<i64, usize>
    decreases items.len(),
{
    if items.len() == 0 {
        Map::empty()
    } else {
        let rest = met_index(items.drop_last());
        match items.last() {
            TileItem::Node(n) => if rest.contains_key(n.id) {
                rest
            } else {
                rest.insert(n.id, met_nodes(items.drop_last()).len() as usize)
            },
            _ => rest,
        }
    }
}

/// The nodes among items, each as it is first met.
pub open spec fn met_nodes(items: Seq<TileItem>) -> Seq<Point>
    decreases items.len(),
{
    if items.len() == 0 {
        Seq::empty()
    } else {
        let rest = met_nodes(items.drop_last());
        match items.last() {
            TileItem::Node(n) => if met_index(items.drop_last()).contains_key(n.id) {
                rest
            } else {
                rest.push(n.point)
            },
            _ => rest,
        }
    }
}

/// The flags of the nodes among items: those of all copies of a node, joined.
pub open spec fn met_flags(items: Seq<TileItem>) -> Seq<u8>
    decreases items.len(),
{
    if items.len() == 0 {
        Seq::empty()
    } else {
        let rest = met_flags(items.drop_last());
        let index = met_index(items.drop_last());
        match items.last() {
            TileItem::Node(n) => if index.contains_key(n.id) {
                rest.update(index[n.id] as int, rest[index[n.id] as int] | n.flags)
            } else {
                rest.push(n.flags)
            },
            _ => rest,
        }
    }
}

/// Whether a graph holds the nodes among items, without edges.
pub open spec fn nodes_merged(raw: RawGraph, items: Seq<TileItem>) -> bool {
    &&& raw.graph.nodes@.len() == met_nodes(items).len()
    &&& index_of(raw.index) == met_index(items)
    &&& raw.flags@ == met_flags(items)
    &&& forall|i: int|
        #![trigger raw.graph.nodes@[i]]
        0 <= i < raw.graph.nodes@.len() ==> raw.graph.nodes@[i].payload == (NodePL {
            point: met_nodes(items)[i],
            comp_id: 0,
        })
}

/// The edges of the ways among the first `n` items.
pub open spec fn merged_edges(
    nodes: RawGraph,
    items: Seq<TileItem>,
    n: int,
    profile: RoadProfile,
) -> Work
    decreases n,
{
    if n <= 0 {
        Seq::empty()
    } else {
        let rest = merged_edges(nodes, items, n - 1, profile);
        match items[n - 1] {
            TileItem::Way(way) => joined_refs(
                rest,
                way.refs@,
                way.refs@.len() as int,
                index_of(nodes.index),
                road_course(nodes, way, profile),
            ),
            _ => rest,
        }
    }
}

/// Whether a graph has got the edges of the ways among items.
pub open spec fn ways_merged(
    nodes: RawGraph,
    raw: RawGraph,
    items: Seq<TileItem>,
    profile: RoadProfile,
) -> bool {
    &&& raw.index == nodes.index
    &&& raw.flags == nodes.flags
    &&& raw.graph.nodes@.len() == nodes.graph.nodes@.len()
    &&& forall|i: int|
        #![trigger raw.graph.nodes@[i]]
        0 <= i < nodes.graph.nodes@.len() ==> raw.graph.nodes@[i].payload
            == nodes.graph.nodes@[i].payload
    &&& work_of(raw.graph.edges@) == merged_edges(nodes, items, items.len() as int, profile)
}

proof fn lemma_merged_node(a: RawGraph, b: RawGraph, items: Seq<TileItem>, node: NodeData)
    requires
        nodes_merged(a, items),
        a.wf(),
        index_of(a.index).contains_key(node.id) ==> b.graph == a.graph && b.index == a.index
            && b.flags@ == a.flags@.update(
            index_of(a.index)[node.id] as int,
            a.flags@[index_of(a.index)[node.id] as int] | node.flags,
        ),
        !index_of(a.index).contains_key(node.id) ==> {
            &&& b.graph.nodes@.len() == a.graph.nodes@.len() + 1
            &&& b.graph.nodes@.drop_last() == a.graph.nodes@
            &&& b.graph.nodes@.last().payload == (NodePL { point: node.point, comp_id: 0 })
            &&& index_of(b.index) == index_of(a.index).insert(
                node.id,
                a.graph.nodes@.len() as usize,
            )
            &&& b.flags@ == a.flags@.push(node.flags)
        },
    ensures
        nodes_merged(b, items.push(TileItem::Node(node))),
{
    let all = items.push(TileItem::Node(node));
    assert(all.drop_last() =~= items);
    assert forall|i: int| #![trigger b.graph.nodes@[i]] 0 <= i < b.graph.nodes@.len() implies b.graph.nodes@[i].payload
        == (NodePL { point: met_nodes(all)[i], comp_id: 0 }) by {
        if !index_of(a.index).contains_key(node.id) && i < a.graph.nodes@.len() {
            assert(b.graph.nodes@.drop_last()[i] == a.graph.nodes@[i]);
        }
    }
}

proof fn lemma_no_lines(nodes: RawGraph, items: Seq<TileItem>, n: int, profile: RoadProfile)
    requires
        0 <= n <= items.len(),
    ensures
        forall|k: int|
            #![trigger merged_edges(nodes, items, n, profile)[k]]
            0 <= k < merged_edges(nodes, items, n, profile).len() ==> merged_edges(
                nodes,
                items,
                n,
                profile,
            )[k].payload.lines == Seq::<u32>::empty(),
    decreases n,
{
    if n > 0 {
        lemma_no_lines(nodes, items, n - 1, profile);
        match items[n - 1] {
            TileItem::Way(way) => {
                lemma_no_lines_way(
                    merged_edges(nodes, items, n - 1, profile),
                    way.refs@,
                    way.refs@.len() as int,
                    index_of(nodes.index),
                    road_course(nodes, way, profile),
                );
            },
            _ => {},
        }
    }
}

proof fn lemma_no_lines_way(w: Work, refs: Seq<i64>, k: int, index: Map<i64, usize>, c: Course)
    requires
        c.base.lines == Seq::<u32>::empty(),
        forall|i: int|
            #![trigger w[i]]
            0 <= i < w.len() ==> w[i].payload.lines == Seq::<u32>::empty(),
    ensures
        forall|i: int|
            #![trigger joined_refs(w, refs, k, index, c)[i]]
            0 <= i < joined_refs(w, refs, k, index, c).len() ==> joined_refs(
                w,
                refs,
                k,
                index,
                c,
            )[i].payload.lines == Seq::<u32>::empty(),
    decreases k,
{
    if k > 1 {
        lemma_no_lines_way(w, refs, k - 1, index, c);
        let rest = joined_refs(w, refs, k - 1, index, c);
        let all = joined_refs(w, refs, k, index, c);
        assert forall|i: int| #![trigger all[i]] 0 <= i < all.len() implies all[i].payload.lines
            == Seq::<u32>::empty() by {
            if i < rest.len() {
                assert(all[i] == rest[i]);
            }
        }
    }
}

/// Every line that is met is that of a bus route.
proof fn lemma_met_are_routes(w: Work, n: int, light: LightOsmData, x: int)
    requires
        0 <= n <= w.len(),
        0 <= x < lines_met(w, n, light).len(),
    ensures
        light.relations@.map_values(|r: LightRelation| light_line(r)).contains(
            lines_met(w, n, light)[x],
        ),
    decreases n,
{
    if n > 0 {
        let at = routes_on(light, w[n - 1].payload.osmid);
        let rest = lines_met(w, n - 1, light);
        lemma_joined_prefix(rest, light.relations@, at, at.len() as int);
        if x < rest.len() {
            lemma_met_are_routes(w, n - 1, light, x);
            assert(lines_met(w, n, light).take(rest.len() as int)[x] == rest[x]);
        } else {
            lemma_joined_are_routes(rest, light.relations@, at, at.len() as int, x);
        }
    }
}

proof fn lemma_joined_are_routes(
    lines: Seq<Line>,
    rels: Seq<LightRelation>,
    at: Seq<usize>,
    n: int,
    x: int,
)
    requires
        0 <= n <= at.len(),
        lines.len() <= x < joined_lines(lines, rels, at, n).len(),
    ensures
        rels.map_values(|r: LightRelation| light_line(r)).contains(
            joined_lines(lines, rels, at, n)[x],
        ),
    decreases n,
{
    if n > 0 {
        let rest = joined_lines(lines, rels, at, n - 1);
        if x < rest.len() {
            lemma_joined_are_routes(lines, rels, at, n - 1, x);
        } else {
            let i = at[n - 1] as int;
            let all = rels.map_values(|r: LightRelation| light_line(r));
            assert(all[i] == light_line(rels[i]));
        }
    }
}

/// No more lines are met than there are bus routes.
pub proof fn lemma_met_bound(w: Work, light: LightOsmData)
    ensures
        lines_met(w, w.len() as int, light).len() <= light.relations@.len(),
{
    let met = lines_met(w, w.len() as int, light);
    let all = light.relations@.map_values(|r: LightRelation| light_line(r));
    lemma_met_prefix(w, 0, w.len() as int, light);
    met.unique_seq_to_set();
    all.lemma_cardinality_of_set();
    assert forall|l: Line| met.to_set().contains(l) implies all.to_set().contains(l) by {
        let x = choose|x: int| 0 <= x < met.len() && met[x] == l;
        lemma_met_are_routes(w, w.len() as int, light, x);
    }
    vstd::set_lib::lemma_len_subset(met.to_set(), all.to_set());
}

/// The road graph of tiles before its edges have costs: nodes and edges from the items, lines attached,
/// collapsed.
pub fn merge_tiles(items: &Vec<TileItem>, light: &LightOsmData, profile: RoadProfile) -> (graph: Graph<
    NodePL,
    EdgePL,
>)
    requires
        light.relations@.len() <= u32::MAX + 1,
    ensures
        graph.wf(),
        exists|nodes: RawGraph, raw: RawGraph, lined: RawGraph, flags: Seq<u8>| #[trigger]
            tiles_merged(nodes, raw, lined, graph, flags, items@, *light, profile),
{
    let raw = merge_items(items, profile);
    let ghost raw0 = raw;
    let ghost nodes = choose|nodes: RawGraph| #[trigger]
        nodes_merged(nodes, items@) && ways_merged(nodes, raw, items@, profile);
    let mut graph = raw.graph;
    let mut flags = raw.flags;
    proof {
        lemma_met_bound(work_of(graph.edges@), *light);
    }
    attach_bus_transit_lines(&mut graph, light);
    let ghost lined = RawGraph { graph, index: raw0.index, flags: raw0.flags };
    collapse_edges(&mut graph, &mut flags);
    assert(tiles_merged(nodes, raw0, lined, graph, flags@, items@, *light, profile));
    graph
}

/// Whether a graph is that of the items of tiles: their nodes and edges, with lines, collapsed.
pub open spec fn tiles_merged(
    nodes: RawGraph,
    raw: RawGraph,
    lined: RawGraph,
    graph: Graph<NodePL, EdgePL>,
    flags: Seq<u8>,
    items: Seq<TileItem>,
    light: LightOsmData,
    profile: RoadProfile,
) -> bool {
    &&& nodes_merged(nodes, items)
    &&& ways_merged(nodes, raw, items, profile)
    &&& with_lines(raw.graph, lined.graph, light)
    &&& lined.flags == raw.flags
    &&& rebuilt(
        lined.graph,
        collapse_upto(work_of(lined.graph.edges@), lined.flags@, lined.graph.nodes@.len() as int),
        lined.flags@,
        graph,
        flags,
    )
}

/// The costs of edges by their lengths in millimetres and the speeds of their levels.
pub open spec fn road_costs(w: Work, lengths_mm: Seq<u64>, profile: RoadProfile) -> Seq<u32> {
    Seq::new(
        w.len(),
        |k: int|
            travel_cost(
                lengths_mm[k] as nat,
                (1000 * profile.speed(w[k].payload.level as int)) as nat,
            ),
    )
}

/// Finishes the road graph of tiles, given the lengths of its edges in millimetres.
pub fn finish_tiles(
    graph: &mut Graph<NodePL, EdgePL>,
    lengths_mm: &Vec<u64>,
    profile: RoadProfile,
)
    requires
        old(graph).wf(),
        lengths_mm@.len() == old(graph).edges@.len(),
    ensures
        final(graph).wf(),
        final(graph).transit_lines@ == old(graph).transit_lines@,
        final(graph).nodes@.len() == old(graph).nodes@.len(),
        forall|v: int|
            #![trigger final(graph).nodes@[v]]
            0 <= v < old(graph).nodes@.len() ==> final(graph).nodes@[v].payload.point == old(
                graph,
            ).nodes@[v].payload.point && is_number(
                old(graph).edges@,
                v,
                final(graph).nodes@[v].payload.comp_id as int,
            ),
        work_of(final(graph).edges@) == finished(
            work_of(old(graph).edges@),
            road_costs(work_of(old(graph).edges@), lengths_mm@, profile),
            5,
            300,
        ),
{
    let mut costs: Vec<u32> = Vec::new();
    let mut k: usize = 0;
    while k < graph.edges.len()
        invariant
            *graph == *old(graph),
            lengths_mm@.len() == graph.edges@.len(),
            k <= graph.edges@.len(),
            costs@.len() == k,
            forall|j: int|
                #![trigger costs@[j]]
                0 <= j < k ==> costs@[j] == travel_cost(
                    lengths_mm@[j] as nat,
                    (1000 * profile.speed(graph.edges@[j].payload.level as int)) as nat,
                ),
        decreases graph.edges@.len() - k,
    {
        let speed: u32 = profile.speed_mps(graph.edges[k].payload.level);
        costs.push(cost_at_speed(lengths_mm[k], 1000 * (speed as u64)));
        k = k + 1;
    }
    assert(costs@ =~= road_costs(work_of(graph.edges@), lengths_mm@, profile));
    finish_graph(graph, &costs, 5, 300);
}

// What the items of tiles become.

/// Whether an item is a node with an identifier.
pub open spec fn is_node(items: Seq<TileItem>, i: int, id: i64) -> bool {
    0 <= i < items.len() && (items[i] matches TileItem::Node(n) && n.id == id)
}

/// A node is in the graph if and only if it is among the items. It lies where it is first met, and has every
/// flag that one of its copies has, and no other. Different nodes have different positions.
pub proof fn lemma_nodes_met(items: Seq<TileItem>, id: i64)
    requires
        items.len() <= usize::MAX,
    ensures
        ({
            let index = met_index(items);
            let points = met_nodes(items);
            let flags = met_flags(items);
            &&& index.contains_key(id) <==> exists|i: int| #[trigger] is_node(items, i, id)
            &&& points.len() == flags.len()
            &&& points.len() <= items.len()
            &&& index.contains_key(id) ==> {
                &&& index[id] < points.len()
                &&& exists|i: int| #[trigger]
                    is_node(items, i, id) && items[i]->Node_0.point == points[index[id] as int]
                        && forall|j: int| 0 <= j < i ==> !#[trigger] is_node(items, j, id)
                &&& forall|bit: u8|
                    #![trigger flags[index[id] as int] & bit]
                    flags[index[id] as int] & bit != 0 <==> has_flag(items, id, bit)
            }
            &&& forall|other: i64| #[trigger]
                index.contains_key(other) ==> index[other] < points.len() && (other != id
                    && index.contains_key(id) ==> index[other] != index[id])
        }),
    decreases items.len(),
{
    if items.len() > 0 {
        let rest = items.drop_last();
        lemma_nodes_met(rest, id);
        let index = met_index(rest);
        let points = met_nodes(rest);
        let flags = met_flags(rest);
        let n = items.len() - 1;
        assert forall|i: int, x: i64| #[trigger] is_node(items, i, x) && i < n implies is_node(
            rest,
            i,
            x,
        ) by {
            assert(items[i] == rest[i]);
        }
        assert forall|i: int, x: i64| #[trigger] is_node(rest, i, x) implies is_node(items, i, x) by {
            assert(items[i] == rest[i]);
        }
        assert forall|bit: u8| #[trigger] has_flag(items, id, bit) <==> has_flag(rest, id, bit) || (
        is_node(items, n, id) && items[n]->Node_0.flags & bit != 0) by {
            if has_flag(items, id, bit) {
                let i = choose|i: int| #[trigger]
                    is_node(items, i, id) && items[i]->Node_0.flags & bit != 0;
                if i < n {
                    assert(is_node(rest, i, id));
                    assert(rest[i] == items[i]);
                }
            }
            if has_flag(rest, id, bit) {
                let i = choose|i: int| #[trigger]
                    is_node(rest, i, id) && rest[i]->Node_0.flags & bit != 0;
                assert(is_node(items, i, id));
                assert(rest[i] == items[i]);
            }
        }
        if index.contains_key(id) {
            let i = choose|i: int| #[trigger]
                is_node(rest, i, id) && rest[i]->Node_0.point == points[index[id] as int]
                    && forall|j: int| 0 <= j < i ==> !#[trigger] is_node(rest, j, id);
            assert(is_node(items, i, id));
            assert(items[i] == rest[i]);
            assert forall|j: int| 0 <= j < i implies !#[trigger] is_node(items, j, id) by {
                if is_node(items, j, id) {
                    assert(is_node(rest, j, id));
                }
            }
        }
        match items.last() {
            TileItem::Node(node) => {
                lemma_nodes_met(rest, node.id);
                assert(is_node(items, n, node.id));
                if node.id == id && !index.contains_key(id) {
                    assert forall|j: int| 0 <= j < n implies !#[trigger] is_node(items, j, id) by {
                        if is_node(items, j, id) {
                            assert(is_node(rest, j, id));
                        }
                    }
                    assert forall|bit: u8| !#[trigger] has_flag(rest, id, bit) by {
                        if has_flag(rest, id, bit) {
                            let i = choose|i: int| #[trigger]
                                is_node(rest, i, id) && rest[i]->Node_0.flags & bit != 0;
                            assert(is_node(rest, i, id));
                        }
                    }
                }
                let after = met_flags(items);
                let at = met_index(items);
                if at.contains_key(id) {
                    assert forall|bit: u8|
                        #![trigger after[at[id] as int] & bit]
                        after[at[id] as int] & bit != 0 <==> has_flag(items, id, bit) by {
                        assert(has_flag(items, id, bit) <==> has_flag(rest, id, bit) || (is_node(
                            items,
                            n,
                            id,
                        ) && node.flags & bit != 0));
                        if node.id == id {
                            if index.contains_key(id) {
                                let x = flags[index[id] as int];
                                let y = node.flags;
                                assert((x | y) & bit != 0 <==> x & bit != 0 || y & bit != 0)
                                    by (bit_vector);
                            } else {
                                assert(after[at[id] as int] == node.flags);
                            }
                        } else {
                            assert(after[at[id] as int] == flags[index[id] as int]);
                            assert(flags[index[id] as int] & bit != 0 <==> has_flag(
                                rest,
                                id,
                                bit,
                            ));
                        }
                    }
                }
                assert forall|other: i64| #[trigger] at.contains_key(other) implies at[other]
                    < met_nodes(items).len() && (other != id && at.contains_key(id) ==> at[other]
                    != at[id]) by {
                    if other != node.id {
                        assert(index.contains_key(other));
                    }
                }
            },
            _ => {},
        }
    }
}

/// Whether a copy of a node has a flag.
pub open spec fn has_flag(items: Seq<TileItem>, id: i64, bit: u8) -> bool {
    exists|i: int| #[trigger] is_node(items, i, id) && items[i]->Node_0.flags & bit != 0
}

/// Whether an edge joins two nodes that follow one another on a way, straight from the one to the other.
pub open spec fn joins_refs(
    refs: Seq<i64>,
    index: Map<i64, usize>,
    points: Seq<Point>,
    e: WorkView,
    j: int,
) -> bool {
    &&& 0 < j < refs.len()
    &&& index.contains_key(refs[j - 1])
    &&& index.contains_key(refs[j])
    &&& e.from == index[refs[j - 1]]
    &&& e.to == index[refs[j]]
    &&& e.payload.geometry == seq![points[e.from as int], points[e.to as int]]
}

/// Whether two references that follow one another are nodes of the graph, and not the same.
pub open spec fn is_hop(refs: Seq<i64>, index: Map<i64, usize>, j: int) -> bool {
    &&& 0 < j < refs.len()
    &&& index.contains_key(refs[j - 1])
    &&& index.contains_key(refs[j])
    &&& index[refs[j - 1]] != index[refs[j]]
}

/// Whether an edge joins two different nodes that follow one another on a way.
pub open spec fn is_hop_of(
    refs: Seq<i64>,
    index: Map<i64, usize>,
    points: Seq<Point>,
    e: WorkView,
) -> bool {
    exists|j: int| is_hop(refs, index, j) && #[trigger] joins_refs(refs, index, points, e, j)
}

proof fn lemma_joined_refs(w: Work, refs: Seq<i64>, k: int, index: Map<i64, usize>, c: Course)
    requires
        k <= refs.len(),
        leads_once(w),
    ensures
        ({
            let r = joined_refs(w, refs, k, index, c);
            &&& r.len() >= w.len()
            &&& forall|i: int| 0 <= i < w.len() ==> #[trigger] r[i] == w[i]
            &&& forall|i: int|
                #![trigger r[i]]
                w.len() <= i < r.len() ==> r[i].payload.osmid == c.base.osmid && is_hop_of(
                    refs,
                    index,
                    c.points,
                    r[i],
                )
            &&& forall|j: int| #[trigger]
                is_hop(refs, index, j) && j < k ==> leads(r, index[refs[j - 1]], index[refs[j]])
            &&& leads_once(r)
        }),
    decreases k,
{
    if k > 1 {
        lemma_joined_refs(w, refs, k - 1, index, c);
        let before = joined_refs(w, refs, k - 1, index, c);
        let r = joined_refs(w, refs, k, index, c);
        assert forall|i: int| #![trigger r[i]] w.len() <= i < r.len() implies r[i].payload.osmid
            == c.base.osmid && is_hop_of(refs, index, c.points, r[i]) by {
            if i < before.len() {
                assert(r[i] == before[i]);
            } else {
                assert(is_hop(refs, index, k - 1));
                assert(joins_refs(refs, index, c.points, r[i], k - 1));
            }
        }
        assert forall|j: int| #[trigger] is_hop(refs, index, j) && j < k implies leads(
            r,
            index[refs[j - 1]],
            index[refs[j]],
        ) by {
            let a = index[refs[j - 1]];
            let b = index[refs[j]];
            if j < k - 1 || r.len() == before.len() {
                assert(leads(before, a, b));
                let i = choose|i: int|
                    0 <= i < before.len() && (#[trigger] before[i]).from == a && before[i].to == b;
                assert(r[i] == before[i]);
            } else {
                assert(r[before.len() as int].from == a && r[before.len() as int].to == b);
            }
        }
        assert forall|i: int, j: int|
            #![trigger r[i], r[j]]
            0 <= i < j < r.len() implies r[i].from != r[j].from || r[i].to != r[j].to by {
            assert(r[i] == before[i]);
            if j < before.len() {
                assert(r[j] == before[j]);
            }
        }
    } else {
        assert forall|j: int| #[trigger] is_hop(refs, index, j) && j < k implies leads(
            w,
            index[refs[j - 1]],
            index[refs[j]],
        ) by {}
    }
}

/// Whether an edge belongs to a way among the items: it joins two nodes that follow one another on it.
pub open spec fn is_edge_of_item(nodes: RawGraph, item: TileItem, e: WorkView) -> bool {
    item matches TileItem::Way(way) && e.payload.osmid == way.id && is_hop_of(
        way.refs@,
        index_of(nodes.index),
        points_of(nodes.graph.nodes@),
        e,
    )
}

/// Whether an edge belongs to a way among the first `n` items.
pub open spec fn is_edge_of_items(nodes: RawGraph, items: Seq<TileItem>, n: int, e: WorkView) -> bool {
    exists|k: int| 0 <= k < n && #[trigger] is_edge_of_item(nodes, items[k], e)
}

/// Whether two nodes that follow one another on a way are joined, if the item is a way and they are not the same.
pub open spec fn hop_is_joined(item: TileItem, index: Map<i64, usize>, j: int, w: Work) -> bool {
    item matches TileItem::Way(way) ==> (is_hop(way.refs@, index, j) ==> leads(
        w,
        index[way.refs@[j - 1]],
        index[way.refs@[j]],
    ))
}

/// Each edge belongs to a way among the items and joins two nodes of the graph that follow one another on it.
/// Each two such nodes are joined, unless they are the same, and no two edges lead from the same node to the same
/// node.
pub proof fn lemma_edges_of_items(
    nodes: RawGraph,
    items: Seq<TileItem>,
    n: int,
    profile: RoadProfile,
)
    requires
        0 <= n <= items.len(),
    ensures
        ({
            let r = merged_edges(nodes, items, n, profile);
            &&& leads_once(r)
            &&& forall|i: int|
                0 <= i < r.len() ==> is_edge_of_items(nodes, items, n, #[trigger] r[i])
            &&& forall|k: int, j: int|
                0 <= k < n ==> #[trigger] hop_is_joined(items[k], index_of(nodes.index), j, r)
        }),
    decreases n,
{
    if n > 0 {
        lemma_edges_of_items(nodes, items, n - 1, profile);
        let before = merged_edges(nodes, items, n - 1, profile);
        let r = merged_edges(nodes, items, n, profile);
        let index = index_of(nodes.index);
        if let TileItem::Way(way) = items[n - 1] {
            lemma_joined_refs(
                before,
                way.refs@,
                way.refs@.len() as int,
                index,
                road_course(nodes, way, profile),
            );
        }
        assert forall|i: int| 0 <= i < r.len() implies is_edge_of_items(
            nodes,
            items,
            n,
            #[trigger] r[i],
        ) by {
            if i < before.len() {
                assert(r[i] == before[i]);
                let k = choose|k: int|
                    0 <= k < n - 1 && #[trigger] is_edge_of_item(nodes, items[k], before[i]);
                assert(is_edge_of_item(nodes, items[k], r[i]));
            } else {
                assert(is_edge_of_item(nodes, items[n - 1], r[i]));
            }
        }
        assert forall|k: int, j: int| 0 <= k < n implies #[trigger] hop_is_joined(
            items[k],
            index,
            j,
            r,
        ) by {
            let a = index[items[k]->Way_0.refs@[j - 1]];
            let b = index[items[k]->Way_0.refs@[j]];
            if k < n - 1 && items[k] is Way && is_hop(items[k]->Way_0.refs@, index, j) {
                assert(hop_is_joined(items[k], index, j, before));
                assert(leads(before, a, b));
                let i = choose|i: int|
                    0 <= i < before.len() && (#[trigger] before[i]).from == a && before[i].to == b;
                assert(r[i] == before[i]);
            }
        }
    }
}

/// The lines of a graph are those of the bus routes that use the ways of its edges, each once.
pub proof fn lemma_lines_met(w: Work, n: int, light: LightOsmData, l: Line)
    requires
        0 <= n <= w.len(),
    ensures
        lines_met(w, n, light).no_duplicates(),
        lines_met(w, n, light).contains(l) <==> exists|k: int|
            0 <= k < n && is_line_of(light, (#[trigger] w[k]).payload.osmid, l),
    decreases n,
{
    lemma_met_prefix(w, n, n, light);
    if n > 0 {
        lemma_lines_met(w, n - 1, light, l);
        let at = routes_on(light, w[n - 1].payload.osmid);
        lemma_joined_lines(lines_met(w, n - 1, light), light.relations@, at, at.len() as int, l);
        assert(is_line_of(light, w[n - 1].payload.osmid, l) == line_at(
            light.relations@,
            at,
            at.len() as int,
            l,
        )) by {
            lemma_is_line_of(light, w[n - 1].payload.osmid, l);
        }
    }
}

/// Whether a line, which has a name or a start, is that of a bus route that uses a way.
pub open spec fn is_line_of(light: LightOsmData, way: i64, l: Line) -> bool {
    &&& way != 0
    &&& slots_at(light.way_to_relations).contains_key(way)
    &&& exists|r: usize| #[trigger]
        slots_at(light.way_to_relations)[way].contains(r) && r < light.relations@.len() && is_line(
            light_line(light.relations@[r as int]),
        ) && light_line(light.relations@[r as int]) == l
}

proof fn lemma_is_line_of(light: LightOsmData, way: i64, l: Line)
    ensures
        is_line_of(light, way, l) == line_at(
            light.relations@,
            routes_on(light, way),
            routes_on(light, way).len() as int,
            l,
        ),
{
    let at = routes_on(light, way);
    let rels = light.relations@;
    if is_line_of(light, way, l) {
        let r = choose|r: usize| #[trigger]
            slots_at(light.way_to_relations)[way].contains(r) && r < light.relations@.len()
                && is_line(light_line(light.relations@[r as int])) && light_line(
                light.relations@[r as int],
            ) == l;
        let j = choose|j: int| 0 <= j < at.len() && at[j] == r;
        assert(at[j] < rels.len());
    }
    if line_at(rels, at, at.len() as int, l) {
        let j = choose|j: int|
            0 <= j < at.len() && (#[trigger] at[j]) < rels.len() && is_line(
                light_line(rels[at[j] as int]),
            ) && light_line(rels[at[j] as int]) == l;
        assert(at.contains(at[j]));
    }
}

proof fn lemma_joined_lines(
    lines: Seq<Line>,
    rels: Seq<LightRelation>,
    at: Seq<usize>,
    n: int,
    l: Line,
)
    requires
        0 <= n <= at.len(),
    ensures
        joined_lines(lines, rels, at, n).contains(l) <==> lines.contains(l) || line_at(
            rels,
            at,
            n,
            l,
        ),
    decreases n,
{
    if n > 0 {
        lemma_joined_lines(lines, rels, at, n - 1, l);
        lemma_line_at_step(rels, at, n - 1, l);
        let rest = joined_lines(lines, rels, at, n - 1);
        let all = joined_lines(lines, rels, at, n);
        if rest.contains(l) {
            let i = choose|i: int| 0 <= i < rest.len() && rest[i] == l;
            assert(all[i] == l);
        }
        if all.contains(l) && !rest.contains(l) {
            let i = choose|i: int| 0 <= i < all.len() && all[i] == l;
            assert(i == rest.len());
        }
        if all.len() > rest.len() {
            assert(all[rest.len() as int] == all.last());
        }
    }
}

} // verus!
