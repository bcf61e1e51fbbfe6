//! A network for all modes at once: which ways belong to it, what they cost, and what directions are
//! added.

use crate::collapse::{
    apply_one_way_penalty, directed_edge_exists, leads, opposite, same_but_edges, work_of, Work,
    WorkView,
};
use crate::components::{is_number, write_components};
use crate::finish::{costed, penalized_edge, set_costs};
use crate::graph::{
    EdgePL, EdgeView, Graph, NodePL, MODE_BUS, MODE_FERRY, MODE_GONDOLA, MODE_RAIL, MODE_SUBWAY,
    MODE_TRAM,
};
use crate::hashed::{ids_contains, ids_of, IdSet};
use crate::osm::Way;
use crate::router::weights::capped;
use crate::tags::Tags;
use crate::text::{integer_of, parse_i32};
use vstd::prelude::*;

verus! {

/// Builds networks for all modes at once.
pub struct OsmBuilder;

/// Whether tags are those of a platform or a station.
pub open spec fn is_platform_tagged(t: Tags) -> bool {
    ||| t.has3("railway"@, "platform"@, "stop"@, "platform_edge"@)
    ||| t.has3("public_transport"@, "platform"@, "stop_position"@, "station"@)
}

/// Whether tags are those of a track, a road, a ferry or an aerialway. Industrial tracks do not count.
pub open spec fn is_infrastructure_tagged(t: Tags) -> bool {
    &&& !is_platform_tagged(t)
    &&& !t.has("usage"@, "industrial"@)
    &&& {
        ||| t.has("route"@, "ferry"@)
        ||| t.val("aerialway"@) is Some
        ||| t.val("railway"@) is Some
        ||| t.val("highway"@) is Some
    }
}

/// Whether a way is used by ferries.
pub open spec fn is_ferry(w: Way, ferry_ways: Set<i64>) -> bool {
    w.tags.has("route"@, "ferry"@) || ferry_ways.contains(w.id)
}

/// Whether a way can be used by buses: a road that is not kept for those who walk, ride or farm.
pub open spec fn is_road(w: Way, ferry_ways: Set<i64>) -> bool {
    &&& !is_ferry(w, ferry_ways)
    &&& w.tags.val("aerialway"@) is None
    &&& w.tags.val("highway"@) is Some
    &&& !w.tags.has4("highway"@, "pedestrian"@, "footway"@, "steps"@, "corridor"@)
    &&& !w.tags.has3("highway"@, "cycleway"@, "path"@, "track"@)
}

/// The speed on a way, in thousandths of km/h, unless a limit is posted.
pub open spec fn usual_speed(t: Tags) -> int {
    if t.val("highway"@) is Some {
        if t.has("highway"@, "motorway"@) {
            100_000
        } else if t.has("highway"@, "trunk"@) {
            80_000
        } else if t.has("highway"@, "primary"@) {
            70_000
        } else if t.has("highway"@, "secondary"@) {
            60_000
        } else if t.has("highway"@, "residential"@) {
            30_000
        } else if t.has("highway"@, "living_street"@) {
            10_000
        } else if t.has2("highway"@, "footway"@, "pedestrian"@) {
            4_000
        } else {
            50_000
        }
    } else if t.val("railway"@) is Some {
        if t.has("railway"@, "rail"@) {
            100_000
        } else if t.has("railway"@, "tram"@) {
            40_000
        } else if t.has("railway"@, "subway"@) {
            80_000
        } else {
            50_000
        }
    } else if t.val("route"@) is Some {
        if t.has("route"@, "ferry"@) {
            15_000
        } else {
            36_000
        }
    } else if t.val("aerialway"@) is Some {
        15_000
    } else {
        36_000
    }
}

/// The speed on a way, in thousandths of km/h.
pub open spec fn speed_on(t: Tags, maxspeed: Option<i64>) -> int {
    match maxspeed {
        Some(v) => v as int,
        None => usual_speed(t),
    }
}

/// By how much a way is dearer than its length says: yards and tracks that no passenger sees are avoided.
pub open spec fn avoidance(t: Tags) -> int {
    (if t.has("railway"@, "rail"@) && t.has("usage"@, "industrial"@) {
        1_000_000int
    } else {
        1
    }) * (if t.has3("service"@, "yard"@, "siding"@, "spur"@) || t.has2(
        "usage"@,
        "industrial"@,
        "military"@,
    ) {
        100_000int
    } else {
        1
    })
}

/// What a length in millimetres costs on a way: the time in tenths of seconds, rounded up, times the
/// avoidance. Nothing gets along at no speed, and backwards it costs nothing.
pub open spec fn cost_on(t: Tags, maxspeed: Option<i64>, length_mm: nat) -> u32 {
    let v = speed_on(t, maxspeed);
    if v == 0 {
        u32::MAX
    } else if v < 0 {
        0
    } else {
        capped(((length_mm * 36 * avoidance(t) + (v - 1)) / v) as nat)
    }
}

/// The direction in which a way is preferably used: 1 along it, 2 against it, 0 either way.
pub open spec fn preferred_direction(t: Tags) -> u8 {
    if t.has("railway:preferred_direction"@, "forward"@) {
        1
    } else if t.has("railway:preferred_direction"@, "backward"@) {
        2
    } else {
        0
    }
}

/// The directions in which a way may be used: 1 only along it, 2 only against it, 0 both.
pub open spec fn oneway_of(t: Tags) -> u8 {
    if t.has2("oneway"@, "yes"@, "true"@) {
        1
    } else if t.has("oneway"@, "-1"@) {
        2
    } else {
        0
    }
}

/// The layer of a way, 0 if none is given.
pub open spec fn layer_of(t: Tags) -> int {
    match t.val("layer"@) {
        Some(v) => match integer_of(v) {
            Some(n) => n,
            None => 0,
        },
        None => 0,
    }
}

/// A mode, or none.
pub open spec fn mode_if(used: bool, mode: u8) -> u8 {
    if used {
        mode
    } else {
        0
    }
}

/// The modes that may use a way.
pub open spec fn modes_on(w: Way, ferry_ways: Set<i64>) -> u8 {
    mode_if(w.tags.has3("railway"@, "rail"@, "light_rail"@, "narrow_gauge"@), MODE_RAIL) | mode_if(
        w.tags.has("railway"@, "tram"@),
        MODE_TRAM,
    ) | mode_if(w.tags.has("railway"@, "subway"@), MODE_SUBWAY) | mode_if(
        is_road(w, ferry_ways),
        MODE_BUS,
    ) | mode_if(is_ferry(w, ferry_ways), MODE_FERRY) | mode_if(
        w.tags.val("aerialway"@) is Some,
        MODE_GONDOLA,
    )
}

fn mode_or_none(used: bool, mode: u8) -> (r: u8)
    ensures
        r == mode_if(used, mode),
{
    if used {
        mode
    } else {
        0
    }
}

impl OsmBuilder {
    /// The modes that may use a way.
    pub fn way_modes(w: &Way, ferry_ways: &IdSet) -> (r: u8)
        ensures
            r == modes_on(*w, ids_of(*ferry_ways)),
    {
        let (rail, tram, metro, bus, ferry, gondola) = OsmBuilder::classify_way(w, ferry_ways);
        mode_or_none(rail, MODE_RAIL) | mode_or_none(tram, MODE_TRAM) | mode_or_none(
            metro,
            MODE_SUBWAY,
        ) | mode_or_none(bus, MODE_BUS) | mode_or_none(ferry, MODE_FERRY) | mode_or_none(
            gondola,
            MODE_GONDOLA,
        )
    }

    /// Whether a way has a course at all.
    pub fn is_valid_way(w: &Way) -> (r: bool)
        ensures
            r == (w.nodes@.len() > 1),
    {
        w.nodes.len() > 1
    }

    /// Whether a way is a platform or a station.
    pub fn is_platform(w: &Way) -> (r: bool)
        ensures
            r == is_platform_tagged(w.tags),
    {
        w.tags.is3("railway", "platform", "stop", "platform_edge") || w.tags.is3(
            "public_transport",
            "platform",
            "stop_position",
            "station",
        )
    }

    /// Whether a way is a track, a road, a ferry or an aerialway.
    pub fn is_infrastructure(w: &Way) -> (r: bool)
        ensures
            r == is_infrastructure_tagged(w.tags),
    {
        if OsmBuilder::is_platform(w) || w.tags.is("usage", "industrial") {
            return false;
        }
        w.tags.is("route", "ferry") || w.tags.contains_key("aerialway") || w.tags.contains_key(
            "railway",
        ) || w.tags.contains_key("highway")
    }

    /// Which modes may use a way: rail, tram, subway, bus, ferry and gondola.
    pub fn classify_way(w: &Way, ferry_ways: &IdSet) -> (r: (bool, bool, bool, bool, bool, bool))
        ensures
            r.0 == w.tags.has3("railway"@, "rail"@, "light_rail"@, "narrow_gauge"@),
            r.1 == w.tags.has("railway"@, "tram"@),
            r.2 == w.tags.has("railway"@, "subway"@),
            r.3 == is_road(*w, ids_of(*ferry_ways)),
            r.4 == is_ferry(*w, ids_of(*ferry_ways)),
            r.5 == (w.tags.val("aerialway"@) is Some),
    {
        let is_rail = w.tags.is3("railway", "rail", "light_rail", "narrow_gauge");
        let is_tram = w.tags.is("railway", "tram");
        let is_metro = w.tags.is("railway", "subway");
        let is_ferry = w.tags.is("route", "ferry") || ids_contains(ferry_ways, w.id);
        let is_gondola = w.tags.contains_key("aerialway");
        let is_bus = if is_ferry || is_gondola || !w.tags.contains_key("highway") {
            false
        } else {
            !(w.tags.is4("highway", "pedestrian", "footway", "steps", "corridor") || w.tags.is3(
                "highway",
                "cycleway",
                "path",
                "track",
            ))
        };
        (is_rail, is_tram, is_metro, is_bus, is_ferry, is_gondola)
    }

    /// The layer of a way, 0 if none is given.
    pub fn parse_level(tags: &Tags) -> (r: i32)
        ensures
            r == layer_of(*tags),
    {
        match tags.get("layer") {
            Some(v) => match parse_i32(v.as_str()) {
                Some(n) => n,
                None => 0,
            },
            None => 0,
        }
    }

    /// The directions in which a way may be used.
    pub fn parse_oneway(tags: &Tags) -> (r: u8)
        ensures
            r == oneway_of(*tags),
    {
        if tags.is2("oneway", "yes", "true") {
            1
        } else if tags.is("oneway", "-1") {
            2
        } else {
            0
        }
    }

    /// The direction in which a way is preferably used.
    pub fn parse_preferred_direction(tags: &Tags) -> (r: u8)
        ensures
            r == preferred_direction(*tags),
    {
        if tags.is("railway:preferred_direction", "forward") {
            1
        } else if tags.is("railway:preferred_direction", "backward") {
            2
        } else {
            0
        }
    }

    /// The speed on a way, in thousandths of km/h: the posted limit, if there is one.
    pub fn get_speed(tags: &Tags, maxspeed: Option<i64>) -> (r: i64)
        ensures
            r == speed_on(*tags, maxspeed),
    {
        if let Some(v) = maxspeed {
            return v;
        }
        if tags.contains_key("highway") {
            if tags.is("highway", "motorway") {
                100_000
            } else if tags.is("highway", "trunk") {
                80_000
            } else if tags.is("highway", "primary") {
                70_000
            } else if tags.is("highway", "secondary") {
                60_000
            } else if tags.is("highway", "residential") {
                30_000
            } else if tags.is("highway", "living_street") {
                10_000
            } else if tags.is2("highway", "footway", "pedestrian") {
                4_000
            } else {
                50_000
            }
        } else if tags.contains_key("railway") {
            if tags.is("railway", "rail") {
                100_000
            } else if tags.is("railway", "tram") {
                40_000
            } else if tags.is("railway", "subway") {
                80_000
            } else {
                50_000
            }
        } else if tags.contains_key("route") {
            if tags.is("route", "ferry") {
                15_000
            } else {
                36_000
            }
        } else if tags.contains_key("aerialway") {
            15_000
        } else {
            36_000
        }
    }

    /// What a length in millimetres costs on a way.
    pub fn calculate_cost(tags: &Tags, maxspeed: Option<i64>, length_mm: u64) -> (r: u32)
        ensures
            r == cost_on(*tags, maxspeed, length_mm as nat),
    {
        let speed: i64 = OsmBuilder::get_speed(tags, maxspeed);
        let mut factor: u64 = 1;
        if tags.is("railway", "rail") && tags.is("usage", "industrial") {
            factor = 1_000_000;
        }
        if tags.is3("service", "yard", "siding", "spur") || tags.is2(
            "usage",
            "industrial",
            "military",
        ) {
            factor = factor * 100_000;
        }
        if speed == 0 {
            return u32::MAX;
        }
        if speed < 0 {
            return 0;
        }
        assert(factor == avoidance(*tags));
        assert(0 <= length_mm * 36 * factor <= 0xffff_ffff_ffff_ffff * 3_600_000_000_000)
            by (nonlinear_arith)
            requires
                0 <= length_mm <= 0xffff_ffff_ffff_ffff,
                0 <= factor <= 100_000_000_000,
        ;
        let a: u128 = (length_mm as u128) * 36 * (factor as u128);
        let q: u128 = (a + (speed as u128 - 1)) / (speed as u128);
        if q >= u32::MAX as u128 {
            u32::MAX
        } else {
            q as u32
        }
    }
}

/// A number of tenths of a cost, rounded to the nearest.
pub open spec fn tenths(cost: u32, n: int) -> u32 {
    capped(((cost * n + 5) / 10) as nat)
}

/// What an edge costs along its geometry: less where that direction is preferred, more where the other
/// one is.
pub open spec fn forward_cost(cost: u32, preferred: u8) -> u32 {
    if preferred == 1 {
        tenths(cost, 9)
    } else if preferred == 2 {
        tenths(cost, 12)
    } else {
        cost
    }
}

/// What the opposite of an edge costs: what the edge would cost without a preference, and then more or
/// less. Without a preference it is a tenth more.
pub open spec fn backward_cost(forward: u32, preferred: u8) -> u32 {
    if preferred == 1 {
        capped(((8 * forward + 3) / 6) as nat)
    } else if preferred == 2 {
        capped(((3 * forward + 2) / 4) as nat)
    } else {
        tenths(forward, 11)
    }
}

/// The costs of edges along their geometry.
pub open spec fn forward_costs(w: Work) -> Seq<u32> {
    Seq::new(
        w.len(),
        |k: int| forward_cost(w[k].payload.cost, w[k].payload.preferred_direction),
    )
}

/// The opposite of an edge, with its own cost.
pub open spec fn costed_opposite(e: WorkView) -> WorkView {
    let o = opposite(e);
    WorkView {
        payload: EdgeView {
            cost: backward_cost(e.payload.cost, e.payload.preferred_direction),
            ..o.payload
        },
        ..o
    }
}

/// Edges with opposites of the first `k` behind them, for each that no edge leads back from its end.
pub open spec fn with_costed_opposites(w: Work, k: int) -> Work
    decreases k,
{
    if k <= 0 {
        w
    } else if leads(w, w[k - 1].to, w[k - 1].from) {
        with_costed_opposites(w, k - 1)
    } else {
        with_costed_opposites(w, k - 1).push(costed_opposite(w[k - 1]))
    }
}

/// The edges of a network once directions and one-way streets have been dealt with.
pub open spec fn post_processed(w: Work) -> Work {
    with_costed_opposites(costed(w, forward_costs(w)), w.len() as int).map_values(
        |e: WorkView| penalized_edge(e, 100, 0),
    )
}

fn tenths_of(cost: u32, n: u32) -> (r: u32)
    requires
        n <= 12,
    ensures
        r == tenths(cost, n as int),
{
    assert(0 <= cost * n <= 0xffff_ffff * 12) by (nonlinear_arith)
        requires
            0 <= cost <= 0xffff_ffff,
            0 <= n <= 12,
    ;
    let q: u64 = ((cost as u64) * (n as u64) + 5) / 10;
    if q >= u32::MAX as u64 {
        u32::MAX
    } else {
        q as u32
    }
}

fn backward_cost_of(forward: u32, preferred: u8) -> (r: u32)
    ensures
        r == backward_cost(forward, preferred),
{
    let q: u64 = if preferred == 1 {
        (8 * (forward as u64) + 3) / 6
    } else if preferred == 2 {
        (3 * (forward as u64) + 2) / 4
    } else {
        tenths_of(forward, 11) as u64
    };
    if q >= u32::MAX as u64 {
        u32::MAX
    } else {
        q as u32
    }
}

proof fn lemma_prefix_stays(w: Work, k: int)
    requires
        0 <= k <= w.len(),
    ensures
        with_costed_opposites(w, k).len() >= w.len(),
        forall|i: int| 0 <= i < w.len() ==> #[trigger] with_costed_opposites(w, k)[i] == w[i],
    decreases k,
{
    if k > 0 {
        lemma_prefix_stays(w, k - 1);
    }
}

impl OsmBuilder {
    /// Gives the edges their costs by direction, adds the opposites that they lack, makes those dearer
    /// that may not be used, and numbers the components.
    pub fn post_process(graph: &mut Graph<NodePL, EdgePL>)
        requires
            old(graph).wf(),
        ensures
            final(graph).wf(),
            final(graph).transit_lines@ == old(graph).transit_lines@,
            final(graph).nodes@.len() == old(graph).nodes@.len(),
            forall|v: int|
                #![trigger final(graph).nodes@[v]]
                0 <= v < old(graph).nodes@.len() ==> final(graph).nodes@[v].payload.point == old(
                    graph,
                ).nodes@[v].payload.point && is_number(
                    final(graph).edges@,
                    v,
                    final(graph).nodes@[v].payload.comp_id as int,
                ),
            work_of(final(graph).edges@) == post_processed(work_of(old(graph).edges@)),
    {
        let count: usize = graph.edges.len();
        let ghost w0 = work_of(graph.edges@);
        let mut costs: Vec<u32> = Vec::new();
        let mut lacks: Vec<bool> = Vec::new();
        let mut k: usize = 0;
        while k < count
            invariant
                graph.wf(),
                *graph == *old(graph),
                w0 == work_of(graph.edges@),
                count == graph.edges@.len(),
                k <= count,
                costs@.len() == k,
                lacks@.len() == k,
                forall|j: int| #![trigger costs@[j]] 0 <= j < k ==> costs@[j] == forward_costs(w0)[j],
                forall|j: int|
                    #![trigger lacks@[j]]
                    0 <= j < k ==> lacks@[j] == !leads(w0, w0[j].to, w0[j].from),
            decreases count - k,
        {
            let edge = &graph.edges[k];
            assert(graph.edges@[k as int].to < graph.nodes@.len());
            let cost: u32 = edge.payload.cost;
            let preferred: u8 = edge.payload.preferred_direction;
            costs.push(
                if preferred == 1 {
                    tenths_of(cost, 9)
                } else if preferred == 2 {
                    tenths_of(cost, 12)
                } else {
                    cost
                },
            );
            lacks.push(!directed_edge_exists(graph, edge.to, edge.from));
            k = k + 1;
        }
        assert(costs@ =~= forward_costs(w0));
        set_costs(graph, &costs);
        let ghost w1 = costed(w0, costs@);
        let ghost g1 = *graph;
        proof {
            assert forall|a: usize, b: usize| leads(w0, a, b) == leads(w1, a, b) by {
                if leads(w0, a, b) {
                    let i = choose|i: int| 0 <= i < w0.len() && (#[trigger] w0[i]).from == a && w0[i].to == b;
                    assert(w1[i].from == a && w1[i].to == b);
                }
                if leads(w1, a, b) {
                    let i = choose|i: int| 0 <= i < w1.len() && (#[trigger] w1[i]).from == a && w1[i].to == b;
                    assert(w0[i].from == a && w0[i].to == b);
                }
            }
            assert(work_of(graph.edges@).len() == w0.len());
        }
        k = 0;
        while k < count
            invariant
                graph.wf(),
                w1 == costed(w0, costs@),
                w1.len() == count,
                lacks@.len() == count,
                graph.edges@.len() >= count,
                k <= count,
                same_but_edges(g1, *graph),
                forall|j: int|
                    #![trigger lacks@[j]]
                    0 <= j < count ==> lacks@[j] == !leads(w0, w0[j].to, w0[j].from),
                forall|a: usize, b: usize| leads(w0, a, b) == leads(w1, a, b),
                work_of(graph.edges@) == with_costed_opposites(w1, k as int),
            decreases count - k,
        {
            proof {
                lemma_prefix_stays(w1, k as int);
                assert(work_of(graph.edges@)[k as int] == w1[k as int]);
            }
            if lacks[k] {
                let from: usize = graph.edges[k].from;
                let to: usize = graph.edges[k].to;
                assert(graph.edges@[k as int].from < graph.nodes@.len());
                let mut payload = graph.edges[k].payload.rev_copy();
                payload.cost = backward_cost_of(
                    graph.edges[k].payload.cost,
                    graph.edges[k].payload.preferred_direction,
                );
                let ghost before = *graph;
                graph.add_edge(to, from, payload);
                assert(work_of(graph.edges@) =~= work_of(before.edges@).push(
                    costed_opposite(w1[k as int]),
                ));
            }
            k = k + 1;
        }
        let ghost g2 = *graph;
        apply_one_way_penalty(graph, 100, 0);
        assert(work_of(graph.edges@) =~= work_of(g2.edges@).map_values(
            |e: WorkView| penalized_edge(e, 100, 0),
        ));
        let ghost g3 = *graph;
        write_components(graph);
        proof {
            assert forall|v: int|
                #![trigger graph.nodes@[v]]
                0 <= v < old(graph).nodes@.len() implies graph.nodes@[v].payload.point == old(
                graph,
            ).nodes@[v].payload.point by {
                assert(graph.nodes@[v].payload.point == g3.nodes@[v].payload.point);
                assert(g2.nodes@[v].payload == g1.nodes@[v].payload);
            }
        }
    }
}

/// Against the preferred direction an edge costs at least as much as along it, and without a preference the
/// opposite of an edge is never cheaper than the edge.
pub proof fn lemma_preference_pays(cost: u32)
    ensures
        forward_cost(cost, 1) <= backward_cost(forward_cost(cost, 1), 1),
        backward_cost(forward_cost(cost, 2), 2) <= forward_cost(cost, 2),
        forward_cost(cost, 0) <= backward_cost(forward_cost(cost, 0), 0),
{
}

/// In the end every edge has one that leads back.
pub proof fn lemma_every_edge_can_be_turned(w: Work, i: int)
    requires
        0 <= i < w.len(),
    ensures
        leads(with_costed_opposites(w, w.len() as int), w[i].to, w[i].from),
{
    let all = with_costed_opposites(w, w.len() as int);
    lemma_prefix_stays(w, w.len() as int);
    if leads(w, w[i].to, w[i].from) {
        let k = choose|k: int|
            0 <= k < w.len() && (#[trigger] w[k]).from == w[i].to && w[k].to == w[i].from;
        assert(all[k] == w[k]);
    } else {
        let k = lemma_opposite_added(w, w.len() as int, i);
        assert(all[k].from == w[i].to && all[k].to == w[i].from);
    }
}

proof fn lemma_opposite_added(w: Work, n: int, i: int) -> (k: int)
    requires
        0 <= i < n <= w.len(),
        !leads(w, w[i].to, w[i].from),
    ensures
        0 <= k < with_costed_opposites(w, n).len(),
        with_costed_opposites(w, n)[k] == costed_opposite(w[i]),
    decreases n,
{
    if i == n - 1 {
        with_costed_opposites(w, n - 1).len() as int
    } else {
        lemma_opposite_added(w, n - 1, i)
    }
}

// What a network costs to use, and who may.

/// The cost of a length is the time that it takes at the speed on the way, in tenths of seconds and rounded up,
/// times how much the way is avoided, as far as costs reach: a way of a kilometre takes a hundred and twenty
/// seconds at thirty kilometres an hour.
pub proof fn lemma_cost_on(t: Tags, maxspeed: Option<i64>, length_mm: nat)
    ensures
        speed_on(t, maxspeed) == 0 ==> cost_on(t, maxspeed, length_mm) == u32::MAX,
        speed_on(t, maxspeed) > 0 && cost_on(t, maxspeed, length_mm) < u32::MAX ==> {
            let v = speed_on(t, maxspeed);
            let c = cost_on(t, maxspeed, length_mm);
            (c - 1) * v < length_mm * 36 * avoidance(t) <= c * v
        },
        speed_on(t, maxspeed) > 0 && cost_on(t, maxspeed, length_mm) == u32::MAX ==> length_mm * 36
            * avoidance(t) > (u32::MAX - 1) * speed_on(t, maxspeed),
{
    let v = speed_on(t, maxspeed);
    let a = avoidance(t);
    assert(a >= 1) by {
        assert(1_000_000int * 100_000 == 100_000_000_000);
    }
    let x = length_mm * 36 * a;
    if v > 0 {
        assert(x >= 0) by (nonlinear_arith)
            requires
                x == length_mm * 36 * a,
                a >= 1,
        ;
        let q = (x + (v - 1)) / v;
        assert(q >= 0 && (q - 1) * v < x <= q * v) by (nonlinear_arith)
            requires
                v > 0,
                x >= 0,
                q == (x + (v - 1)) / v,
        ;
        if q >= u32::MAX {
            assert((u32::MAX - 1) * v < x) by (nonlinear_arith)
                requires
                    q >= u32::MAX,
                    (q - 1) * v < x,
                    v > 0,
            ;
        }
    }
}

/// Along a preferred direction an edge costs nine tenths, against it twelve tenths of what it would cost
/// without a preference, each rounded to the nearest; its opposite costs the other of the two. Where no direction
/// is preferred, the opposite costs eleven tenths.
pub proof fn lemma_directed_costs(cost: u32)
    requires
        cost <= 1_000_000_000,
    ensures
        -5 <= 10 * forward_cost(cost, 1) - 9 * cost <= 5,
        -5 <= 10 * forward_cost(cost, 2) - 12 * cost <= 5,
        forward_cost(cost, 0) == cost,
        -3 <= 3 * backward_cost(cost, 1) - 4 * cost <= 3,
        -2 <= 4 * backward_cost(cost, 2) - 3 * cost <= 2,
        -5 <= 10 * backward_cost(cost, 0) - 11 * cost <= 5,
{
}

/// Trains use tracks, trams and undergrounds those of their own, buses roads, ferries what is marked as such,
/// gondolas aerialways: a mode may use a way if and only if the way is of its kind.
pub proof fn lemma_modes_on(w: Way, ferry_ways: Set<i64>)
    ensures
        ({
            let m = modes_on(w, ferry_ways);
            let rail = w.tags.val("railway"@);
            &&& m & MODE_RAIL != 0 <==> rail == Some("rail"@) || rail == Some("light_rail"@) || rail
                == Some("narrow_gauge"@)
            &&& m & MODE_TRAM != 0 <==> rail == Some("tram"@)
            &&& m & MODE_SUBWAY != 0 <==> rail == Some("subway"@)
            &&& m & MODE_FERRY != 0 <==> w.tags.val("route"@) == Some("ferry"@) || ferry_ways.contains(
                w.id,
            )
            &&& m & MODE_GONDOLA != 0 <==> w.tags.val("aerialway"@) is Some
            &&& m & MODE_BUS != 0 ==> w.tags.val("highway"@) is Some && m & MODE_FERRY == 0 && m
                & MODE_GONDOLA == 0
            &&& m & MODE_BUS != 0 <==> is_road(w, ferry_ways)
        }),
{
    let a = mode_if(w.tags.has3("railway"@, "rail"@, "light_rail"@, "narrow_gauge"@), MODE_RAIL);
    let b = mode_if(w.tags.has("railway"@, "tram"@), MODE_TRAM);
    let c = mode_if(w.tags.has("railway"@, "subway"@), MODE_SUBWAY);
    let d = mode_if(is_road(w, ferry_ways), MODE_BUS);
    let e = mode_if(is_ferry(w, ferry_ways), MODE_FERRY);
    let f = mode_if(w.tags.val("aerialway"@) is Some, MODE_GONDOLA);
    lemma_modes_apart(a, b, c, d, e, f);
}

pub(crate) proof fn lemma_modes_apart(a: u8, b: u8, c: u8, d: u8, e: u8, f: u8)
    requires
        a == 0 || a == MODE_RAIL,
        b == 0 || b == MODE_TRAM,
        c == 0 || c == MODE_SUBWAY,
        d == 0 || d == MODE_BUS,
        e == 0 || e == MODE_FERRY,
        f == 0 || f == MODE_GONDOLA,
    ensures
        (a | b | c | d | e | f) & MODE_RAIL != 0 <==> a != 0,
        (a | b | c | d | e | f) & MODE_TRAM != 0 <==> b != 0,
        (a | b | c | d | e | f) & MODE_SUBWAY != 0 <==> c != 0,
        (a | b | c | d | e | f) & MODE_BUS != 0 <==> d != 0,
        (a | b | c | d | e | f) & MODE_FERRY != 0 <==> e != 0,
        (a | b | c | d | e | f) & MODE_GONDOLA != 0 <==> f != 0,
{
    assert(((a | b | c | d | e | f) & MODE_RAIL != 0 <==> a != 0) && ((a | b | c | d | e | f)
        & MODE_TRAM != 0 <==> b != 0) && ((a | b | c | d | e | f) & MODE_SUBWAY != 0 <==> c != 0)
        && ((a | b | c | d | e | f) & MODE_BUS != 0 <==> d != 0) && ((a | b | c | d | e | f)
        & MODE_FERRY != 0 <==> e != 0) && ((a | b | c | d | e | f) & MODE_GONDOLA != 0 <==> f != 0))
        by (bit_vector)
        requires
            a == 0 || a == MODE_RAIL,
            b == 0 || b == MODE_TRAM,
            c == 0 || c == MODE_SUBWAY,
            d == 0 || d == MODE_BUS,
            e == 0 || e == MODE_FERRY,
            f == 0 || f == MODE_GONDOLA,
    ;
}

} // verus!
