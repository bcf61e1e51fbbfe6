//! Matching the trips of one stop pattern to the network.

use crate::geometry::Point;
use crate::graph::{
    EdgePL, Graph, NodePL, MODE_BUS, MODE_FERRY, MODE_GONDOLA, MODE_RAIL, MODE_SUBWAY, MODE_TRAM,
};
use crate::hashed::{
    groups_get, groups_in, groups_insert, groups_new, routes_in, routes_next, trips_keys,
    GroupMap,
};
use crate::mots::RouteType;
use crate::router::dag::times_ok;
use crate::router::hop_cache::{HopCache, Known};
use crate::router::hops::cands_ok;
use crate::router::router_impl::{
    all_routed, group_at, plan_ok, task_ok, RoutePlan, RouterImpl, Task,
};
use crate::router::trip_trie::{is_tree, TripTrie, TripTrieNd};
use crate::router::types::{EdgeCand, EdgeCandGroup, EdgeHop, EdgeListHops, WHOLE_EDGE};
use crate::router::weights::{ExpoTransWeight, RoutingOpts};
use crate::snapping::ProjectedEdgeCandidate;
use crate::text::{chars_of, is_space, is_whitespace};
use vstd::prelude::*;

verus! {

/// What matching a pattern gives.
#[derive(Debug, Clone)]
pub struct ShapeResult {
    pub shape_id: String,
    pub empty_geometry: bool,
    pub matched_route_color: Option<String>,
}

/// The result for a pattern of which these points were drawn.
pub fn shape_result(shape_id: String, points: &Vec<Point>) -> (r: ShapeResult)
    ensures
        r.shape_id == shape_id,
        r.empty_geometry == (points@.len() == 0),
        r.matched_route_color is None,
{
    ShapeResult { shape_id, empty_geometry: points.len() == 0, matched_route_color: None }
}

/// The modes on whose edges trips of a type run.
pub open spec fn modes_of(route_type: Option<RouteType>) -> u8 {
    match route_type {
        Some(RouteType::Tramway) => MODE_TRAM,
        Some(RouteType::Subway) => MODE_SUBWAY,
        Some(RouteType::Rail) => MODE_RAIL,
        Some(RouteType::Ferry) => MODE_FERRY,
        Some(RouteType::Gondola) => MODE_GONDOLA,
        Some(RouteType::Funicular) => MODE_GONDOLA,
        Some(RouteType::CableCar) => MODE_GONDOLA,
        _ => MODE_BUS,
    }
}

/// The modes on whose edges trips of a type run.
pub fn allowed_modes_for(route_type: Option<RouteType>) -> (r: u8)
    ensures
        r == modes_of(route_type),
{
    match route_type {
        Some(RouteType::Tramway) => MODE_TRAM,
        Some(RouteType::Subway) => MODE_SUBWAY,
        Some(RouteType::Rail) => MODE_RAIL,
        Some(RouteType::Ferry) => MODE_FERRY,
        Some(RouteType::Gondola) => MODE_GONDOLA,
        Some(RouteType::Funicular) => MODE_GONDOLA,
        Some(RouteType::CableCar) => MODE_GONDOLA,
        _ => MODE_BUS,
    }
}

/// The modes on whose edges trips of a type run if need be.
pub open spec fn other_modes_of(route_type: Option<RouteType>) -> u8 {
    match route_type {
        Some(RouteType::Tramway) => MODE_SUBWAY | MODE_RAIL,
        Some(RouteType::Subway) => MODE_TRAM | MODE_RAIL,
        Some(RouteType::Rail) => MODE_SUBWAY | MODE_TRAM,
        _ => 0,
    }
}

/// The modes on whose edges trips of a type run if need be.
pub fn fallback_modes_for(route_type: Option<RouteType>) -> (r: u8)
    ensures
        r == other_modes_of(route_type),
{
    match route_type {
        Some(RouteType::Tramway) => MODE_SUBWAY | MODE_RAIL,
        Some(RouteType::Subway) => MODE_TRAM | MODE_RAIL,
        Some(RouteType::Rail) => MODE_SUBWAY | MODE_TRAM,
        _ => 0,
    }
}

/// How stops are moved onto the network.
#[derive(Debug, Clone, Copy, PartialEq, Eq, Structural)]
pub struct SnapRules {
    /// The modes whose edges are looked at.
    pub modes: u8,
    pub max_distance_mm: u32,
    pub max_level: i32,
    /// A penalty in units of `1e-8`.
    pub non_station_penalty: u64,
}

/// How the stops of trips of a type are moved onto the network: on railways they may lie further off, but
/// not on minor tracks.
pub fn snap_rules_for(route_type: Option<RouteType>) -> (r: SnapRules)
    ensures
        r.modes == modes_of(route_type) | other_modes_of(route_type),
        route_type == Some(RouteType::Rail) ==> r.max_distance_mm == 200_000 && r.max_level == 2
            && r.non_station_penalty == 40_000_000,
        route_type != Some(RouteType::Rail) ==> r.max_distance_mm == 50_000 && r.max_level == 7
            && r.non_station_penalty == 0,
{
    let allowed: u8 = allowed_modes_for(route_type);
    let modes: u8 = allowed | fallback_modes_for(route_type);
    if allowed == MODE_RAIL {
        SnapRules { modes, max_distance_mm: 200_000, max_level: 2, non_station_penalty: 40_000_000 }
    } else {
        SnapRules { modes, max_distance_mm: 50_000, max_level: 7, non_station_penalty: 0 }
    }
}

/// How trips of a type are routed.
pub open spec fn options_of(route_type: Option<RouteType>) -> RoutingOpts {
    RoutingOpts {
        transition_pen: 83_000,
        line_unmatched_punish_fact: 120,
        line_name_to_unmatched_punish_fact: 110,
        line_name_from_unmatched_punish_fact: 105,
        full_turn_punish_fac: if modes_of(route_type) == MODE_RAIL {
            1_800
        } else {
            0
        },
        full_turn_angle: if modes_of(route_type) == MODE_RAIL {
            10_000
        } else {
            0
        },
        turn_restr_cost: 0,
        loop_ttl: 0,
        max_group_diff_seconds: 0,
    }
}

/// How trips of a type are routed. On railways full turns are discouraged.
pub fn routing_options_for(route_type: Option<RouteType>) -> (r: RoutingOpts)
    ensures
        r == options_of(route_type),
{
    let mut r = RoutingOpts::default();
    r.transition_pen = 83_000;
    r.line_unmatched_punish_fact = 120;
    r.line_name_to_unmatched_punish_fact = 110;
    r.line_name_from_unmatched_punish_fact = 105;
    if allowed_modes_for(route_type) == MODE_RAIL {
        r.full_turn_punish_fac = 1_800;
        r.full_turn_angle = 10_000;
    }
    r
}

/// Whether a name consists of white space only.
pub open spec fn is_blank(s: Seq<char>) -> bool {
    forall|i: int| 0 <= i < s.len() ==> is_space(#[trigger] s[i])
}

fn blank(s: &str) -> (r: bool)
    ensures
        r == is_blank(s@),
{
    let chars = chars_of(s);
    let mut i: usize = 0;
    while i < chars.len()
        invariant
            chars@ == s@,
            i <= chars@.len(),
            forall|j: int| 0 <= j < i ==> is_space(#[trigger] s@[j]),
        decreases chars@.len() - i,
    {
        if !is_whitespace(chars[i]) {
            assert(!is_space(s@[i as int]));
            return false;
        }
        i = i + 1;
    }
    true
}

/// The name of a string, if there is one.
pub open spec fn text_of(s: Option<&String>) -> Option<Seq<char>> {
    match s {
        Some(t) => Some(t@),
        None => None,
    }
}

/// The name under which a line is looked for: the short name of its route, else that of a trip, else the
/// long name of the route. Short names that are blank do not count.
pub open spec fn line_name(
    short: Option<Seq<char>>,
    trip: Option<Seq<char>>,
    long: Option<Seq<char>>,
) -> Seq<char> {
    if short is Some && !is_blank(short->0) {
        short->0
    } else if trip is Some && !is_blank(trip->0) {
        trip->0
    } else if long is Some {
        long->0
    } else {
        ""@
    }
}

/// The name under which a line is looked for.
pub fn route_name(
    short_name: Option<&String>,
    trip_short_name: Option<&String>,
    long_name: Option<&String>,
) -> (r: String)
    ensures
        r@ == line_name(text_of(short_name), text_of(trip_short_name), text_of(long_name)),
{
    if let Some(s) = short_name {
        if !blank(s.as_str()) {
            return s.clone();
        }
    }
    if let Some(s) = trip_short_name {
        if !blank(s.as_str()) {
            return s.clone();
        }
    }
    match long_name {
        Some(s) => s.clone(),
        None => "".to_owned(),
    }
}

/// Whether a candidate is the stop itself.
pub open spec fn is_null(c: EdgeCand, point: Point) -> bool {
    &&& c.edge is None
    &&& c.point == Some(point)
    &&& c.pen == 0
    &&& c.time == 0
    &&& c.progr == 0
    &&& c.dep_prede@.len() == 0
}

/// Whether a candidate lies on an edge near the stop. Its penalty grows with the distance.
pub open spec fn is_snapped(c: EdgeCand, s: ProjectedEdgeCandidate, penalty: u64) -> bool {
    &&& c.edge == Some(s.edge_idx)
    &&& c.point is None
    &&& c.pen == s.distance_mm * 390 + penalty
    &&& c.time == 0
    &&& c.progr == s.progress
    &&& c.dep_prede@.len() == 0
}

/// Whether candidates are the stop itself and then the places on edges near it.
pub open spec fn is_stop_group(
    group: Seq<EdgeCand>,
    point: Point,
    snaps: Seq<ProjectedEdgeCandidate>,
    penalty: u64,
) -> bool {
    &&& group.len() == snaps.len() + 1
    &&& is_null(group[0], point)
    &&& forall|i: int|
        #![trigger group[i]]
        0 < i < group.len() ==> is_snapped(group[i], snaps[i - 1], penalty)
}

/// The candidates of a stop: the stop itself, so that a trip can be drawn where the network is missing,
/// and the places on edges near it.
pub fn stop_group(
    point: Point,
    snaps: &Vec<ProjectedEdgeCandidate>,
    non_station_penalty: u64,
) -> (r: EdgeCandGroup)
    requires
        non_station_penalty <= 0xffff_ffff,
        forall|i: int|
            0 <= i < snaps@.len() ==> (#[trigger] snaps@[i]).distance_mm <= 0xffff_ffff,
    ensures
        is_stop_group(r@, point, snaps@, non_station_penalty),
{
    let mut r: Vec<EdgeCand> = Vec::new();
    r.push(
        EdgeCand {
            edge: None,
            point: Some(point),
            pen: 0,
            time: 0,
            progr: 0,
            dep_prede: Vec::new(),
        },
    );
    let mut i: usize = 0;
    while i < snaps.len()
        invariant
            non_station_penalty <= 0xffff_ffff,
            forall|i: int|
                0 <= i < snaps@.len() ==> (#[trigger] snaps@[i]).distance_mm <= 0xffff_ffff,
            i <= snaps@.len(),
            r@.len() == i + 1,
            is_null(r@[0], point),
            forall|k: int|
                #![trigger r@[k]]
                0 < k <= i ==> is_snapped(r@[k], snaps@[k - 1], non_station_penalty),
        decreases snaps@.len() - i,
    {
        let s = snaps[i];
        assert(snaps@[i as int].distance_mm <= 0xffff_ffff);
        r.push(
            EdgeCand {
                edge: Some(s.edge_idx),
                point: None,
                pen: s.distance_mm * 390 + non_station_penalty,
                time: 0,
                progr: s.progress,
                dep_prede: Vec::new(),
            },
        );
        i = i + 1;
    }
    r
}

/// How many steps a node of a tree is below the root.
pub open spec fn depth(nds: Seq<TripTrieNd>, n: int) -> nat
    decreases n,
{
    match nds[n].parent {
        Some(p) => if p < n {
            1 + depth(nds, p as int)
        } else {
            0
        },
        None => 0,
    }
}

/// The number of the stop that a node of a tree belongs to.
pub open spec fn stop_of(nds: Seq<TripTrieNd>, n: int) -> int {
    depth(nds, n) as int / 2
}

/// The sum of the times at a node, and over how many trips it was taken.
pub open spec fn time_sum(nd: TripTrieNd) -> (int, int) {
    if nd.trips > 0 {
        (nd.acc_time as int, nd.trips as int)
    } else {
        (nd.time as int, 1)
    }
}

/// The average time at a node in nanoseconds, rounded down.
pub open spec fn average_time(nd: TripTrieNd) -> int {
    (time_sum(nd).0 * 1_000_000_000) / time_sum(nd).1
}

/// Whether the average time at a node is not after that at another.
pub open spec fn is_not_after(a: TripTrieNd, b: TripTrieNd) -> bool {
    time_sum(a).0 * time_sum(b).1 <= time_sum(b).0 * time_sum(a).1
}

/// Whether the times at a node stay within bounds.
pub open spec fn is_timed(nd: TripTrieNd) -> bool {
    &&& -(nd.trips as int) * 0x1_0000_0000 <= nd.acc_time <= (nd.trips as int) * 0x1_0000_0000
    &&& -0x1_0000_0000 <= nd.time <= 0x1_0000_0000
}

/// A sum over a number of trips, divided by that number and rounded down, and what is left of it.
fn divided(a: i128, d: u64) -> (r: (i128, u64))
    requires
        d > 0,
        -0x1_0000_0000_0000_0000_0000_0000 * 1_000_000_000 <= a
            <= 0x1_0000_0000_0000_0000_0000_0000 * 1_000_000_000,
    ensures
        r.0 == a as int / d as int,
        r.1 == a - r.0 * d,
        r.1 < d,
{
    let d: i128 = d as i128;
    let ghost x = a as int;
    let ghost y = d as int;
    let q: i128 = if a >= 0 {
        a / d
    } else {
        let b: i128 = -a;
        let z: i128 = (b + (d - 1)) / d;
        assert(x / y == -z) by (nonlinear_arith)
            requires
                y > 0,
                z == (-x + (y - 1)) / y,
        ;
        -z
    };
    assert(q == x / y);
    assert(0 <= x - (x / y) * y < y) by (nonlinear_arith)
        requires
            y > 0,
    ;
    let rest: i128 = a - q * d;
    (q, rest as u64)
}

/// The time at a node, as the sum over its trips and their number.
fn summed(nd: &TripTrieNd) -> (r: (i128, u64))
    requires
        is_timed(*nd),
    ensures
        (r.0 as int, r.1 as int) == time_sum(*nd),
        r.1 > 0,
        -(r.1 as int) * 0x1_0000_0000 <= r.0 <= (r.1 as int) * 0x1_0000_0000,
        -0x1_0000_0000_0000_0000_0000_0000 <= r.0 <= 0x1_0000_0000_0000_0000_0000_0000,
{
    if nd.trips > 0 {
        let ghost y = nd.trips as int;
        assert(y * 0x1_0000_0000 <= 0x1_0000_0000_0000_0000_0000_0000) by (nonlinear_arith)
            requires
                0 < y <= 0xffff_ffff_ffff_ffff,
        ;
        (nd.acc_time, nd.trips)
    } else {
        (nd.time as i128, 1)
    }
}

/// The average time at a node.
fn average_of(nd: &TripTrieNd) -> (r: i64)
    requires
        is_timed(*nd),
    ensures
        r == average_time(*nd),
{
    let (a, d) = summed(nd);
    proof {
        lemma_average_bounded(*nd);
    }
    divided(a * 1_000_000_000, d).0 as i64
}

/// Whether the average time at a node is not after that at another.
fn not_after(a: &TripTrieNd, b: &TripTrieNd) -> (r: bool)
    requires
        is_timed(*a),
        is_timed(*b),
    ensures
        r == is_not_after(*a, *b),
{
    let (sum_a, da) = summed(a);
    let (sum_b, db) = summed(b);
    let (qa, ra) = divided(sum_a, da);
    let (qb, rb) = divided(sum_b, db);
    proof {
        let na = time_sum(*a).0;
        let nb = time_sum(*b).0;
        let x = da as int;
        let y = db as int;
        assert(qa < qb ==> na * y <= nb * x) by (nonlinear_arith)
            requires
                na == qa * x + ra,
                nb == qb * y + rb,
                0 <= ra < x,
                0 <= rb < y,
        ;
        assert(qa > qb ==> na * y > nb * x) by (nonlinear_arith)
            requires
                na == qa * x + ra,
                nb == qb * y + rb,
                0 <= ra < x,
                0 <= rb < y,
        ;
        assert(qa == qb ==> (na * y <= nb * x <==> ra * y <= rb * x)) by (nonlinear_arith)
            requires
                na == qa * x + ra,
                nb == qb * y + rb,
        ;
        assert(0 <= ra * y <= 0xffff_ffff_ffff_fffe_0000_0000_0000_0001) by (nonlinear_arith)
            requires
                0 <= ra <= 0xffff_ffff_ffff_ffff,
                0 <= y <= 0xffff_ffff_ffff_ffff,
        ;
        assert(0 <= rb * x <= 0xffff_ffff_ffff_fffe_0000_0000_0000_0001) by (nonlinear_arith)
            requires
                0 <= rb <= 0xffff_ffff_ffff_ffff,
                0 <= x <= 0xffff_ffff_ffff_ffff,
        ;
    }
    if qa < qb {
        true
    } else if qa > qb {
        false
    } else {
        (ra as u128) * (db as u128) <= (rb as u128) * (da as u128)
    }
}

/// Whether a candidate is one of a stop, as a node of a tree sees it.
pub open spec fn is_seen(c: EdgeCand, base: EdgeCand, nd: TripTrieNd) -> bool {
    &&& c.edge == base.edge
    &&& c.point == (if base.edge is None {
        Some(nd.pos)
    } else {
        base.point
    })
    &&& c.pen == base.pen
    &&& c.time == average_time(nd)
    &&& c.progr == base.progr
    &&& c.dep_prede@.len() == 0
}

/// Whether the candidates at an arrival, or at a first departure, are those of its stop.
pub open spec fn is_served(group: Seq<EdgeCand>, stop: Seq<EdgeCand>, nd: TripTrieNd) -> bool {
    &&& group.len() == stop.len()
    &&& forall|i: int|
        #![trigger group[i]]
        0 <= i < group.len() ==> is_seen(group[i], stop[i], nd)
}

/// Whether a candidate of a departure goes on from the one of the arrival that has the same number.
pub open spec fn goes_on(
    c: EdgeCand,
    arrival: EdgeCand,
    i: int,
    arr: TripTrieNd,
    dep: TripTrieNd,
) -> bool {
    &&& c.edge == arrival.edge
    &&& c.point == arrival.point
    &&& c.pen == arrival.pen
    &&& c.time == average_time(dep)
    &&& c.progr == arrival.progr
    &&& c.dep_prede@ == (if is_not_after(arr, dep) {
        seq![i as usize]
    } else {
        Seq::empty()
    })
}

/// Whether the candidates of a departure go on from those of the arrival.
pub open spec fn is_departure(
    group: Seq<EdgeCand>,
    arrivals: Seq<EdgeCand>,
    arr: TripTrieNd,
    dep: TripTrieNd,
) -> bool {
    &&& group.len() == arrivals.len()
    &&& forall|i: int|
        #![trigger group[i]]
        0 <= i < group.len() ==> goes_on(group[i], arrivals[i], i, arr, dep)
}

/// The candidates of a stop. Beyond the last stop there are none.
pub open spec fn stop_at(stops: Seq<Vec<EdgeCand>>, i: int) -> Seq<EdgeCand> {
    if i < stops.len() {
        stops[i]@
    } else {
        Seq::empty()
    }
}

/// Whether these are the candidates of a node of a tree. The root has none.
pub open spec fn is_node_group(
    nds: Seq<TripTrieNd>,
    stops: Seq<Vec<EdgeCand>>,
    ecm: Map<usize, Seq<EdgeCand>>,
    n: int,
) -> bool {
    if n == 0 {
        group_at(ecm, n).len() == 0
    } else if nds[n].parent == Some(0usize) || nds[n].arr {
        is_served(group_at(ecm, n), stop_at(stops, stop_of(nds, n)), nds[n])
    } else {
        is_departure(
            group_at(ecm, n),
            group_at(ecm, nds[n].parent->0 as int),
            nds[nds[n].parent->0 as int],
            nds[n],
        )
    }
}

/// Whether these are the candidates of the nodes of a tree.
pub open spec fn is_candidate_map(
    nds: Seq<TripTrieNd>,
    stops: Seq<Vec<EdgeCand>>,
    ecm: Map<usize, Seq<EdgeCand>>,
) -> bool {
    &&& forall|n: usize| #[trigger] ecm.contains_key(n) <==> 0 < n < nds.len()
    &&& forall|n: int|
        #![trigger group_at(ecm, n)]
        0 <= n < nds.len() ==> is_node_group(nds, stops, ecm, n)
}

fn see(stop: &Vec<EdgeCand>, nd: &TripTrieNd) -> (r: Vec<EdgeCand>)
    requires
        is_timed(*nd),
    ensures
        is_served(r@, stop@, *nd),
{
    let time: i64 = average_of(nd);
    let mut r: Vec<EdgeCand> = Vec::new();
    let mut i: usize = 0;
    while i < stop.len()
        invariant
            i <= stop@.len(),
            r@.len() == i,
            time == average_time(*nd),
            forall|k: int|
                #![trigger r@[k]]
                0 <= k < i ==> is_seen(r@[k], stop@[k], *nd),
        decreases stop@.len() - i,
    {
        let c = &stop[i];
        let point = if c.edge.is_none() {
            Some(nd.pos)
        } else {
            c.point
        };
        r.push(
            EdgeCand {
                edge: c.edge,
                point,
                pen: c.pen,
                time,
                progr: c.progr,
                dep_prede: Vec::new(),
            },
        );
        i = i + 1;
    }
    r
}

fn go_on(arrivals: &Vec<EdgeCand>, arr: &TripTrieNd, dep: &TripTrieNd) -> (r: Vec<EdgeCand>)
    requires
        is_timed(*arr),
        is_timed(*dep),
    ensures
        is_departure(r@, arrivals@, *arr, *dep),
{
    let time: i64 = average_of(dep);
    let linked = not_after(arr, dep);
    let mut r: Vec<EdgeCand> = Vec::new();
    let mut i: usize = 0;
    while i < arrivals.len()
        invariant
            i <= arrivals@.len(),
            r@.len() == i,
            time == average_time(*dep),
            linked == is_not_after(*arr, *dep),
            forall|k: int|
                #![trigger r@[k]]
                0 <= k < i ==> goes_on(r@[k], arrivals@[k], k, *arr, *dep),
        decreases arrivals@.len() - i,
    {
        let c = &arrivals[i];
        let mut dep_prede: Vec<usize> = Vec::new();
        if linked {
            dep_prede.push(i);
        }
        assert(dep_prede@ =~= (if is_not_after(*arr, *dep) {
            seq![i]
        } else {
            Seq::empty()
        }));
        r.push(
            EdgeCand { edge: c.edge, point: c.point, pen: c.pen, time, progr: c.progr, dep_prede },
        );
        i = i + 1;
    }
    r
}

/// How many steps each node of a tree is below the root.
fn depths_of(nds: &Vec<TripTrieNd>) -> (r: Vec<usize>)
    requires
        is_tree(nds@),
    ensures
        r@.len() == nds@.len(),
        forall|i: int| #![trigger r@[i]] 0 <= i < r@.len() ==> r@[i] == depth(nds@, i),
{
    let mut r: Vec<usize> = Vec::new();
    r.push(0);
    let mut n: usize = 1;
    proof {
        crate::router::trip_trie::lemma_root(nds@);
    }
    while n < nds.len()
        invariant
            is_tree(nds@),
            1 <= n <= nds@.len(),
            r@.len() == n,
            forall|i: int|
                #![trigger r@[i]]
                0 <= i < n ==> r@[i] == depth(nds@, i) && r@[i] <= i,
        decreases nds@.len() - n,
    {
        proof {
            crate::router::trip_trie::lemma_parent(nds@, n as int);
        }
        let p: usize = match nds[n].parent {
            Some(p) => p,
            None => 0,
        };
        assert(r@[p as int] <= p);
        let d: usize = r[p] + 1;
        r.push(d);
        n = n + 1;
    }
    r
}

/// The candidates of the nodes of a tree, given those of the stops.
pub fn candidate_map(nds: &Vec<TripTrieNd>, stop_candidates: &Vec<EdgeCandGroup>) -> (r: GroupMap)
    requires
        is_tree(nds@),
        forall|n: int| 0 <= n < nds@.len() ==> is_timed(#[trigger] nds@[n]),
    ensures
        is_candidate_map(nds@, stop_candidates@, groups_in(r)),
{
    let mut r: GroupMap = groups_new();
    let depths = depths_of(nds);
    let mut n: usize = 1;
    proof {
        crate::router::trip_trie::lemma_root(nds@);
        assert(nds.len() == nds@.len());
    }
    while n < nds.len()
        invariant
            is_tree(nds@),
            forall|n: int| 0 <= n < nds@.len() ==> is_timed(#[trigger] nds@[n]),
            1 <= n <= nds@.len(),
            nds@.len() <= usize::MAX,
            depths@.len() == nds@.len(),
            forall|i: int|
                #![trigger depths@[i]]
                0 <= i < depths@.len() ==> depths@[i] == depth(nds@, i),
            forall|i: usize| #[trigger] groups_in(r).contains_key(i) <==> 0 < i < n,
            forall|i: int|
                #![trigger group_at(groups_in(r), i)]
                0 <= i < n ==> is_node_group(nds@, stop_candidates@, groups_in(r), i),
        decreases nds@.len() - n,
    {
        proof {
            crate::router::trip_trie::lemma_parent(nds@, n as int);
        }
        let nd = &nds[n];
        assert(is_timed(nds@[n as int]));
        let p: usize = match nd.parent {
            Some(p) => p,
            None => 0,
        };
        let group = if p == 0 || nd.arr {
            let i: usize = depths[n] / 2;
            if i < stop_candidates.len() {
                see(&stop_candidates[i], nd)
            } else {
                Vec::new()
            }
        } else {
            assert(is_timed(nds@[p as int]));
            match groups_get(&r, p) {
                Some(arrivals) => go_on(arrivals, &nds[p], nd),
                None => Vec::new(),
            }
        };
        let ghost r0 = groups_in(r);
        let ghost added = group@;
        groups_insert(&mut r, n, group);
        proof {
            let r1 = groups_in(r);
            assert(group_at(r1, n as int) == added);
            assert forall|i: int| #![trigger group_at(r1, i)] 0 <= i < n + 1 implies is_node_group(
                nds@,
                stop_candidates@,
                r1,
                i,
            ) by {
                if i < n {
                    assert(group_at(r1, i) == group_at(r0, i));
                    assert(is_node_group(nds@, stop_candidates@, r0, i));
                    if i > 0 {
                        crate::router::trip_trie::lemma_parent(nds@, i);
                        let q = nds@[i].parent->0 as int;
                        assert(group_at(r1, q) == group_at(r0, q));
                    }
                } else {
                    assert(group_at(r1, p as int) == group_at(r0, p as int));
                }
            }
        }
        n = n + 1;
    }
    r
}

/// The arrivals of a tree are an even number of steps below the root, the departures an odd one.
proof fn lemma_parity(nds: Seq<TripTrieNd>, n: int)
    requires
        is_tree(nds),
        0 < n < nds.len(),
    ensures
        nds[n].arr == (depth(nds, n) % 2 == 0),
    decreases n,
{
    crate::router::trip_trie::lemma_root(nds);
    crate::router::trip_trie::lemma_parent(nds, n);
    let p = nds[n].parent->0 as int;
    if p > 0 {
        lemma_parity(nds, p);
    } else {
        assert(depth(nds, 0) == 0);
    }
}

/// A departure belongs to the same stop as the arrival before it.
proof fn lemma_same_stop(nds: Seq<TripTrieNd>, n: int)
    requires
        is_tree(nds),
        0 < n < nds.len(),
        !nds[n].arr,
        nds[n].parent != Some(0usize),
    ensures
        ({
            let p = nds[n].parent->0 as int;
            &&& 0 < p < n
            &&& nds[p].arr
            &&& stop_of(nds, p) == stop_of(nds, n)
        }),
{
    crate::router::trip_trie::lemma_parent(nds, n);
    lemma_parity(nds, n);
    lemma_parity(nds, nds[n].parent->0 as int);
}

/// Wherever a stop has candidates that begin with the stop itself, so have the nodes of the tree that
/// belong to it: every stop of a trip can be served, if only by itself, and at no penalty.
pub proof fn lemma_groups_begin_with_stop(
    nds: Seq<TripTrieNd>,
    stops: Seq<Vec<EdgeCand>>,
    ecm: Map<usize, Seq<EdgeCand>>,
    n: int,
)
    requires
        is_tree(nds),
        is_candidate_map(nds, stops, ecm),
        0 < n < nds.len(),
        stop_of(nds, n) < stops.len(),
        stops[stop_of(nds, n)]@.len() > 0,
        stops[stop_of(nds, n)]@[0].edge is None,
        stops[stop_of(nds, n)]@[0].pen == 0,
    ensures
        group_at(ecm, n).len() == stops[stop_of(nds, n)]@.len(),
        group_at(ecm, n)[0].edge is None,
        group_at(ecm, n)[0].pen == 0,
{
    assert(is_node_group(nds, stops, ecm, n));
    if !(nds[n].parent == Some(0usize) || nds[n].arr) {
        lemma_same_stop(nds, n);
        let p = nds[n].parent->0 as int;
        assert(is_node_group(nds, stops, ecm, p));
        assert(is_served(group_at(ecm, p), stop_at(stops, stop_of(nds, p)), nds[p]));
        assert(is_seen(group_at(ecm, p)[0], stops[stop_of(nds, n)]@[0], nds[p]));
        assert(goes_on(group_at(ecm, n)[0], group_at(ecm, p)[0], 0, nds[p], nds[n]));
    } else {
        assert(is_seen(group_at(ecm, n)[0], stops[stop_of(nds, n)]@[0], nds[n]));
    }
}

proof fn lemma_average_bounded(nd: TripTrieNd)
    requires
        is_timed(nd),
    ensures
        -0x4000_0000_0000_0000 < average_time(nd) < 0x4000_0000_0000_0000,
{
    let (x, y) = time_sum(nd);
    let z = x * 1_000_000_000;
    assert(-0x4000_0000_0000_0000 < z / y < 0x4000_0000_0000_0000) by (nonlinear_arith)
        requires
            y > 0,
            -y * 0x1_0000_0000 * 1_000_000_000 <= z <= y * 0x1_0000_0000 * 1_000_000_000,
    ;
}

/// What the router is asked for.
pub open spec fn task_of<'b>(
    ecm: &'b GroupMap,
    hop_dists: &'b Vec<u64>,
    opts: &'b RoutingOpts,
) -> Task<'b> {
    Task { ecm, hop_dists, opts, no_fast_hops: false, use_cache: true }
}

proof fn lemma_task_ok(
    g: &Graph<NodePL, EdgePL>,
    nds: Seq<TripTrieNd>,
    stops: Seq<Vec<EdgeCand>>,
    t: Task,
)
    requires
        is_tree(nds),
        forall|n: int| 0 <= n < nds.len() ==> is_timed(#[trigger] nds[n]),
        forall|i: int| 0 <= i < stops.len() ==> cands_ok(g, (#[trigger] stops[i])@),
        is_candidate_map(nds, stops, groups_in(*t.ecm)),
        t.hop_dists@.len() == nds.len(),
    ensures
        task_ok(g, nds, t),
{
    assert forall|n: int| #![trigger t.cands(n)] 0 <= n < nds.len() implies cands_ok(g, t.cands(n))
        && times_ok(t.cands(n)) by {
        lemma_group_ok(g, nds, stops, groups_in(*t.ecm), n);
    }
    assert forall|n: int, j: int, k: int|
        #![trigger t.cands(n)[j].dep_prede@[k]]
        0 < n < nds.len() && nds[n].parent is Some && crate::router::router_impl::is_stay(
            nds,
            nds[n].parent->0,
            n,
        ) && 0 <= j < t.cands(n).len() && 0 <= k < t.cands(n)[j].dep_prede@.len() implies t.cands(n)[j].dep_prede@[k]
        < t.cands(nds[n].parent->0 as int).len() by {
        crate::router::trip_trie::lemma_parent(nds, n);
        crate::router::trip_trie::lemma_root(nds);
        let p = nds[n].parent->0 as int;
        assert(p != 0);
        assert(is_node_group(nds, stops, groups_in(*t.ecm), n));
        assert(goes_on(t.cands(n)[j], t.cands(p)[j], j, nds[p], nds[n]));
        let i = stop_of(nds, p);
        assert(is_node_group(nds, stops, groups_in(*t.ecm), p)) by {
            assert(t.cands(p) == group_at(groups_in(*t.ecm), p));
        }
        if i < stops.len() {
            let len = stops[i].len();
        }
        assert(j as usize == j);
    }
}

proof fn lemma_group_ok(
    g: &Graph<NodePL, EdgePL>,
    nds: Seq<TripTrieNd>,
    stops: Seq<Vec<EdgeCand>>,
    ecm: Map<usize, Seq<EdgeCand>>,
    n: int,
)
    requires
        is_tree(nds),
        forall|n: int| 0 <= n < nds.len() ==> is_timed(#[trigger] nds[n]),
        forall|i: int| 0 <= i < stops.len() ==> cands_ok(g, (#[trigger] stops[i])@),
        is_candidate_map(nds, stops, ecm),
        0 <= n < nds.len(),
    ensures
        cands_ok(g, group_at(ecm, n)),
        times_ok(group_at(ecm, n)),
    decreases n,
{
    assert(is_node_group(nds, stops, ecm, n));
    assert(is_timed(nds[n]));
    lemma_average_bounded(nds[n]);
    if n > 0 {
        let i = stop_of(nds, n);
        if nds[n].parent == Some(0usize) || nds[n].arr {
            if i < stops.len() {
                assert(cands_ok(g, stops[i]@));
            }
            assert forall|j: int| 0 <= j < group_at(ecm, n).len() implies is_seen(
                #[trigger] group_at(ecm, n)[j],
                stop_at(stops, i)[j],
                nds[n],
            ) by {}
            assert forall|j: int| #![trigger group_at(ecm, n)[j]] 0 <= j < group_at(ecm, n).len() implies (
            group_at(ecm, n)[j].progr <= WHOLE_EDGE && (group_at(ecm, n)[j].edge matches Some(e) ==> e
                < g.edges@.len())) by {
                assert(is_seen(group_at(ecm, n)[j], stops[i]@[j], nds[n]));
            }
        } else {
            crate::router::trip_trie::lemma_parent(nds, n);
            let p = nds[n].parent->0 as int;
            lemma_group_ok(g, nds, stops, ecm, p);
            assert forall|j: int| #![trigger group_at(ecm, n)[j]] 0 <= j < group_at(ecm, n).len() implies (
            group_at(ecm, n)[j].progr <= WHOLE_EDGE && (group_at(ecm, n)[j].edge matches Some(e) ==> e
                < g.edges@.len())) by {
                assert(goes_on(group_at(ecm, n)[j], group_at(ecm, p)[j], j, nds[p], nds[n]));
            }
            assert forall|j: int| 0 <= j < group_at(ecm, n).len() implies -0x4000_0000_0000_0000 < (
            #[trigger] group_at(ecm, n)[j]).time < 0x4000_0000_0000_0000 by {
                assert(goes_on(group_at(ecm, n)[j], group_at(ecm, p)[j], j, nds[p], nds[n]));
            }
        }
    }
}

/// Whether the trips of a tree end at one of the stops.
pub open spec fn ends_within(trie: TripTrie, stops: int) -> bool {
    forall|n: usize| #[trigger]
        trie.ends().contains_key(n) ==> n > 0 && stop_of(trie.spec_nds(), n as int) < stops
}

/// Whether the trips of a tree end at one of the stops.
pub fn fits_stops(trie: &TripTrie, stops: usize) -> (r: bool)
    requires
        trie.wf(),
    ensures
        r == ends_within(*trie, stops as int),
{
    proof {
        trie.lemma_nonempty();
    }
    let depths = depths_of(trie.get_nds());
    let ends = trips_keys(trie.get_nd_trips());
    let mut k: usize = 0;
    while k < ends.len()
        invariant
            k <= ends@.len(),
            trie.wf(),
            forall|n: usize| #[trigger] ends@.contains(n) <==> trie.ends().contains_key(n),
            depths@.len() == trie.spec_nds().len(),
            forall|i: int|
                #![trigger depths@[i]]
                0 <= i < depths@.len() ==> depths@[i] == depth(trie.spec_nds(), i),
            forall|i: int|
                #![trigger ends@[i]]
                0 <= i < k ==> ends@[i] > 0 && stop_of(trie.spec_nds(), ends@[i] as int) < stops,
        decreases ends@.len() - k,
    {
        let n: usize = ends[k];
        proof {
            assert(ends@.contains(n));
            trie.lemma_ends(n);
        }
        if n == 0 || depths[n] / 2 >= stops {
            return false;
        }
        k = k + 1;
    }
    proof {
        assert forall|n: usize| #[trigger] trie.ends().contains_key(n) implies n > 0 && stop_of(
            trie.spec_nds(),
            n as int,
        ) < stops by {
            assert(ends@.contains(n));
            let i = choose|i: int| 0 <= i < ends@.len() && ends@[i] == n;
            assert(ends@[i] == n);
        }
    }
    true
}

/// Whether this is a best plan over the candidates of the stops, and these are the hops by which the
/// ends of the tree are reached in it. Nothing is known of the hops when the plan is begun.
pub open spec fn is_match(
    graph: &Graph<NodePL, EdgePL>,
    trie: TripTrie,
    stops: Seq<Vec<EdgeCand>>,
    hop_dists_mm: &Vec<u64>,
    opts: &RoutingOpts,
    ecm: &GroupMap,
    plan: RoutePlan,
    caches: Seq<Known>,
    routes: Map<usize, Seq<EdgeHop>>,
) -> bool {
    let t = task_of(ecm, hop_dists_mm, opts);
    &&& is_candidate_map(trie.spec_nds(), stops, groups_in(*ecm))
    &&& plan_ok::<ExpoTransWeight>(graph, trie.spec_nds(), t, plan, caches)
    &&& caches[0] == crate::router::dag::blank()
    &&& all_routed(graph, trie.spec_nds(), t, plan, trie.ends().dom(), routes)
}

/// Whether hops are those of one of the ends of a tree in some best plan. There are none if no end is
/// reached by a hop.
pub open spec fn are_matched(
    graph: &Graph<NodePL, EdgePL>,
    trie: TripTrie,
    stops: Seq<Vec<EdgeCand>>,
    hop_dists_mm: &Vec<u64>,
    opts: &RoutingOpts,
    hops: Option<Seq<EdgeHop>>,
) -> bool {
    exists|
        ecm: GroupMap,
        plan: RoutePlan,
        caches: Seq<Known>,
        routes: Map<usize, Seq<EdgeHop>>,
    | #[trigger]
        is_match(graph, trie, stops, hop_dists_mm, opts, &ecm, plan, caches, routes) && is_taken(
            routes,
            hops,
        )
}

/// Whether this is one of the routes, if there is any.
pub open spec fn is_taken(routes: Map<usize, Seq<EdgeHop>>, hops: Option<Seq<EdgeHop>>) -> bool {
    match hops {
        None => routes == Map::<usize, Seq<EdgeHop>>::empty(),
        Some(h) => exists|n: usize| #[trigger] routes.contains_key(n) && routes[n] == h,
    }
}

/// Routes the trips of a tree through the network, and returns the hops of those that end at one of
/// its nodes. There are none if the tree has no trips, or none that takes a hop.
pub fn match_one_pattern(
    graph: &Graph<NodePL, EdgePL>,
    route_type: Option<RouteType>,
    trie: &TripTrie,
    stop_candidates: &Vec<EdgeCandGroup>,
    hop_dists_mm: &Vec<u64>,
) -> (r: Option<EdgeListHops>)
    requires
        graph.wf(),
        trie.wf(),
        hop_dists_mm@.len() == trie.spec_nds().len(),
        forall|i: int|
            0 <= i < stop_candidates@.len() ==> cands_ok(graph, (#[trigger] stop_candidates@[i])@)
                && stop_candidates@[i]@.len() > 0,
        ends_within(*trie, stop_candidates@.len() as int),
    ensures
        are_matched(
            graph,
            *trie,
            stop_candidates@,
            hop_dists_mm,
            &options_of(route_type),
            match r {
                Some(hops) => Some(hops@),
                None => None,
            },
        ),
{
    let ghost nds = trie.spec_nds();
    proof {
        trie.lemma_nonempty();
        assert forall|n: int| 0 <= n < nds.len() implies is_timed(#[trigger] nds[n]) by {
            trie.lemma_counts(n);
        }
    }
    let ecm = candidate_map(trie.get_nds(), stop_candidates);
    let opts = routing_options_for(route_type);
    let task = Task { ecm: &ecm, hop_dists: hop_dists_mm, opts: &opts, no_fast_hops: false, use_cache: true };
    proof {
        lemma_task_ok(graph, nds, stop_candidates@, task);
        assert forall|n: usize| #[trigger] trie.ends().contains_key(n) implies n > 0 && task.cands(
            n as int,
        ).len() > 0 by {
            trie.lemma_ends(n);
            lemma_group_len(nds, stop_candidates@, groups_in(ecm), n as int);
        }
    }
    let router: RouterImpl<ExpoTransWeight> = RouterImpl::new(graph);
    let mut hop_cache = HopCache::new();
    assert(hop_cache@ =~= crate::router::dag::blank());
    let routes = router.route(trie, &task, &mut hop_cache);
    let ghost all = routes_in(routes);
    proof {
        let (plan, caches) = choose|plan: RoutePlan, caches: Seq<Known>|
            {
                &&& #[trigger] plan_ok::<ExpoTransWeight>(graph, nds, task, plan, caches)
                &&& caches[0] == crate::router::dag::blank()
                &&& caches.last() == hop_cache@
                &&& all_routed(graph, nds, task, plan, trie.ends().dom(), all)
            };
        assert(task == task_of(&ecm, hop_dists_mm, &opts));
        assert(is_match(
            graph,
            *trie,
            stop_candidates@,
            hop_dists_mm,
            &options_of(route_type),
            &ecm,
            plan,
            caches,
            all,
        ));
    }
    match routes_next(routes) {
        Some((n, hops)) => {
            assert(all.contains_key(n) && is_taken(all, Some(hops@)));
            Some(hops)
        },
        None => None,
    }
}

proof fn lemma_group_len(
    nds: Seq<TripTrieNd>,
    stops: Seq<Vec<EdgeCand>>,
    ecm: Map<usize, Seq<EdgeCand>>,
    n: int,
)
    requires
        is_tree(nds),
        is_candidate_map(nds, stops, ecm),
        0 < n < nds.len(),
        stop_of(nds, n) < stops.len(),
    ensures
        group_at(ecm, n).len() == stops[stop_of(nds, n)]@.len(),
{
    assert(is_node_group(nds, stops, ecm, n));
    if !(nds[n].parent == Some(0usize) || nds[n].arr) {
        lemma_same_stop(nds, n);
        assert(is_node_group(nds, stops, ecm, nds[n].parent->0 as int));
    }
}

// What the candidates are for.

/// The further an edge is from its stop, the more its candidate is punished: by the same amount for every
/// millimetre. The stop itself is not punished.
pub proof fn lemma_penalty_grows_with_distance(
    group: Seq<EdgeCand>,
    point: Point,
    snaps: Seq<ProjectedEdgeCandidate>,
    penalty: u64,
    i: int,
    j: int,
)
    requires
        is_stop_group(group, point, snaps, penalty),
        0 < i < group.len(),
        0 < j < group.len(),
    ensures
        group[0].edge is None,
        group[0].pen == 0,
        group[0].point == Some(point),
        group[i].edge == Some(snaps[i - 1].edge_idx),
        group[i].progr == snaps[i - 1].progress,
        group[i].pen >= penalty,
        snaps[i - 1].distance_mm == 0 ==> group[i].pen == penalty,
        group[i].pen - group[j].pen == 390 * (snaps[i - 1].distance_mm - snaps[j - 1].distance_mm),
{
    assert(is_snapped(group[i], snaps[i - 1], penalty));
    assert(is_snapped(group[j], snaps[j - 1], penalty));
}

/// The average time at a node lies between the averages rounded down and up, and a node without trips is at its
/// own time.
pub proof fn lemma_average_time(nd: TripTrieNd)
    ensures
        nd.trips > 0 ==> average_time(nd) * nd.trips <= nd.acc_time * 1_000_000_000 < (average_time(nd)
            + 1) * nd.trips,
        nd.trips == 0 ==> average_time(nd) == nd.time * 1_000_000_000,
{
    if nd.trips > 0 {
        let a = nd.acc_time * 1_000_000_000;
        let d = nd.trips as int;
        assert((a / d) * d <= a < (a / d + 1) * d) by (nonlinear_arith)
            requires
                d > 0,
        ;
    }
}

/// A departure may be reached from the arrival exactly if, on the average, it is not earlier.
pub proof fn lemma_not_after(a: TripTrieNd, b: TripTrieNd)
    requires
        a.trips > 0,
        b.trips > 0,
    ensures
        is_not_after(a, b) <==> a.acc_time * b.trips <= b.acc_time * a.trips,
        is_not_after(a, b) ==> average_time(a) <= average_time(b),
{
    if is_not_after(a, b) {
        lemma_average_time(a);
        lemma_average_time(b);
        let x = a.trips as int;
        let y = b.trips as int;
        let p = average_time(a);
        let q = average_time(b);
        let s = a.acc_time as int;
        let t = b.acc_time as int;
        assert(p <= q) by (nonlinear_arith)
            requires
                p * x <= s * 1_000_000_000,
                t * 1_000_000_000 < (q + 1) * y,
                s * y <= t * x,
                x > 0,
                y > 0,
        {
            assert((p * x) * y <= (s * 1_000_000_000) * y);
            assert((t * 1_000_000_000) * x < ((q + 1) * y) * x);
            assert(p * (x * y) < (q + 1) * (x * y));
        }
    }
}

proof fn lemma_child_depth(nds: Seq<TripTrieNd>, n: int, c: usize)
    requires
        is_tree(nds),
        0 <= n < nds.len(),
        nds[n].childs@.contains(c),
    ensures
        0 < c < nds.len(),
        depth(nds, c as int) == depth(nds, n) + 1,
{
    let k = choose|k: int| 0 <= k < nds[n].childs@.len() && nds[n].childs@[k] == c;
    crate::router::trip_trie::lemma_child(nds, n, k);
}

proof fn lemma_steps_stop(stops: Seq<crate::router::trip_trie::TrieStop>, n: int, k: int)
    requires
        0 <= n <= stops.len() <= usize::MAX,
        0 <= k < crate::router::trip_trie::steps_upto(stops, n).len(),
    ensures
        crate::router::trip_trie::steps_upto(stops, n)[k].stop == (k + 1) / 2,
        n > 0 ==> crate::router::trip_trie::steps_upto(stops, n).len() == (if n == stops.len() {
            2 * n - 2
        } else {
            2 * n - 1
        }),
    decreases n,
{
    if n > 0 {
        lemma_steps_count(stops, n - 1);
        lemma_steps_count(stops, n);
        let rest = crate::router::trip_trie::steps_upto(stops, n - 1);
        if k < rest.len() {
            lemma_steps_stop(stops, n - 1, k);
        }
    }
}

proof fn lemma_steps_count(stops: Seq<crate::router::trip_trie::TrieStop>, n: int)
    requires
        0 <= n <= stops.len(),
    ensures
        crate::router::trip_trie::steps_upto(stops, n).len() == (if n == 0 {
            0
        } else if n == stops.len() {
            2 * n - 2
        } else {
            2 * n - 1
        }),
    decreases n,
{
    if n > 0 {
        lemma_steps_count(stops, n - 1);
    }
}

/// The node of a tree that a step of a trip leads to belongs to the stop of that step: it gets the candidates
/// of that stop.
pub proof fn lemma_node_belongs_to_stop(
    nds: Seq<TripTrieNd>,
    trip: crate::router::trip_trie::TrieTrip,
    time_ex: bool,
    k: int,
)
    requires
        is_tree(nds),
        trip.stop_times@.len() <= usize::MAX,
        0 <= k <= crate::router::trip_trie::steps_of(trip).len(),
        crate::router::trip_trie::descend(
            nds,
            trip.stop_times@,
            crate::router::trip_trie::steps_of(trip),
            time_ex,
            k,
        ) is Some,
    ensures
        ({
            let n = crate::router::trip_trie::descend(
                nds,
                trip.stop_times@,
                crate::router::trip_trie::steps_of(trip),
                time_ex,
                k,
            )->0;
            &&& n < nds.len()
            &&& depth(nds, n as int) == k
            &&& k > 0 ==> stop_of(nds, n as int) == crate::router::trip_trie::steps_of(trip)[k
                - 1].stop
        }),
    decreases k,
{
    let steps = crate::router::trip_trie::steps_of(trip);
    let stops = trip.stop_times@;
    crate::router::trip_trie::lemma_root(nds);
    if k > 0 {
        lemma_node_belongs_to_stop(nds, trip, time_ex, k - 1);
        let p = crate::router::trip_trie::descend(nds, stops, steps, time_ex, k - 1)->0;
        crate::router::trip_trie::lemma_first_match_child(
            nds,
            nds[p as int].childs@,
            stops[steps[k - 1].stop as int],
            steps[k - 1].time,
            time_ex,
        );
        let n = crate::router::trip_trie::descend(nds, stops, steps, time_ex, k)->0;
        lemma_child_depth(nds, p as int, n);
        lemma_steps_stop(stops, stops.len() as int, k - 1);
    }
}

} // verus!
