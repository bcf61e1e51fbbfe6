//! Rules on the tags of roads and stops: which nodes are stations, which level a road has for buses
//! and coaches, which way it may be used, and how fast.

use crate::collapse::{NODE_FLAG_STATION, NODE_FLAG_TURN_CYCLE};
use crate::tags::Tags;
use vstd::prelude::*;

verus! {

/// Whether a node is a place where buses stop.
pub open spec fn bus_station(tags: Tags) -> bool {
    ||| tags.has("public_transport"@, "stop_position"@)
    ||| tags.val("bus_stop"@) is Some
    ||| tags.val("stop"@) is Some
    ||| tags.has("highway"@, "bus_stop"@)
    ||| tags.has("amenity"@, "bus_station"@)
}

pub(crate) fn is_bus_station(tags: &Tags) -> (r: bool)
    ensures
        r == bus_station(*tags),
{
    tags.is("public_transport", "stop_position")
        || tags.contains_key("bus_stop")
        || tags.contains_key("stop")
        || tags.is("highway", "bus_stop")
        || tags.is("amenity", "bus_station")
}

/// Whether vehicles turn at a node.
pub open spec fn turn_cycle(tags: Tags) -> bool {
    ||| tags.has3("highway"@, "turning_circle"@, "turning_loop"@, "mini_roundabout"@)
    ||| tags.has("junction"@, "roundabout"@)
}

fn is_turn_cycle(tags: &Tags) -> (r: bool)
    ensures
        r == turn_cycle(*tags),
{
    tags.is3("highway", "turning_circle", "turning_loop", "mini_roundabout")
        || tags.is("junction", "roundabout")
}

/// The flags of a node: stations and turning cycles, each with its bit.
pub open spec fn flags_of(tags: Tags) -> int {
    (if bus_station(tags) {
        NODE_FLAG_STATION as int
    } else {
        0
    }) + (if turn_cycle(tags) {
        NODE_FLAG_TURN_CYCLE as int
    } else {
        0
    })
}

/// The flags of a node on a road network.
pub fn node_flags(tags: &Tags) -> (flags: u8)
    ensures
        flags == flags_of(*tags),
{
    let mut flags: u8 = 0;
    if is_bus_station(tags) {
        flags = flags + NODE_FLAG_STATION;
    }
    if is_turn_cycle(tags) {
        flags = flags + NODE_FLAG_TURN_CYCLE;
    }
    flags
}

/// The lowest level that the rules give, or zero if they give none.
pub open spec fn lowest(gives: spec_fn(int) -> bool) -> int {
    if gives(0) {
        0
    } else if gives(1) {
        1
    } else if gives(2) {
        2
    } else if gives(3) {
        3
    } else if gives(4) {
        4
    } else if gives(5) {
        5
    } else if gives(6) {
        6
    } else if gives(7) {
        7
    } else {
        0
    }
}

/// The level that is taken is given by a rule, if any level is, and no lower level is given.
pub proof fn lemma_lowest(gives: spec_fn(int) -> bool)
    ensures
        0 <= lowest(gives) <= 7,
        forall|n: int| 0 <= n < lowest(gives) ==> !(#[trigger] gives(n)),
        gives(lowest(gives)) || forall|n: int| 0 <= n <= 7 ==> !(#[trigger] gives(n)),
{
}

/// What puts a road on a level for buses.
pub open spec fn bus_rule(tags: Tags, level: int) -> bool {
    if level == 1 {
        tags.has4("highway"@, "trunk"@, "trunk_link"@, "primary"@, "primary_link"@)
    } else if level == 2 {
        ||| tags.has2("highway"@, "secondary"@, "secondary_link"@)
        ||| tags.has2("bus"@, "yes"@, "designated"@)
        ||| tags.has2("minibus"@, "yes"@, "designated"@)
        ||| tags.has2("psv"@, "yes"@, "designated"@)
        ||| tags.has2("access"@, "psv"@, "bus"@)
        ||| tags.has("trolley_wire"@, "yes"@)
        ||| tags.has("trolleywire"@, "yes"@)
        ||| tags.has("trolleybus"@, "yes"@)
        ||| tags.has("trolley_bus"@, "yes"@)
    } else if level == 3 {
        tags.has2("highway"@, "tertiary"@, "tertiary_link"@)
    } else if level == 4 {
        tags.has3("highway"@, "unclassified"@, "residential"@, "road"@)
    } else if level == 5 {
        ||| tags.has3("highway"@, "living_street"@, "pedestrian"@, "service"@)
        ||| tags.has("psv"@, "no"@)
    } else if level == 6 {
        ||| tags.has("bus"@, "no"@)
        ||| tags.has2("service"@, "siding"@, "parking_aisle"@)
        ||| tags.has3("access"@, "permissive"@, "private"@, "no"@)
        ||| tags.has2("highway"@, "footway"@, "track"@)
    } else {
        false
    }
}

/// The level of a road for buses: the lowest one that a rule gives.
pub fn bus_level(tags: &Tags) -> (level: u8)
    ensures
        level == lowest(|n: int| bus_rule(*tags, n)),
{
    if tags.is4("highway", "trunk", "trunk_link", "primary", "primary_link") {
        return 1;
    }
    if tags.is2("highway", "secondary", "secondary_link")
            || tags.is2("bus", "yes", "designated")
            || tags.is2("minibus", "yes", "designated")
            || tags.is2("psv", "yes", "designated")
            || tags.is2("access", "psv", "bus")
            || tags.is("trolley_wire", "yes")
            || tags.is("trolleywire", "yes")
            || tags.is("trolleybus", "yes")
            || tags.is("trolley_bus", "yes") {
        return 2;
    }
    if tags.is2("highway", "tertiary", "tertiary_link") {
        return 3;
    }
    if tags.is3("highway", "unclassified", "residential", "road") {
        return 4;
    }
    if tags.is3("highway", "living_street", "pedestrian", "service")
            || tags.is("psv", "no") {
        return 5;
    }
    if tags.is("bus", "no")
            || tags.is2("service", "siding", "parking_aisle")
            || tags.is3("access", "permissive", "private", "no")
            || tags.is2("highway", "footway", "track") {
        return 6;
    }
    0
}

/// What puts a road on a level for coaches.
pub open spec fn coach_rule(tags: Tags, level: int) -> bool {
    if level == 0 {
        tags.has2("highway"@, "motorway"@, "motorway_link"@)
    } else if level == 1 {
        tags.has2("highway"@, "trunk"@, "trunk_link"@)
    } else if level == 2 {
        tags.has2("highway"@, "primary"@, "primary_link"@)
    } else if level == 3 {
        tags.has2("highway"@, "secondary"@, "secondary_link"@)
    } else if level == 4 {
        tags.has2("highway"@, "tertiary"@, "tertiary_link"@)
    } else if level == 5 {
        tags.has4("highway"@, "unclassified"@, "residential"@, "road"@, "service"@)
    } else if level == 6 {
        ||| tags.has2("highway"@, "living_street"@, "pedestrian"@)
        ||| tags.has("psv"@, "no"@)
    } else if level == 7 {
        ||| tags.has("bus"@, "no"@)
        ||| tags.has2("service"@, "siding"@, "parking_aisle"@)
        ||| tags.has3("access"@, "permissive"@, "private"@, "no"@)
        ||| tags.has("highway"@, "footway"@)
    } else {
        false
    }
}

/// The level of a road for coaches: the lowest one that a rule gives.
pub fn coach_level(tags: &Tags) -> (level: u8)
    ensures
        level == lowest(|n: int| coach_rule(*tags, n)),
{
    if tags.is2("highway", "motorway", "motorway_link") {
        return 0;
    }
    if tags.is2("highway", "trunk", "trunk_link") {
        return 1;
    }
    if tags.is2("highway", "primary", "primary_link") {
        return 2;
    }
    if tags.is2("highway", "secondary", "secondary_link") {
        return 3;
    }
    if tags.is2("highway", "tertiary", "tertiary_link") {
        return 4;
    }
    if tags.is4("highway", "unclassified", "residential", "road", "service") {
        return 5;
    }
    if tags.is2("highway", "living_street", "pedestrian")
            || tags.is("psv", "no") {
        return 6;
    }
    if tags.is("bus", "no")
            || tags.is2("service", "siding", "parking_aisle")
            || tags.is3("access", "permissive", "private", "no")
            || tags.is("highway", "footway") {
        return 7;
    }
    0
}

/// Whether a road is expressly open to buses both ways.
pub open spec fn two_way_for_buses(tags: Tags) -> bool {
    ||| tags.has5("oneway"@, "false"@, "0"@, "alternating"@, "reversible"@, "no"@)
    ||| tags.has3("oneway:bus"@, "no"@, "0"@, "false"@)
    ||| tags.has3("oneway:psv"@, "no"@, "0"@, "false"@)
    ||| tags.has2("busway"@, "opposite_lane"@, "opposite"@)
    ||| tags.has("busway:left"@, "opposite_lane"@)
    ||| tags.has("busway:right"@, "opposite_lane"@)
    ||| tags.has2("psv"@, "opposite_lane"@, "opposite"@)
    ||| tags.has2("lanes:psv:backward"@, "1"@, "2"@)
    ||| tags.has2("lanes:bus:backward"@, "1"@, "2"@)
    ||| tags.has3("bus:lanes:backward"@, "yes"@, "designated"@, "1"@)
}

fn is_two_way_for_buses(tags: &Tags) -> (r: bool)
    ensures
        r == two_way_for_buses(*tags),
{
    tags.is5("oneway", "false", "0", "alternating", "reversible", "no")
        || tags.is3("oneway:bus", "no", "0", "false")
        || tags.is3("oneway:psv", "no", "0", "false")
        || tags.is2("busway", "opposite_lane", "opposite")
        || tags.is("busway:left", "opposite_lane")
        || tags.is("busway:right", "opposite_lane")
        || tags.is2("psv", "opposite_lane", "opposite")
        || tags.is2("lanes:psv:backward", "1", "2")
        || tags.is2("lanes:bus:backward", "1", "2")
        || tags.is3("bus:lanes:backward", "yes", "designated", "1")
}

/// Whether a road is open to buses one way.
pub open spec fn one_way_for_buses(tags: Tags) -> bool {
    ||| tags.has("junction"@, "roundabout"@)
    ||| tags.has("highway"@, "motorway"@)
    ||| tags.has3("oneway"@, "yes"@, "1"@, "true"@)
    ||| tags.has3("oneway:bus"@, "yes"@, "1"@, "true"@)
    ||| tags.has3("oneway:psv"@, "yes"@, "1"@, "true"@)
}

fn is_one_way_for_buses(tags: &Tags) -> (r: bool)
    ensures
        r == one_way_for_buses(*tags),
{
    tags.is("junction", "roundabout")
        || tags.is("highway", "motorway")
        || tags.is3("oneway", "yes", "1", "true")
        || tags.is3("oneway:bus", "yes", "1", "true")
        || tags.is3("oneway:psv", "yes", "1", "true")
}

/// Which way buses may use a road: both (0), forward (1) or backward (2). What opens a road both
/// ways comes first, then a direction against that of the way.
pub open spec fn bus_direction(tags: Tags) -> u8 {
    if two_way_for_buses(tags) {
        0
    } else if tags.has("oneway"@, "-1"@) {
        2
    } else if one_way_for_buses(tags) {
        1
    } else {
        0
    }
}

/// Which way buses may use a road.
pub fn bus_oneway(tags: &Tags) -> (r: u8)
    ensures
        r == bus_direction(*tags),
{
    if is_two_way_for_buses(tags) {
        return 0;
    }
    if tags.is("oneway", "-1") {
        return 2;
    }
    if is_one_way_for_buses(tags) {
        return 1;
    }
    0
}

/// A level within the table of speeds.
pub open spec fn clamped(level: int) -> int {
    if level < 0 {
        0
    } else if level > 7 {
        7
    } else {
        level
    }
}

/// The speeds of the levels on roads, in km/h.
pub open spec fn road_speeds() -> Seq<u32> {
    seq![85u32, 70, 55, 40, 30, 20, 10, 5]
}

/// The speeds of the levels on railways and for coaches, in km/h.
pub open spec fn rail_speeds() -> Seq<u32> {
    seq![120u32, 90, 65, 50, 30, 20, 10, 5]
}

/// The speeds of the levels on water, in km/h.
pub open spec fn ferry_speeds() -> Seq<u32> {
    seq![70u32, 60, 50, 35, 30, 25, 10, 5]
}

pub(crate) fn clamp_level(level: i32) -> (r: usize)
    ensures
        r == clamped(level as int),
{
    if level < 0 {
        0
    } else if level > 7 {
        7
    } else {
        level as usize
    }
}

/// The speed of buses on a level, in units of a metre in 3.6 seconds.
pub fn bus_speed_mps(level: i32) -> (r: u32)
    ensures
        r == road_speeds()[clamped(level as int)],
{
    let speeds: [u32; 8] = [85, 70, 55, 40, 30, 20, 10, 5];
    assert(speeds@ =~= road_speeds());
    speeds[clamp_level(level)]
}

/// The speed of coaches on a level, in units of a metre in 3.6 seconds.
pub fn coach_speed_mps(level: i32) -> (r: u32)
    ensures
        r == rail_speeds()[clamped(level as int)],
{
    let speeds: [u32; 8] = [120, 90, 65, 50, 30, 20, 10, 5];
    assert(speeds@ =~= rail_speeds());
    speeds[clamp_level(level)]
}

/// The higher a level, the slower it is, on roads, on railways and on water; no level is slower than walking.
pub proof fn lemma_levels_slow_down(a: int, b: int)
    requires
        a <= b,
    ensures
        5 <= road_speeds()[clamped(b)] <= road_speeds()[clamped(a)] <= 85,
        5 <= rail_speeds()[clamped(b)] <= rail_speeds()[clamped(a)] <= 120,
        5 <= ferry_speeds()[clamped(b)] <= ferry_speeds()[clamped(a)] <= 70,
        0 <= a < b < 8 ==> road_speeds()[clamped(b)] < road_speeds()[clamped(a)]
            && rail_speeds()[clamped(b)] < rail_speeds()[clamped(a)] && ferry_speeds()[clamped(b)]
            < ferry_speeds()[clamped(a)],
        road_speeds()[clamped(a)] <= rail_speeds()[clamped(a)],
{
    let x = clamped(a);
    let y = clamped(b);
    assert(x == 0 || x == 1 || x == 2 || x == 3 || x == 4 || x == 5 || x == 6 || x == 7);
    assert(y == 0 || y == 1 || y == 2 || y == 3 || y == 4 || y == 5 || y == 6 || y == 7);
}

} // verus!
