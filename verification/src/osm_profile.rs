//! The rules of a routing profile: which relations and ways it keeps, which nodes are its stations,
//! and what level, direction and speed a way has in it.

use crate::collapse::{NODE_FLAG_STATION, NODE_FLAG_TURN_CYCLE};
use crate::graph::{
    MODE_BUS, MODE_FERRY, MODE_GONDOLA, MODE_RAIL, MODE_SUBWAY, MODE_TRAM,
};
use crate::hashed::{ids_contains, ids_of, IdSet};
use crate::mots::{category_of, map_route_type_to_category, MotCategory, RouteType};
use crate::osm::Way;
use crate::osm_filter::{
    bus_drops, bus_infrastructure, bus_keeps, is_bus_infrastructure, OsmFilter,
};
use crate::router::weights::capped;
use crate::rules::{
    bus_direction, bus_level, bus_oneway, bus_rule, bus_station, clamp_level, clamped, ferry_speeds,
    flags_of, is_bus_station, lowest, node_flags, rail_speeds, road_speeds,
};
use crate::tags::Tags;
use crate::text::{split_on, split_trimmed, str_eq, trimmed};
use vstd::prelude::*;

verus! {

/// Which network a graph is built of.
#[derive(Debug, Clone, Copy, PartialEq, Eq, Structural)]
pub enum OsmProfile {
    Rail,
    TramSubway,
    Bus,
    Ferry,
    Gondola,
    Funicular,
    /// A network of several modes, given as a mask.
    Generic(u8),
}

impl OsmProfile {
    /// The modes that may use the network.
    pub open spec fn modes(self) -> u8 {
        match self {
            OsmProfile::Rail => MODE_RAIL,
            OsmProfile::TramSubway => MODE_TRAM | MODE_SUBWAY,
            OsmProfile::Bus => MODE_BUS,
            OsmProfile::Ferry => MODE_FERRY,
            OsmProfile::Gondola => MODE_GONDOLA,
            OsmProfile::Funicular => MODE_GONDOLA,
            OsmProfile::Generic(mask) => mask,
        }
    }

    /// The modes that may use the network.
    pub fn allowed_modes(self) -> (r: u8)
        ensures
            r == self.modes(),
    {
        match self {
            OsmProfile::Rail => MODE_RAIL,
            OsmProfile::TramSubway => MODE_TRAM | MODE_SUBWAY,
            OsmProfile::Bus => MODE_BUS,
            OsmProfile::Ferry => MODE_FERRY,
            OsmProfile::Gondola => MODE_GONDOLA,
            OsmProfile::Funicular => MODE_GONDOLA,
            OsmProfile::Generic(mask) => mask,
        }
    }

    /// By how much edges that are used against their direction are dearer.
    pub open spec fn penalty_factor(self) -> u32 {
        match self {
            OsmProfile::Rail => 5,
            OsmProfile::Bus => 5,
            OsmProfile::Generic(_) => 5,
            _ => 2,
        }
    }

    /// By how much edges that are used against their direction are dearer.
    pub fn one_way_penalty_factor(self) -> (r: u32)
        ensures
            r == self.penalty_factor(),
    {
        match self {
            OsmProfile::Rail => 5,
            OsmProfile::Bus => 5,
            OsmProfile::Generic(_) => 5,
            _ => 2,
        }
    }

    /// What it costs, in seconds, to enter an edge against its direction.
    pub open spec fn entry_seconds(self) -> u32 {
        if self == OsmProfile::Rail || self == OsmProfile::Bus {
            300
        } else {
            0
        }
    }

    /// What it costs, in seconds, to enter an edge against its direction.
    pub fn one_way_entry_cost_seconds(self) -> (r: u32)
        ensures
            r == self.entry_seconds(),
    {
        match self {
            OsmProfile::Rail => 300,
            OsmProfile::Bus => 300,
            _ => 0,
        }
    }
}

/// The bit of a mode.
pub open spec fn mode_bit(c: MotCategory) -> u8 {
    match c {
        MotCategory::Rail => MODE_RAIL,
        MotCategory::Tram => MODE_TRAM,
        MotCategory::Subway => MODE_SUBWAY,
        MotCategory::Ferry => MODE_FERRY,
        MotCategory::Gondola => MODE_GONDOLA,
        MotCategory::Funicular => MODE_GONDOLA,
        MotCategory::CableCar => MODE_GONDOLA,
        _ => MODE_BUS,
    }
}

fn bit_of(c: MotCategory) -> (r: u8)
    ensures
        r == mode_bit(c),
{
    match c {
        MotCategory::Rail => MODE_RAIL,
        MotCategory::Tram => MODE_TRAM,
        MotCategory::Subway => MODE_SUBWAY,
        MotCategory::Ferry => MODE_FERRY,
        MotCategory::Gondola => MODE_GONDOLA,
        MotCategory::Funicular => MODE_GONDOLA,
        MotCategory::CableCar => MODE_GONDOLA,
        _ => MODE_BUS,
    }
}

/// The bits of the modes of route types.
pub open spec fn mask_of(types: Seq<RouteType>) -> u8
    decreases types.len(),
{
    if types.len() == 0 {
        0
    } else {
        mask_of(types.drop_last()) | mode_bit(category_of(types.last()))
    }
}

/// Whether there are route types, all of one of two modes.
pub open spec fn all_of(types: Seq<RouteType>, a: MotCategory, b: MotCategory) -> bool {
    types.len() > 0 && forall|i: int|
        0 <= i < types.len() ==> category_of(#[trigger] types[i]) == a || category_of(types[i]) == b
}

/// The profile that serves route types: that of their mode if they share one, else one for all their
/// modes.
pub open spec fn profile_of(types: Seq<RouteType>) -> OsmProfile {
    if all_of(types, MotCategory::Rail, MotCategory::Rail) {
        OsmProfile::Rail
    } else if all_of(types, MotCategory::Tram, MotCategory::Subway) {
        OsmProfile::TramSubway
    } else if all_of(types, MotCategory::Ferry, MotCategory::Ferry) {
        OsmProfile::Ferry
    } else if all_of(types, MotCategory::Gondola, MotCategory::CableCar) {
        OsmProfile::Gondola
    } else if all_of(types, MotCategory::Funicular, MotCategory::Funicular) {
        OsmProfile::Funicular
    } else {
        OsmProfile::Generic(mask_of(types))
    }
}

fn are_all_of(types: &Vec<RouteType>, a: MotCategory, b: MotCategory) -> (r: bool)
    ensures
        r == all_of(types@, a, b),
{
    let mut i: usize = 0;
    while i < types.len()
        invariant
            i <= types@.len(),
            forall|k: int|
                0 <= k < i ==> category_of(#[trigger] types@[k]) == a || category_of(types@[k])
                    == b,
        decreases types@.len() - i,
    {
        let c = map_route_type_to_category(types[i]);
        if c != a && c != b {
            assert(category_of(types@[i as int]) == c);
            return false;
        }
        i = i + 1;
    }
    types.len() > 0
}

/// What is dropped from a railway network.
pub open spec fn off_rails(tags: Tags) -> bool {
    ||| tags.has5("railway"@, "abandoned"@, "construction"@, "disused"@, "miniature"@, "signal"@)
    ||| tags.has3("railway"@, "razed"@, "proposed"@, "platform"@)
    ||| tags.has("metro"@, "yes"@)
    ||| tags.has("area"@, "yes"@)
    ||| tags.has("type"@, "multipolygon"@)
    ||| tags.has("public_transport"@, "platform"@)
    ||| tags.has3("building"@, "yes"@, "train_station"@, "roof"@)
    ||| tags.has2("amenity"@, "shelter"@, "bus_station"@)
}

fn is_off_rails(tags: &Tags) -> (r: bool)
    ensures
        r == off_rails(*tags),
{
    tags.is5("railway", "abandoned", "construction", "disused", "miniature", "signal")
        || tags.is3("railway", "razed", "proposed", "platform")
        || tags.is("metro", "yes")
        || tags.is("area", "yes")
        || tags.is("type", "multipolygon")
        || tags.is("public_transport", "platform")
        || tags.is3("building", "yes", "train_station", "roof")
        || tags.is2("amenity", "shelter", "bus_station")
}

/// What is dropped from a network of trams, cable cars and funiculars.
pub open spec fn off_tracks(tags: Tags) -> bool {
    ||| tags.has("area"@, "yes"@)
    ||| tags.has("public_transport"@, "stop_area"@)
    ||| tags.has("type"@, "multipolygon"@)
    ||| tags.has("railway"@, "platform"@)
    ||| tags.has("public_transport"@, "platform"@)
    ||| tags.has("service"@, "alley"@)
}

fn is_off_tracks(tags: &Tags) -> (r: bool)
    ensures
        r == off_tracks(*tags),
{
    tags.is("area", "yes")
        || tags.is("public_transport", "stop_area")
        || tags.is("type", "multipolygon")
        || tags.is("railway", "platform")
        || tags.is("public_transport", "platform")
        || tags.is("service", "alley")
}

/// What relations are dropped from a road network.
pub open spec fn off_roads(tags: Tags) -> bool {
    ||| tags.has("area"@, "yes"@)
    ||| tags.has("train"@, "yes"@)
    ||| tags.has("type"@, "multipolygon"@)
    ||| tags.has2("railway"@, "platform"@, "station"@)
    ||| tags.has3("highway"@, "proposed"@, "footway"@, "construction"@)
    ||| tags.has2("building"@, "yes"@, "train_station"@)
    ||| tags.has2("leisure"@, "garden"@, "park"@)
}

fn is_off_roads(tags: &Tags) -> (r: bool)
    ensures
        r == off_roads(*tags),
{
    tags.is("area", "yes")
        || tags.is("train", "yes")
        || tags.is("type", "multipolygon")
        || tags.is2("railway", "platform", "station")
        || tags.is3("highway", "proposed", "footway", "construction")
        || tags.is2("building", "yes", "train_station")
        || tags.is2("leisure", "garden", "park")
}

/// What belongs to a railway network.
pub open spec fn on_rails(tags: Tags) -> bool {
    ||| tags.has4("railway"@, "rail"@, "light_rail"@, "tram"@, "narrow_gauge"@)
    ||| tags.has3("route"@, "rail"@, "light_rail"@, "train"@)
}

fn is_on_rails(tags: &Tags) -> (r: bool)
    ensures
        r == on_rails(*tags),
{
    tags.is4("railway", "rail", "light_rail", "tram", "narrow_gauge")
        || tags.is3("route", "rail", "light_rail", "train")
}

/// What belongs to a network of trams and subways.
pub open spec fn on_tracks(tags: Tags) -> bool {
    ||| tags.has4("route"@, "tram"@, "funicular"@, "subway"@, "light_rail"@)
    ||| tags.has5("railway"@, "subway"@, "light_rail"@, "tram"@, "funicular"@, "station"@)
    ||| tags.has2("railway"@, "halt"@, "tram_stop"@)
    ||| tags.has("subway"@, "yes"@)
    ||| tags.has("tram"@, "yes"@)
}

fn is_on_tracks(tags: &Tags) -> (r: bool)
    ensures
        r == on_tracks(*tags),
{
    tags.is4("route", "tram", "funicular", "subway", "light_rail")
        || tags.is5("railway", "subway", "light_rail", "tram", "funicular", "station")
        || tags.is2("railway", "halt", "tram_stop")
        || tags.is("subway", "yes")
        || tags.is("tram", "yes")
}

/// What belongs to a network of ferries.
pub open spec fn on_water(tags: Tags) -> bool {
    ||| tags.has("route"@, "ferry"@)
    ||| tags.has("waterway"@, "river"@)
    ||| tags.has("motorboat"@, "yes"@)
    ||| tags.has("ferry"@, "yes"@)
    ||| tags.has("amenity"@, "ferry_terminal"@)
    ||| tags.has("mooring"@, "ferry"@)
    ||| tags.has("station"@, "ferry"@)
}

fn is_on_water(tags: &Tags) -> (r: bool)
    ensures
        r == on_water(*tags),
{
    tags.is("route", "ferry")
        || tags.is("waterway", "river")
        || tags.is("motorboat", "yes")
        || tags.is("ferry", "yes")
        || tags.is("amenity", "ferry_terminal")
        || tags.is("mooring", "ferry")
        || tags.is("station", "ferry")
}

/// What belongs to a network of gondolas.
pub open spec fn in_the_air(tags: Tags) -> bool {
    tags.has4("aerialway"@, "gondola"@, "cable_car"@, "chair_lift"@, "mixed_lift"@)
}

fn is_in_the_air(tags: &Tags) -> (r: bool)
    ensures
        r == in_the_air(*tags),
{
    tags.is4("aerialway", "gondola", "cable_car", "chair_lift", "mixed_lift")
}

/// What belongs to a network of funiculars.
pub open spec fn on_slopes(tags: Tags) -> bool {
    ||| tags.has4("route"@, "funicular"@, "tram"@, "subway"@, "light_rail"@)
    ||| tags.has5("railway"@, "funicular"@, "narrow_gauge"@, "subway"@, "light_rail"@, "tram"@)
    ||| tags.has3("railway"@, "station"@, "halt"@, "tram_stop"@)
    ||| tags.has("subway"@, "yes"@)
    ||| tags.has("tram"@, "yes"@)
}

fn is_on_slopes(tags: &Tags) -> (r: bool)
    ensures
        r == on_slopes(*tags),
{
    tags.is4("route", "funicular", "tram", "subway", "light_rail")
        || tags.is5("railway", "funicular", "narrow_gauge", "subway", "light_rail", "tram")
        || tags.is3("railway", "station", "halt", "tram_stop")
        || tags.is("subway", "yes")
        || tags.is("tram", "yes")
}

/// Relations that restrict turns.
pub open spec fn restriction_relation(tags: Tags) -> bool {
    tags.has3("type"@, "restriction"@, "restriction:bus"@, "restriction:motorcar"@)
}

fn is_restriction_relation(tags: &Tags) -> (r: bool)
    ensures
        r == restriction_relation(*tags),
{
    tags.is3("type", "restriction", "restriction:bus", "restriction:motorcar")
}

/// Whether a way is a platform or a station rather than a track or a road.
pub open spec fn platform(tags: Tags) -> bool {
    ||| tags.has3("railway"@, "platform"@, "stop"@, "platform_edge"@)
    ||| tags.has3("public_transport"@, "platform"@, "stop_position"@, "station"@)
}

fn is_platform(tags: &Tags) -> (r: bool)
    ensures
        r == platform(*tags),
{
    tags.is3("railway", "platform", "stop", "platform_edge")
        || tags.is3("public_transport", "platform", "stop_position", "station")
}

/// Whether a way is a track, a road, a line in the air or on water.
pub open spec fn infrastructure_tags(tags: Tags) -> bool {
    ||| tags.has("route"@, "ferry"@)
    ||| tags.val("aerialway"@) is Some
    ||| tags.val("railway"@) is Some
    ||| tags.val("highway"@) is Some
}

fn is_infrastructure_tags(tags: &Tags) -> (r: bool)
    ensures
        r == infrastructure_tags(*tags),
{
    tags.is("route", "ferry")
        || tags.contains_key("aerialway")
        || tags.contains_key("railway")
        || tags.contains_key("highway")
}

/// Whether a relation is kept in a profile. What is dropped is not kept.
pub open spec fn relation_kept(tags: Tags, profile: OsmProfile) -> bool {
    match profile {
        OsmProfile::Rail => !off_rails(tags) && (on_rails(tags) || tags.has(
            "public_transport"@,
            "stop_area"@,
        )),
        OsmProfile::TramSubway => !off_tracks(tags) && on_tracks(tags),
        OsmProfile::Bus => !off_roads(tags) && (bus_infrastructure(tags) || restriction_relation(
            tags,
        )),
        OsmProfile::Ferry => on_water(tags),
        OsmProfile::Gondola => !off_tracks(tags) && in_the_air(tags),
        OsmProfile::Funicular => !off_tracks(tags) && on_slopes(tags),
        OsmProfile::Generic(_) => tags.val("route"@) is Some,
    }
}

/// Whether a relation is kept without what belongs to it.
pub open spec fn relation_flat(tags: Tags, profile: OsmProfile) -> bool {
    profile == OsmProfile::Rail && tags.has("public_transport"@, "stop_area"@)
}

/// Whether one of the values between semicolons exempts buses.
pub open spec fn exempts_buses(value: Seq<char>) -> bool {
    exists|i: int|
        0 <= i < split_on(value, ';').len() && (#[trigger] trimmed(split_on(value, ';')[i]) == "bus"@
            || trimmed(split_on(value, ';')[i]) == "psv"@)
}

/// Whether a turn is forbidden or prescribed.
pub open spec fn restricts_turn(tags: Tags) -> bool {
    ||| tags.has5("restriction"@, "no_right_turn"@, "no_left_turn"@, "no_u_turn"@, "no_straight_on"@, "only_left_turn"@)
    ||| tags.has2("restriction"@, "only_straight_on"@, "only_right_turn"@)
    ||| tags.has5("restriction:bus"@, "no_right_turn"@, "no_left_turn"@, "no_u_turn"@, "no_straight_on"@, "only_left_turn"@)
    ||| tags.has2("restriction:bus"@, "only_straight_on"@, "only_right_turn"@)
}

fn is_restricts_turn(tags: &Tags) -> (r: bool)
    ensures
        r == restricts_turn(*tags),
{
    tags.is5("restriction", "no_right_turn", "no_left_turn", "no_u_turn", "no_straight_on", "only_left_turn")
        || tags.is2("restriction", "only_straight_on", "only_right_turn")
        || tags.is5("restriction:bus", "no_right_turn", "no_left_turn", "no_u_turn", "no_straight_on", "only_left_turn")
        || tags.is2("restriction:bus", "only_straight_on", "only_right_turn")
}

/// Whether a relation restricts turns of buses.
pub open spec fn restricts_buses(tags: Tags) -> bool {
    &&& tags.has("type"@, "restriction"@)
    &&& tags.val("except"@) is Some ==> !exempts_buses(tags.val("except"@)->0)
    &&& restricts_turn(tags)
}

/// Whether a way is dropped in a profile.
pub open spec fn way_dropped(tags: Tags, profile: OsmProfile) -> bool {
    match profile {
        OsmProfile::Rail => off_rails(tags),
        OsmProfile::TramSubway => off_tracks(tags),
        OsmProfile::Bus => bus_drops(tags),
        OsmProfile::Ferry => false,
        OsmProfile::Gondola => off_tracks(tags),
        OsmProfile::Funicular => off_tracks(tags),
        OsmProfile::Generic(_) => platform(tags),
    }
}

/// Whether a way is a track, a road, a line in the air or on water, and no platform.
pub open spec fn infrastructure(tags: Tags) -> bool {
    !platform(tags) && infrastructure_tags(tags)
}

/// Whether a way is a ferry line, by its tags or through a relation.
pub open spec fn is_ferry_way(tags: Tags, id: i64, ferry_ways: Set<i64>) -> bool {
    tags.has("route"@, "ferry"@) || ferry_ways.contains(id)
}

/// Whether a way is a road for buses, and neither a ferry line nor one in the air.
pub open spec fn is_bus_way(tags: Tags, id: i64, ferry_ways: Set<i64>) -> bool {
    !is_ferry_way(tags, id, ferry_ways) && tags.val("aerialway"@) is None && bus_keeps(tags)
}

/// The bits of the modes that may use a way.
pub open spec fn way_modes(tags: Tags, id: i64, ferry_ways: Set<i64>) -> u8 {
    (if tags.has3("railway"@, "rail"@, "light_rail"@, "narrow_gauge"@) {
        MODE_RAIL
    } else {
        0
    }) | (if tags.has("railway"@, "tram"@) {
        MODE_TRAM
    } else {
        0
    }) | (if tags.has("railway"@, "subway"@) {
        MODE_SUBWAY
    } else {
        0
    }) | (if is_bus_way(tags, id, ferry_ways) {
        MODE_BUS
    } else {
        0
    }) | (if is_ferry_way(tags, id, ferry_ways) {
        MODE_FERRY
    } else {
        0
    }) | (if tags.val("aerialway"@) is Some {
        MODE_GONDOLA
    } else {
        0
    })
}

/// Whether a way is kept in a profile. What is dropped is not kept.
pub open spec fn way_kept(tags: Tags, id: i64, profile: OsmProfile, ferry_ways: Set<i64>) -> bool {
    !way_dropped(tags, profile) && match profile {
        OsmProfile::Rail => on_rails(tags),
        OsmProfile::TramSubway => on_tracks(tags),
        OsmProfile::Bus => bus_keeps(tags),
        OsmProfile::Ferry => on_water(tags) || ferry_ways.contains(id),
        OsmProfile::Gondola => in_the_air(tags),
        OsmProfile::Funicular => on_slopes(tags),
        OsmProfile::Generic(mask) => infrastructure(tags) && way_modes(tags, id, ferry_ways) & mask
            != 0,
    }
}

/// Stations of a railway.
pub open spec fn rail_station(tags: Tags) -> bool {
    ||| tags.has("public_transport"@, "stop_position"@)
    ||| tags.has4("railway"@, "stop"@, "halt"@, "station"@, "subway_stop"@)
    ||| tags.val("tram_stop"@) is Some
    ||| tags.val("stop"@) is Some
}

fn is_rail_station(tags: &Tags) -> (r: bool)
    ensures
        r == rail_station(*tags),
{
    tags.is("public_transport", "stop_position")
        || tags.is4("railway", "stop", "halt", "station", "subway_stop")
        || tags.contains_key("tram_stop")
        || tags.contains_key("stop")
}

/// Stations of trams, subways and funiculars.
pub open spec fn tram_station(tags: Tags) -> bool {
    ||| tags.has("public_transport"@, "stop_position"@)
    ||| tags.has2("station"@, "subway"@, "tram"@)
    ||| tags.has5("railway"@, "stop"@, "halt"@, "station"@, "tram_stop"@, "subway_stop"@)
    ||| tags.val("tram_stop"@) is Some
    ||| tags.val("stop"@) is Some
}

fn is_tram_station(tags: &Tags) -> (r: bool)
    ensures
        r == tram_station(*tags),
{
    tags.is("public_transport", "stop_position")
        || tags.is2("station", "subway", "tram")
        || tags.is5("railway", "stop", "halt", "station", "tram_stop", "subway_stop")
        || tags.contains_key("tram_stop")
        || tags.contains_key("stop")
}

/// Landings of ferries.
pub open spec fn ferry_station(tags: Tags) -> bool {
    ||| tags.has("ferry"@, "yes"@)
    ||| tags.has("public_transport"@, "stop_position"@)
    ||| tags.has("amenity"@, "ferry_terminal"@)
    ||| tags.has("mooring"@, "ferry"@)
    ||| tags.has("station"@, "ferry"@)
    ||| tags.has3("railway"@, "stop"@, "halt"@, "station"@)
    ||| tags.val("stop"@) is Some
}

fn is_ferry_station(tags: &Tags) -> (r: bool)
    ensures
        r == ferry_station(*tags),
{
    tags.is("ferry", "yes")
        || tags.is("public_transport", "stop_position")
        || tags.is("amenity", "ferry_terminal")
        || tags.is("mooring", "ferry")
        || tags.is("station", "ferry")
        || tags.is3("railway", "stop", "halt", "station")
        || tags.contains_key("stop")
}

/// The flags of a node in a profile: stations, and on roads also turning cycles.
pub open spec fn node_flags_in(tags: Tags, profile: OsmProfile) -> int {
    let station = match profile {
        OsmProfile::Rail => rail_station(tags),
        OsmProfile::TramSubway => tram_station(tags),
        OsmProfile::Funicular => tram_station(tags),
        OsmProfile::Gondola => tags.has2("aerialway"@, "station"@, "stop"@) || tram_station(tags),
        OsmProfile::Ferry => ferry_station(tags),
        _ => bus_station(tags),
    };
    if profile == OsmProfile::Bus {
        flags_of(tags)
    } else if station {
        NODE_FLAG_STATION as int
    } else {
        0
    }
}

/// What puts a way on a level on railways.
pub open spec fn rail_rule(tags: Tags, level: int) -> bool {
    if level == 1 {
        tags.has("usage"@, "branch"@)
    } else if level == 2 {
        ||| tags.has("railway"@, "tram"@)
        ||| tags.has("service"@, "siding"@)
    } else if level == 3 {
        tags.has2("service"@, "crossover"@, "yard"@)
    } else if level == 5 {
        ||| tags.has3("usage"@, "industrial"@, "military"@, "test"@)
        ||| tags.has("service"@, "spur"@)
        ||| tags.has("railway:traffic_mode"@, "freight"@)
    } else {
        false
    }
}

fn rail_level(tags: &Tags) -> (level: i32)
    ensures
        level == lowest(|n: int| rail_rule(*tags, n)),
{
    if tags.is("usage", "branch") {
        return 1;
    }
    if tags.is("railway", "tram")
            || tags.is("service", "siding") {
        return 2;
    }
    if tags.is2("service", "crossover", "yard") {
        return 3;
    }
    if tags.is3("usage", "industrial", "military", "test")
            || tags.is("service", "spur")
            || tags.is("railway:traffic_mode", "freight") {
        return 5;
    }
    0
}

/// What puts a way on a level on tracks of trams and subways.
pub open spec fn track_rule(tags: Tags, level: int) -> bool {
    if level == 2 {
        tags.has("service"@, "siding"@)
    } else if level == 3 {
        ||| tags.has("railway"@, "funicular"@)
        ||| tags.has("route"@, "funicular"@)
    } else if level == 5 {
        tags.has2("service"@, "crossover"@, "yard"@)
    } else {
        false
    }
}

fn track_level(tags: &Tags) -> (level: i32)
    ensures
        level == lowest(|n: int| track_rule(*tags, n)),
{
    if tags.is("service", "siding") {
        return 2;
    }
    if tags.is("railway", "funicular")
            || tags.is("route", "funicular") {
        return 3;
    }
    if tags.is2("service", "crossover", "yard") {
        return 5;
    }
    0
}

/// What puts a way on a level on funiculars.
pub open spec fn slope_rule(tags: Tags, level: int) -> bool {
    if level == 2 {
        tags.has("service"@, "siding"@)
    } else if level == 3 {
        ||| tags.has4("route"@, "tram"@, "narrow_gauge"@, "subway"@, "light_rail"@)
        ||| tags.has5("railway"@, "narrow_gauge"@, "subway"@, "light_rail"@, "tram"@, "station"@)
        ||| tags.has2("railway"@, "halt"@, "tram_stop"@)
        ||| tags.has("subway"@, "yes"@)
        ||| tags.has("tram"@, "yes"@)
    } else if level == 5 {
        tags.has2("service"@, "crossover"@, "yard"@)
    } else {
        false
    }
}

fn slope_level(tags: &Tags) -> (level: i32)
    ensures
        level == lowest(|n: int| slope_rule(*tags, n)),
{
    if tags.is("service", "siding") {
        return 2;
    }
    if tags.is4("route", "tram", "narrow_gauge", "subway", "light_rail")
            || tags.is5("railway", "narrow_gauge", "subway", "light_rail", "tram", "station")
            || tags.is2("railway", "halt", "tram_stop")
            || tags.is("subway", "yes")
            || tags.is("tram", "yes") {
        return 3;
    }
    if tags.is2("service", "crossover", "yard") {
        return 5;
    }
    0
}

/// The highest level that the rules give, or zero if they give none.
pub open spec fn highest(gives: spec_fn(int) -> bool) -> int {
    if gives(7) {
        7
    } else if gives(6) {
        6
    } else if gives(5) {
        5
    } else if gives(4) {
        4
    } else if gives(3) {
        3
    } else if gives(2) {
        2
    } else if gives(1) {
        1
    } else {
        0
    }
}

/// The level of a way in a profile: the lowest that a rule gives, but the highest in a profile of
/// several modes.
pub open spec fn level_in(tags: Tags, profile: OsmProfile) -> int {
    match profile {
        OsmProfile::Rail => lowest(|n: int| rail_rule(tags, n)),
        OsmProfile::TramSubway => lowest(|n: int| track_rule(tags, n)),
        OsmProfile::Bus => lowest(|n: int| bus_rule(tags, n)),
        OsmProfile::Ferry => 0,
        OsmProfile::Gondola => 0,
        OsmProfile::Funicular => lowest(|n: int| slope_rule(tags, n)),
        OsmProfile::Generic(_) => highest(|n: int| rail_rule(tags, n)),
    }
}

/// Whether a track is expressly open both ways.
pub open spec fn two_way_track(tags: Tags) -> bool {
    ||| tags.has2("oneway"@, "no"@, "false"@)
    ||| tags.has("railway:preferred_direction"@, "both"@)
    ||| tags.has("railway:bidirectional"@, "regular"@)
}

fn is_two_way_track(tags: &Tags) -> (r: bool)
    ensures
        r == two_way_track(*tags),
{
    tags.is2("oneway", "no", "false")
        || tags.is("railway:preferred_direction", "both")
        || tags.is("railway:bidirectional", "regular")
}

/// Which way a railway may be used: both (0), forward (1) or backward (2). A direction against that of
/// the way counts as both.
pub open spec fn rail_direction(tags: Tags) -> u8 {
    if two_way_track(tags) || tags.has("oneway"@, "-1"@) {
        0
    } else if tags.has("railway:preferred_direction"@, "backward"@) {
        2
    } else if tags.has("oneway"@, "yes"@) || tags.has("railway:preferred_direction"@, "forward"@) {
        1
    } else {
        0
    }
}

/// Which way is preferred: none (0), forward (1) or backward (2).
pub open spec fn preferred_direction_of(tags: Tags) -> u8 {
    if tags.has("railway:preferred_direction"@, "forward"@) {
        1
    } else if tags.has("railway:preferred_direction"@, "backward"@) {
        2
    } else {
        0
    }
}

/// Which way a way may be used in a profile of several modes.
pub open spec fn general_direction(tags: Tags) -> u8 {
    if two_way_track(tags) {
        0
    } else if tags.has3("oneway"@, "yes"@, "true"@, "1"@) {
        1
    } else if tags.has("oneway"@, "-1"@) {
        2
    } else {
        preferred_direction_of(tags)
    }
}

/// Which way a way may be used in a profile.
pub open spec fn direction_in(tags: Tags, profile: OsmProfile) -> u8 {
    match profile {
        OsmProfile::Rail => rail_direction(tags),
        OsmProfile::Bus => bus_direction(tags),
        OsmProfile::Ferry => 0,
        OsmProfile::Generic(_) => general_direction(tags),
        _ => if tags.has("oneway"@, "yes"@) {
            1
        } else {
            0
        },
    }
}

/// The speed of a level in a profile, in km/h.
pub open spec fn speed_in(level: int, profile: OsmProfile) -> u32 {
    match profile {
        OsmProfile::Rail => rail_speeds()[clamped(level)],
        OsmProfile::Ferry => ferry_speeds()[clamped(level)],
        _ => road_speeds()[clamped(level)],
    }
}

/// A quotient, rounded up.
pub open spec fn ceil_div(a: nat, b: nat) -> nat
    recommends
        b > 0,
{
    ((a + b - 1) / (b as int)) as nat
}

/// What it costs to travel a length in millimetres at a speed in thousandths of km/h: the time in
/// tenths of seconds, rounded up.
pub open spec fn travel_cost(length_mm: nat, speed: nat) -> u32 {
    capped(ceil_div(36 * length_mm, speed))
}

/// The cost of travel is the time that it takes, in tenths of seconds, and not a tenth more: at a thousandth
/// of km/h, a tenth of a second takes one up to a thirty-sixth of a millimetre.
pub proof fn lemma_travel_cost(length_mm: nat, speed: nat)
    requires
        speed > 0,
    ensures
        travel_cost(length_mm, speed) < u32::MAX ==> travel_cost(length_mm, speed) * speed >= 36
            * length_mm,
        travel_cost(length_mm, speed) > 0 ==> (travel_cost(length_mm, speed) - 1) * speed < 36
            * length_mm,
{
    let a = (36 * length_mm) as int;
    let b = speed as int;
    let q = ceil_div(36 * length_mm, speed) as int;
    assert(q * b >= a && (q == 0 || (q - 1) * b < a)) by (nonlinear_arith)
        requires
            q == (a + b - 1) / b,
            b > 0,
            a >= 0,
    ;
    if q >= u32::MAX {
        assert((u32::MAX - 1) * b <= (q - 1) * b) by (nonlinear_arith)
            requires
                q >= u32::MAX,
                b > 0,
        ;
    }
}

/// What it costs to travel a length in millimetres at a speed in thousandths of km/h.
pub fn cost_at_speed(length_mm: u64, speed: u64) -> (r: u32)
    requires
        speed > 0,
    ensures
        r == travel_cost(length_mm as nat, speed as nat),
{
    let a: u128 = 36 * (length_mm as u128);
    let b: u128 = speed as u128;
    let q: u128 = (a + b - 1) / b;
    if q >= u32::MAX as u128 {
        u32::MAX
    } else {
        q as u32
    }
}

/// The profile that serves route types.
pub fn profile_for_route_types(types: &Vec<RouteType>) -> (r: OsmProfile)
    ensures
        r == profile_of(types@),
{
    if are_all_of(types, MotCategory::Rail, MotCategory::Rail) {
        return OsmProfile::Rail;
    }
    if are_all_of(types, MotCategory::Tram, MotCategory::Subway) {
        return OsmProfile::TramSubway;
    }
    if are_all_of(types, MotCategory::Ferry, MotCategory::Ferry) {
        return OsmProfile::Ferry;
    }
    if are_all_of(types, MotCategory::Gondola, MotCategory::CableCar) {
        return OsmProfile::Gondola;
    }
    if are_all_of(types, MotCategory::Funicular, MotCategory::Funicular) {
        return OsmProfile::Funicular;
    }
    let mut mask: u8 = 0;
    let mut i: usize = 0;
    assert(types@.take(0) =~= Seq::<RouteType>::empty());
    while i < types.len()
        invariant
            i <= types@.len(),
            mask == mask_of(types@.take(i as int)),
        decreases types@.len() - i,
    {
        assert(types@.take(i + 1).drop_last() =~= types@.take(i as int));
        mask = mask | bit_of(map_route_type_to_category(types[i]));
        i = i + 1;
    }
    assert(types@.take(i as int) =~= types@);
    OsmProfile::Generic(mask)
}

/// Whether a relation is kept in a profile.
pub fn relation_kept_for_profile(tags: &Tags, profile: OsmProfile) -> (r: bool)
    ensures
        r == relation_kept(*tags, profile),
{
    match profile {
        OsmProfile::Rail => !is_off_rails(tags) && (is_on_rails(tags) || tags.is(
            "public_transport",
            "stop_area",
        )),
        OsmProfile::TramSubway => !is_off_tracks(tags) && is_on_tracks(tags),
        OsmProfile::Bus => !is_off_roads(tags) && (is_bus_infrastructure(tags)
            || is_restriction_relation(tags)),
        OsmProfile::Ferry => is_on_water(tags),
        OsmProfile::Gondola => !is_off_tracks(tags) && is_in_the_air(tags),
        OsmProfile::Funicular => !is_off_tracks(tags) && is_on_slopes(tags),
        OsmProfile::Generic(_) => tags.contains_key("route"),
    }
}

/// Whether a relation is kept without what belongs to it.
pub fn relation_is_flat(tags: &Tags, profile: OsmProfile) -> (r: bool)
    ensures
        r == relation_flat(*tags, profile),
{
    profile == OsmProfile::Rail && tags.is("public_transport", "stop_area")
}

fn exempts(value: &str) -> (r: bool)
    ensures
        r == exempts_buses(value@),
{
    let parts = split_trimmed(value, ';');
    let mut i: usize = 0;
    while i < parts.len()
        invariant
            i <= parts@.len(),
            parts@.len() == split_on(value@, ';').len(),
            forall|k: int|
                #![trigger parts@[k]]
                0 <= k < parts@.len() ==> parts@[k]@ == trimmed(split_on(value@, ';')[k]),
            forall|k: int|
                0 <= k < i ==> #[trigger] trimmed(split_on(value@, ';')[k]) != "bus"@ && trimmed(
                    split_on(value@, ';')[k],
                ) != "psv"@,
        decreases parts@.len() - i,
    {
        assert(parts@[i as int]@ == trimmed(split_on(value@, ';')[i as int]));
        if str_eq(parts[i], "bus") || str_eq(parts[i], "psv") {
            return true;
        }
        i = i + 1;
    }
    false
}

/// Whether a relation restricts turns of buses.
pub fn bus_restriction_relation_kept(tags: &Tags) -> (r: bool)
    ensures
        r == restricts_buses(*tags),
{
    if !tags.is("type", "restriction") {
        return false;
    }
    if let Some(value) = tags.get("except") {
        if exempts(value.as_str()) {
            return false;
        }
    }
    is_restricts_turn(tags)
}

/// The flags of a node in a profile.
pub fn node_flags_for_profile(tags: &Tags, profile: OsmProfile) -> (flags: u8)
    ensures
        flags == node_flags_in(*tags, profile),
{
    let station = match profile {
        OsmProfile::Bus => {
            return node_flags(tags);
        },
        OsmProfile::Rail => is_rail_station(tags),
        OsmProfile::TramSubway => is_tram_station(tags),
        OsmProfile::Funicular => is_tram_station(tags),
        OsmProfile::Gondola => tags.is2("aerialway", "station", "stop") || is_tram_station(tags),
        OsmProfile::Ferry => is_ferry_station(tags),
        OsmProfile::Generic(_) => is_bus_station(tags),
    };
    if station {
        NODE_FLAG_STATION
    } else {
        0
    }
}

/// Whether a way is a platform or a station rather than a track or a road.
pub fn is_platform_way(way: &Way) -> (r: bool)
    ensures
        r == platform(way.tags),
{
    is_platform(&way.tags)
}

/// Whether a way is a track, a road, a line in the air or on water, and no platform.
pub fn is_infrastructure_way(way: &Way) -> (r: bool)
    ensures
        r == infrastructure(way.tags),
{
    !is_platform(&way.tags) && is_infrastructure_tags(&way.tags)
}

/// Whether a way is dropped in a profile.
pub fn way_dropped_for_profile(way: &Way, profile: OsmProfile) -> (r: bool)
    ensures
        r == way_dropped(way.tags, profile),
{
    match profile {
        OsmProfile::Rail => is_off_rails(&way.tags),
        OsmProfile::TramSubway => is_off_tracks(&way.tags),
        OsmProfile::Bus => OsmFilter::bus_way_dropped(&way.tags),
        OsmProfile::Ferry => false,
        OsmProfile::Gondola => is_off_tracks(&way.tags),
        OsmProfile::Funicular => is_off_tracks(&way.tags),
        OsmProfile::Generic(_) => is_platform(&way.tags),
    }
}

/// Which modes may use a way: rail, tram, subway, bus, ferry and gondola.
pub fn classify_way(way: &Way, ferry_ways: &IdSet) -> (r: (bool, bool, bool, bool, bool, bool))
    ensures
        r.0 == way.tags.has3("railway"@, "rail"@, "light_rail"@, "narrow_gauge"@),
        r.1 == way.tags.has("railway"@, "tram"@),
        r.2 == way.tags.has("railway"@, "subway"@),
        r.3 == is_bus_way(way.tags, way.id, ids_of(*ferry_ways)),
        r.4 == is_ferry_way(way.tags, way.id, ids_of(*ferry_ways)),
        r.5 == (way.tags.val("aerialway"@) is Some),
{
    let rail = way.tags.is3("railway", "rail", "light_rail", "narrow_gauge");
    let tram = way.tags.is("railway", "tram");
    let metro = way.tags.is("railway", "subway");
    let ferry = way.tags.is("route", "ferry") || ids_contains(ferry_ways, way.id);
    let gondola = way.tags.contains_key("aerialway");
    let bus = !ferry && !gondola && OsmFilter::bus_way_kept(&way.tags);
    (rail, tram, metro, bus, ferry, gondola)
}

/// The bits of the modes that may use a way.
pub fn way_mode_mask(way: &Way, ferry_ways: &IdSet) -> (r: u8)
    ensures
        r == way_modes(way.tags, way.id, ids_of(*ferry_ways)),
{
    let (rail, tram, metro, bus, ferry, gondola) = classify_way(way, ferry_ways);
    (if rail {
        MODE_RAIL
    } else {
        0
    }) | (if tram {
        MODE_TRAM
    } else {
        0
    }) | (if metro {
        MODE_SUBWAY
    } else {
        0
    }) | (if bus {
        MODE_BUS
    } else {
        0
    }) | (if ferry {
        MODE_FERRY
    } else {
        0
    }) | (if gondola {
        MODE_GONDOLA
    } else {
        0
    })
}

/// Whether a way is kept in a profile.
pub fn way_kept_for_profile(way: &Way, profile: OsmProfile, ferry_ways: &IdSet) -> (r: bool)
    ensures
        r == way_kept(way.tags, way.id, profile, ids_of(*ferry_ways)),
{
    if way_dropped_for_profile(way, profile) {
        return false;
    }
    match profile {
        OsmProfile::Rail => is_on_rails(&way.tags),
        OsmProfile::TramSubway => is_on_tracks(&way.tags),
        OsmProfile::Bus => OsmFilter::bus_way_kept(&way.tags),
        OsmProfile::Ferry => is_on_water(&way.tags) || ids_contains(ferry_ways, way.id),
        OsmProfile::Gondola => is_in_the_air(&way.tags),
        OsmProfile::Funicular => is_on_slopes(&way.tags),
        OsmProfile::Generic(mask) => is_infrastructure_way(way) && way_mode_mask(way, ferry_ways)
            & mask != 0,
    }
}

/// The level of a way in a profile of several modes: the highest one that a rule gives.
pub fn parse_level(tags: &Tags) -> (level: i32)
    ensures
        level == highest(|n: int| rail_rule(*tags, n)),
{
    if tags.is3("usage", "industrial", "military", "test")
            || tags.is("service", "spur")
            || tags.is("railway:traffic_mode", "freight") {
        return 5;
    }
    if tags.is2("service", "crossover", "yard") {
        return 3;
    }
    if tags.is("railway", "tram")
            || tags.is("service", "siding") {
        return 2;
    }
    if tags.is("usage", "branch") {
        return 1;
    }
    0
}

/// The level of a way in a profile.
pub fn routing_level(tags: &Tags, profile: OsmProfile) -> (level: i32)
    ensures
        level == level_in(*tags, profile),
{
    match profile {
        OsmProfile::Rail => rail_level(tags),
        OsmProfile::TramSubway => track_level(tags),
        OsmProfile::Bus => bus_level(tags) as i32,
        OsmProfile::Ferry => 0,
        OsmProfile::Gondola => 0,
        OsmProfile::Funicular => slope_level(tags),
        OsmProfile::Generic(_) => parse_level(tags),
    }
}

/// Which way is preferred.
pub fn parse_preferred_direction(tags: &Tags) -> (r: u8)
    ensures
        r == preferred_direction_of(*tags),
{
    if tags.is("railway:preferred_direction", "forward") {
        1
    } else if tags.is("railway:preferred_direction", "backward") {
        2
    } else {
        0
    }
}

/// Which way a way may be used in a profile of several modes.
pub fn parse_oneway(tags: &Tags) -> (r: u8)
    ensures
        r == general_direction(*tags),
{
    if is_two_way_track(tags) {
        return 0;
    }
    if tags.is3("oneway", "yes", "true", "1") {
        return 1;
    }
    if tags.is("oneway", "-1") {
        return 2;
    }
    parse_preferred_direction(tags)
}

/// Which way a way may be used in a profile.
pub fn oneway(tags: &Tags, profile: OsmProfile) -> (r: u8)
    ensures
        r == direction_in(*tags, profile),
{
    match profile {
        OsmProfile::Rail => {
            if is_two_way_track(tags) || tags.is("oneway", "-1") {
                0
            } else if tags.is("railway:preferred_direction", "backward") {
                2
            } else if tags.is("oneway", "yes") || tags.is(
                "railway:preferred_direction",
                "forward",
            ) {
                1
            } else {
                0
            }
        },
        OsmProfile::Bus => bus_oneway(tags),
        OsmProfile::Ferry => 0,
        OsmProfile::Generic(_) => parse_oneway(tags),
        _ => {
            if tags.is("oneway", "yes") {
                1
            } else {
                0
            }
        },
    }
}

/// The speed of a level in a profile, in km/h.
pub fn speed_for_profile(level: i32, profile: OsmProfile) -> (r: u32)
    ensures
        r == speed_in(level as int, profile),
        r >= 5,
{
    let rail: [u32; 8] = [120, 90, 65, 50, 30, 20, 10, 5];
    let road: [u32; 8] = [85, 70, 55, 40, 30, 20, 10, 5];
    let ferry: [u32; 8] = [70, 60, 50, 35, 30, 25, 10, 5];
    assert(rail@ =~= rail_speeds());
    assert(road@ =~= road_speeds());
    assert(ferry@ =~= ferry_speeds());
    let i: usize = clamp_level(level);
    match profile {
        OsmProfile::Rail => rail[i],
        OsmProfile::Ferry => ferry[i],
        _ => road[i],
    }
}

/// What it costs to travel a length in millimetres on a level of a profile.
pub fn cost_for_profile(level: i32, profile: OsmProfile, length_mm: u64) -> (r: u32)
    ensures
        r == travel_cost(length_mm as nat, (1000 * speed_in(level as int, profile)) as nat),
{
    let speed: u32 = speed_for_profile(level, profile);
    cost_at_speed(length_mm, 1000 * (speed as u64))
}

/// A mode is among those of types of routes if and only if it is that of one of them.
pub proof fn lemma_mask_of(types: Seq<RouteType>, mode: u8)
    ensures
        mask_of(types) & mode != 0 <==> exists|i: int|
            0 <= i < types.len() && mode_bit(category_of(#[trigger] types[i])) & mode != 0,
    decreases types.len(),
{
    if types.len() == 0 {
        assert(0u8 & mode == 0) by (bit_vector);
    } else {
        let rest = types.drop_last();
        lemma_mask_of(rest, mode);
        let x = mask_of(rest);
        let y = mode_bit(category_of(types.last()));
        assert((x | y) & mode != 0 <==> x & mode != 0 || y & mode != 0) by (bit_vector);
        assert(types[types.len() - 1] == types.last());
        if exists|i: int|
            0 <= i < rest.len() && mode_bit(category_of(#[trigger] rest[i])) & mode != 0 {
            let i = choose|i: int|
                0 <= i < rest.len() && mode_bit(category_of(#[trigger] rest[i])) & mode != 0;
            assert(types[i] == rest[i]);
        }
        if exists|i: int|
            0 <= i < types.len() && mode_bit(category_of(#[trigger] types[i])) & mode != 0 {
            let i = choose|i: int|
                0 <= i < types.len() && mode_bit(category_of(#[trigger] types[i])) & mode != 0;
            if i < rest.len() {
                assert(rest[i] == types[i]);
            }
        }
    }
}

/// A mode may use a way if and only if the way is of its kind.
pub proof fn lemma_way_modes(tags: Tags, id: i64, ferry_ways: Set<i64>)
    ensures
        ({
            let m = way_modes(tags, id, ferry_ways);
            let rail = tags.val("railway"@);
            &&& m & MODE_RAIL != 0 <==> rail == Some("rail"@) || rail == Some("light_rail"@) || rail
                == Some("narrow_gauge"@)
            &&& m & MODE_TRAM != 0 <==> rail == Some("tram"@)
            &&& m & MODE_SUBWAY != 0 <==> rail == Some("subway"@)
            &&& m & MODE_BUS != 0 <==> is_bus_way(tags, id, ferry_ways)
            &&& m & MODE_FERRY != 0 <==> is_ferry_way(tags, id, ferry_ways)
            &&& m & MODE_GONDOLA != 0 <==> tags.val("aerialway"@) is Some
        }),
{
    let rail = tags.val("railway"@);
    crate::osm_load::lemma_modes_apart(
        crate::osm_load::mode_if(
            tags.has3("railway"@, "rail"@, "light_rail"@, "narrow_gauge"@),
            MODE_RAIL,
        ),
        crate::osm_load::mode_if(tags.has("railway"@, "tram"@), MODE_TRAM),
        crate::osm_load::mode_if(tags.has("railway"@, "subway"@), MODE_SUBWAY),
        crate::osm_load::mode_if(is_bus_way(tags, id, ferry_ways), MODE_BUS),
        crate::osm_load::mode_if(is_ferry_way(tags, id, ferry_ways), MODE_FERRY),
        crate::osm_load::mode_if(tags.val("aerialway"@) is Some, MODE_GONDOLA),
    );
}

} // verus!
