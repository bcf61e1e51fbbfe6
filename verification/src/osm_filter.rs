//! Which ways are kept for buses, and which are dropped.

use crate::tags::Tags;
use crate::text::str_eq;
use vstd::prelude::*;

verus! {

/// What an access tag says.
#[derive(Debug, Clone, Copy, PartialEq, Eq, Structural)]
pub enum AccessDecision {
    Allow,
    Deny,
    Unspecified,
}

/// What the value of an access tag says: `no` denies; values that describe access, restricted or not,
/// allow; others say nothing.
pub open spec fn decision_of(value: Option<Seq<char>>) -> AccessDecision {
    match value {
        None => AccessDecision::Unspecified,
        Some(v) => if v == "no"@ {
            AccessDecision::Deny
        } else if v == "yes"@ || v == "designated"@ || v == "permissive"@ || v == "private"@ || v == "destination"@ || v == "delivery"@ || v == "customers"@ || v == "permit"@ || v == "bus"@ || v == "psv"@ {
            AccessDecision::Allow
        } else {
            AccessDecision::Unspecified
        },
    }
}

/// What the access tags say of buses: the most specific tag that says anything decides.
pub open spec fn bus_access_of(tags: Tags) -> AccessDecision {
    if decision_of(tags.val("bus"@)) != AccessDecision::Unspecified {
        decision_of(tags.val("bus"@))
    } else if decision_of(tags.val("psv"@)) != AccessDecision::Unspecified {
        decision_of(tags.val("psv"@))
    } else if decision_of(tags.val("motor_vehicle"@)) != AccessDecision::Unspecified {
        decision_of(tags.val("motor_vehicle"@))
    } else if decision_of(tags.val("vehicle"@)) != AccessDecision::Unspecified {
        decision_of(tags.val("vehicle"@))
    } else {
        decision_of(tags.val("access"@))
    }
}

/// Whether a way is of a kind that is dropped for buses, whatever its access.
pub open spec fn never_for_buses(tags: Tags) -> bool {
    ||| tags.has("area"@, "yes"@)
    ||| tags.has("public_transport"@, "stop_area"@)
    ||| tags.has("type"@, "multipolygon"@)
    ||| tags.has2("railway"@, "platform"@, "station"@)
    ||| tags.has3("highway"@, "proposed"@, "footway"@, "construction"@)
    ||| tags.has2("building"@, "yes"@, "train_station"@)
    ||| tags.has2("leisure"@, "garden"@, "park"@)
}

fn is_never_for_buses(tags: &Tags) -> (r: bool)
    ensures
        r == never_for_buses(*tags),
{
    tags.is("area", "yes")
        || tags.is("public_transport", "stop_area")
        || tags.is("type", "multipolygon")
        || tags.is2("railway", "platform", "station")
        || tags.is3("highway", "proposed", "footway", "construction")
        || tags.is2("building", "yes", "train_station")
        || tags.is2("leisure", "garden", "park")
}

/// Whether a way or a relation is of a kind that buses use.
pub open spec fn bus_infrastructure(tags: Tags) -> bool {
    ||| tags.has5("highway"@, "motorway"@, "trunk"@, "primary"@, "secondary"@, "tertiary"@)
    ||| tags.has5("highway"@, "residential"@, "living_street"@, "unclassified"@, "motorway_link"@, "trunk_link"@)
    ||| tags.has5("highway"@, "primary_link"@, "secondary_link"@, "tertiary_link"@, "residential_link"@, "bus_guideway"@)
    ||| tags.has3("way"@, "primary"@, "seconday"@, "bus_guideway"@)
    ||| tags.val("busway"@) is Some
    ||| tags.has2("psv"@, "yes"@, "designated"@)
    ||| tags.has2("bus"@, "yes"@, "designated"@)
    ||| tags.has2("minibus"@, "yes"@, "designated"@)
    ||| tags.has("trolley_wire"@, "yes"@)
    ||| tags.has("trolleywire"@, "yes"@)
    ||| tags.has("trolleybus"@, "yes"@)
    ||| tags.has("trolley_bus"@, "yes"@)
    ||| tags.has2("route"@, "bus"@, "trolleybus"@)
    ||| tags.has3("bus:lanes"@, "yes"@, "designated"@, "1"@)
    ||| tags.has3("lanes:bus"@, "1"@, "2"@, "3"@)
    ||| tags.has3("lanes:psv"@, "1"@, "2"@, "3"@)
    ||| tags.val("bus_stop"@) is Some
    ||| tags.val("stop"@) is Some
    ||| tags.has("public_transport"@, "stop_position"@)
    ||| tags.has("highway"@, "bus_stop"@)
}

pub(crate) fn is_bus_infrastructure(tags: &Tags) -> (r: bool)
    ensures
        r == bus_infrastructure(*tags),
{
    tags.is5("highway", "motorway", "trunk", "primary", "secondary", "tertiary")
        || tags.is5("highway", "residential", "living_street", "unclassified", "motorway_link", "trunk_link")
        || tags.is5("highway", "primary_link", "secondary_link", "tertiary_link", "residential_link", "bus_guideway")
        || tags.is3("way", "primary", "seconday", "bus_guideway")
        || tags.contains_key("busway")
        || tags.is2("psv", "yes", "designated")
        || tags.is2("bus", "yes", "designated")
        || tags.is2("minibus", "yes", "designated")
        || tags.is("trolley_wire", "yes")
        || tags.is("trolleywire", "yes")
        || tags.is("trolleybus", "yes")
        || tags.is("trolley_bus", "yes")
        || tags.is2("route", "bus", "trolleybus")
        || tags.is3("bus:lanes", "yes", "designated", "1")
        || tags.is3("lanes:bus", "1", "2", "3")
        || tags.is3("lanes:psv", "1", "2", "3")
        || tags.contains_key("bus_stop")
        || tags.contains_key("stop")
        || tags.is("public_transport", "stop_position")
        || tags.is("highway", "bus_stop")
}

/// Whether a way is dropped for buses: access is denied, or it is of a kind that is dropped.
pub open spec fn bus_drops(tags: Tags) -> bool {
    bus_access_of(tags) == AccessDecision::Deny || never_for_buses(tags)
}

/// Whether a way is kept for buses. What is dropped is not kept, whatever its kind.
pub open spec fn bus_keeps(tags: Tags) -> bool {
    !bus_drops(tags) && bus_infrastructure(tags)
}

/// The rules that keep and drop ways.
pub struct OsmFilter;

impl OsmFilter {
    /// What one access tag says.
    pub fn access_decision(tags: &Tags, key: &str) -> (r: AccessDecision)
        ensures
            r == decision_of(tags.val(key@)),
    {
        match tags.get(key) {
            None => AccessDecision::Unspecified,
            Some(value) => {
                let v = value.as_str();
                if str_eq(v, "no") {
                    AccessDecision::Deny
                } else if str_eq(v, "yes")
                    || str_eq(v, "designated")
                    || str_eq(v, "permissive")
                    || str_eq(v, "private")
                    || str_eq(v, "destination")
                    || str_eq(v, "delivery")
                    || str_eq(v, "customers")
                    || str_eq(v, "permit")
                    || str_eq(v, "bus")
                    || str_eq(v, "psv") {
                    AccessDecision::Allow
                } else {
                    AccessDecision::Unspecified
                }
            },
        }
    }

    /// What the access tags say of buses.
    pub fn bus_access(tags: &Tags) -> (r: AccessDecision)
        ensures
            r == bus_access_of(*tags),
    {
        let bus = Self::access_decision(tags, "bus");
        if bus != AccessDecision::Unspecified {
            return bus;
        }
        let psv = Self::access_decision(tags, "psv");
        if psv != AccessDecision::Unspecified {
            return psv;
        }
        let motor = Self::access_decision(tags, "motor_vehicle");
        if motor != AccessDecision::Unspecified {
            return motor;
        }
        let vehicle = Self::access_decision(tags, "vehicle");
        if vehicle != AccessDecision::Unspecified {
            return vehicle;
        }
        Self::access_decision(tags, "access")
    }

    /// Whether a way is dropped for buses.
    pub fn bus_way_dropped(tags: &Tags) -> (r: bool)
        ensures
            r == bus_drops(*tags),
    {
        Self::bus_access(tags) == AccessDecision::Deny || is_never_for_buses(tags)
    }

    /// Whether a way is kept for buses.
    pub fn bus_way_kept(tags: &Tags) -> (r: bool)
        ensures
            r == bus_keeps(*tags),
    {
        !Self::bus_way_dropped(tags) && is_bus_infrastructure(tags)
    }
}

/// A tag on buses that says anything overrides every other access tag: two ways that agree on it have
/// the same access.
pub proof fn lemma_bus_tag_overrides(a: Tags, b: Tags)
    requires
        a.val("bus"@) == b.val("bus"@),
        decision_of(a.val("bus"@)) != AccessDecision::Unspecified,
    ensures
        bus_access_of(a) == bus_access_of(b),
{
}

/// Tags outside the hierarchy of access, such as those for pedestrians, have no bearing on the access
/// of buses.
pub proof fn lemma_other_tags_irrelevant(a: Tags, b: Tags)
    requires
        a.val("bus"@) == b.val("bus"@),
        a.val("psv"@) == b.val("psv"@),
        a.val("motor_vehicle"@) == b.val("motor_vehicle"@),
        a.val("vehicle"@) == b.val("vehicle"@),
        a.val("access"@) == b.val("access"@),
    ensures
        bus_access_of(a) == bus_access_of(b),
{
}

} // verus!
