use pfaedle::osm_filter::{AccessDecision, OsmFilter};
use pfaedle::tags::Tags;

fn tags(values: &[(&str, &str)]) -> Tags {
    let mut tags = Tags::new();
    for &(key, value) in values {
        tags.insert(key.into(), value.into());
    }
    tags
}

#[test]
fn rejects_motor_vehicle_no_on_normal_bus_road() {
    let tags = tags(&[("highway", "residential"), ("motor_vehicle", "no")]);
    assert!(OsmFilter::bus_way_dropped(&tags));
    assert!(!OsmFilter::bus_way_kept(&tags));
}

#[test]
fn rejects_relation_only_path_when_motor_vehicles_are_forbidden() {
    let tags = tags(&[("highway", "path"), ("foot", "designated"), ("motor_vehicle", "no")]);
    assert!(OsmFilter::bus_way_dropped(&tags));
}

#[test]
fn bus_permission_overrides_general_motor_vehicle_prohibition() {
    let tags = tags(&[("highway", "residential"), ("motor_vehicle", "no"), ("bus", "yes")]);
    assert!(!OsmFilter::bus_way_dropped(&tags));
    assert!(OsmFilter::bus_way_kept(&tags));
}

#[test]
fn psv_permission_overrides_vehicle_prohibition() {
    let tags = tags(&[("vehicle", "no"), ("psv", "designated")]);
    assert!(!OsmFilter::bus_way_dropped(&tags));
    assert!(OsmFilter::bus_way_kept(&tags));
}

#[test]
fn motor_vehicle_permission_overrides_access_no() {
    let tags = tags(&[("highway", "residential"), ("access", "no"), ("motor_vehicle", "yes")]);
    assert!(!OsmFilter::bus_way_dropped(&tags));
    assert!(OsmFilter::bus_way_kept(&tags));
}

#[test]
fn bus_no_overrides_less_specific_psv_and_vehicle_permissions() {
    let tags =
        tags(&[("highway", "residential"), ("vehicle", "yes"), ("psv", "yes"), ("bus", "no")]);
    assert!(OsmFilter::bus_way_dropped(&tags));
}

#[test]
fn upstream_footway_drop_still_wins_over_bus_yes() {
    let tags = tags(&[("highway", "footway"), ("bus", "yes")]);
    assert!(OsmFilter::bus_way_dropped(&tags));
    assert!(!OsmFilter::bus_way_kept(&tags));
}

#[test]
fn private_access_remains_routable_for_transit_matching() {
    let tags = tags(&[("highway", "residential"), ("access", "private")]);
    assert!(!OsmFilter::bus_way_dropped(&tags));
    assert!(OsmFilter::bus_way_kept(&tags));
}

#[test]
fn access_is_allowed_forbidden_or_left_open() {
    let t = tags(&[("bus", "yes"), ("psv", "no"), ("vehicle", "who knows")]);
    assert_eq!(OsmFilter::access_decision(&t, "bus"), AccessDecision::Allow);
    assert_eq!(OsmFilter::access_decision(&t, "psv"), AccessDecision::Deny);
    assert_eq!(OsmFilter::access_decision(&t, "vehicle"), AccessDecision::Unspecified);
    assert_eq!(OsmFilter::access_decision(&t, "access"), AccessDecision::Unspecified);
    assert_eq!(OsmFilter::bus_access(&t), AccessDecision::Allow);
}
