//! Which patterns are matched together.

use crate::geometry::{BBox, Point};
use crate::mots::{
    category_of, is_bus_like_route_type, map_route_type_to_category, MotCategory, RouteType,
};
use vstd::prelude::*;

verus! {

/// The networks that are built one after another.
#[derive(Debug, Clone, Copy, PartialEq, Eq, Hash, Structural)]
pub enum ProfileKey {
    Rail,
    TramSubway,
    Ferry,
    Gondola,
    Funicular,
    Other,
}

/// The network that serves a route type.
pub open spec fn network_of(route_type: Option<RouteType>) -> ProfileKey {
    match route_type {
        None => ProfileKey::Other,
        Some(rt) => match category_of(rt) {
            MotCategory::Rail => ProfileKey::Rail,
            MotCategory::Tram => ProfileKey::TramSubway,
            MotCategory::Subway => ProfileKey::TramSubway,
            MotCategory::Ferry => ProfileKey::Ferry,
            MotCategory::Gondola => ProfileKey::Gondola,
            MotCategory::CableCar => ProfileKey::Gondola,
            MotCategory::Funicular => ProfileKey::Funicular,
            _ => ProfileKey::Other,
        },
    }
}

/// The network that serves a route type.
pub fn profile_key(route_type: Option<RouteType>) -> (r: ProfileKey)
    ensures
        r == network_of(route_type),
{
    match route_type {
        None => ProfileKey::Other,
        Some(rt) => match map_route_type_to_category(rt) {
            MotCategory::Rail => ProfileKey::Rail,
            MotCategory::Tram => ProfileKey::TramSubway,
            MotCategory::Subway => ProfileKey::TramSubway,
            MotCategory::Ferry => ProfileKey::Ferry,
            MotCategory::Gondola => ProfileKey::Gondola,
            MotCategory::CableCar => ProfileKey::Gondola,
            MotCategory::Funicular => ProfileKey::Funicular,
            _ => ProfileKey::Other,
        },
    }
}

/// The networks, in the order in which they are built.
pub open spec fn networks() -> Seq<ProfileKey> {
    seq![
        ProfileKey::Rail,
        ProfileKey::TramSubway,
        ProfileKey::Ferry,
        ProfileKey::Gondola,
        ProfileKey::Funicular,
        ProfileKey::Other,
    ]
}

/// The positions, among the first `n` patterns, of those that a network serves.
pub open spec fn served_by(types: Seq<Option<RouteType>>, n: int, key: ProfileKey) -> Seq<usize>
    decreases n,
{
    if n <= 0 {
        Seq::empty()
    } else {
        let rest = served_by(types, n - 1, key);
        if network_of(types[n - 1]) == key {
            rest.push((n - 1) as usize)
        } else {
            rest
        }
    }
}

/// The networks, among the first `k`, that serve patterns, with those patterns.
pub open spec fn network_groups(types: Seq<Option<RouteType>>, k: int) -> Seq<
    (ProfileKey, Seq<usize>),
>
    decreases k,
{
    if k <= 0 {
        Seq::empty()
    } else {
        let rest = network_groups(types, k - 1);
        let served = served_by(types, types.len() as int, networks()[k - 1]);
        if served.len() > 0 {
            rest.push((networks()[k - 1], served))
        } else {
            rest
        }
    }
}

/// The patterns, by their positions, that a network serves.
pub fn patterns_of_network(types: &Vec<Option<RouteType>>, key: ProfileKey) -> (r: Vec<usize>)
    ensures
        r@ == served_by(types@, types@.len() as int, key),
{
    let mut r: Vec<usize> = Vec::new();
    let mut i: usize = 0;
    while i < types.len()
        invariant
            i <= types@.len(),
            r@ == served_by(types@, i as int, key),
        decreases types@.len() - i,
    {
        if profile_key(types[i]) == key {
            r.push(i);
        }
        i = i + 1;
    }
    r
}

/// The patterns, by their positions, grouped by the networks that serve them, in the order in which the
/// networks are built. Networks that serve none are left out.
pub fn group_by_network(types: &Vec<Option<RouteType>>) -> (r: Vec<(ProfileKey, Vec<usize>)>)
    ensures
        r@.len() == network_groups(types@, 6).len(),
        forall|i: int|
            #![trigger r@[i]]
            0 <= i < r@.len() ==> r@[i].0 == network_groups(types@, 6)[i].0 && r@[i].1@
                == network_groups(types@, 6)[i].1,
{
    let keys: [ProfileKey; 6] = [
        ProfileKey::Rail,
        ProfileKey::TramSubway,
        ProfileKey::Ferry,
        ProfileKey::Gondola,
        ProfileKey::Funicular,
        ProfileKey::Other,
    ];
    assert(keys@ =~= networks());
    let mut r: Vec<(ProfileKey, Vec<usize>)> = Vec::new();
    let mut k: usize = 0;
    while k < 6
        invariant
            k <= 6,
            keys@ == networks(),
            r@.len() == network_groups(types@, k as int).len(),
            forall|i: int|
                #![trigger r@[i]]
                0 <= i < r@.len() ==> r@[i].0 == network_groups(types@, k as int)[i].0 && r@[i].1@
                    == network_groups(types@, k as int)[i].1,
        decreases 6 - k,
    {
        let served = patterns_of_network(types, keys[k]);
        if served.len() > 0 {
            r.push((keys[k], served));
        }
        k = k + 1;
    }
    r
}

proof fn lemma_served(types: Seq<Option<RouteType>>, n: int, key: ProfileKey, i: int)
    requires
        0 <= i < n <= types.len(),
        n <= usize::MAX,
    ensures
        served_by(types, n, key).contains(i as usize) <==> network_of(types[i]) == key,
    decreases n,
{
    let rest = served_by(types, n - 1, key);
    let all = served_by(types, n, key);
    lemma_served_below(types, n - 1, key);
    if i < n - 1 {
        lemma_served(types, n - 1, key, i);
        if rest.contains(i as usize) {
            let k = choose|k: int| 0 <= k < rest.len() && rest[k] == i as usize;
            assert(all[k] == i as usize);
        }
        if all.contains(i as usize) {
            let k = choose|k: int| 0 <= k < all.len() && all[k] == i as usize;
            assert(rest[k] == i as usize);
        }
    } else {
        if network_of(types[i]) == key {
            assert(all[rest.len() as int] == i as usize);
        } else if all.contains(i as usize) {
            let k = choose|k: int| 0 <= k < all.len() && all[k] == i as usize;
            assert(rest[k] < n - 1);
        }
    }
}

proof fn lemma_served_below(types: Seq<Option<RouteType>>, n: int, key: ProfileKey)
    requires
        0 <= n <= types.len(),
        n <= usize::MAX,
    ensures
        forall|k: int|
            #![trigger served_by(types, n, key)[k]]
            0 <= k < served_by(types, n, key).len() ==> served_by(types, n, key)[k] < n,
    decreases n,
{
    if n > 0 {
        lemma_served_below(types, n - 1, key);
        let rest = served_by(types, n - 1, key);
        let all = served_by(types, n, key);
        assert forall|k: int| #![trigger all[k]] 0 <= k < all.len() implies all[k] < n by {
            if k < rest.len() {
                assert(all[k] == rest[k]);
            }
        }
    }
}

/// Every pattern is served by the network of its type, and by no other.
pub proof fn lemma_each_pattern_served_once(types: Seq<Option<RouteType>>, i: int, key: ProfileKey)
    requires
        0 <= i < types.len(),
        types.len() <= usize::MAX,
    ensures
        served_by(types, types.len() as int, key).contains(i as usize) <==> key == network_of(
            types[i],
        ),
{
    lemma_served(types, types.len() as int, key, i);
}

/// Whether routes of a type are matched tile by tile.
pub open spec fn tiled(route_type: Option<RouteType>) -> bool {
    route_type is Some && (route_type->0 == RouteType::Bus || route_type->0 == RouteType::Coach
        || route_type->0 == RouteType::Other(11) || route_type->0 == RouteType::Other(800))
}

/// The positions, among the first `n` patterns, of those that are matched tile by tile, or of the others.
pub open spec fn split_off(types: Seq<Option<RouteType>>, n: int, want: bool) -> Seq<usize>
    decreases n,
{
    if n <= 0 {
        Seq::empty()
    } else {
        let rest = split_off(types, n - 1, want);
        if tiled(types[n - 1]) == want {
            rest.push((n - 1) as usize)
        } else {
            rest
        }
    }
}

/// Parts the patterns, by their positions, into those that are matched tile by tile and the others.
pub fn partition_patterns(types: &Vec<Option<RouteType>>) -> (r: (Vec<usize>, Vec<usize>))
    ensures
        r.0@ == split_off(types@, types@.len() as int, true),
        r.1@ == split_off(types@, types@.len() as int, false),
{
    let mut bus: Vec<usize> = Vec::new();
    let mut others: Vec<usize> = Vec::new();
    let mut i: usize = 0;
    while i < types.len()
        invariant
            i <= types@.len(),
            bus@ == split_off(types@, i as int, true),
            others@ == split_off(types@, i as int, false),
        decreases types@.len() - i,
    {
        let t = match types[i] {
            Some(rt) => is_bus_like_route_type(rt),
            None => false,
        };
        if t {
            bus.push(i);
        } else {
            others.push(i);
        }
        i = i + 1;
    }
    (bus, others)
}

/// By how much the bounds of patterns are widened: half a degree.
pub const PADDING: i32 = 5_000_000;

pub open spec fn min_x(p: Seq<Point>) -> int
    decreases p.len(),
{
    if p.len() <= 1 {
        p[0].x as int
    } else if min_x(p.drop_last()) < p.last().x {
        min_x(p.drop_last())
    } else {
        p.last().x as int
    }
}

pub open spec fn max_x(p: Seq<Point>) -> int
    decreases p.len(),
{
    if p.len() <= 1 {
        p[0].x as int
    } else if max_x(p.drop_last()) > p.last().x {
        max_x(p.drop_last())
    } else {
        p.last().x as int
    }
}

pub open spec fn min_y(p: Seq<Point>) -> int
    decreases p.len(),
{
    if p.len() <= 1 {
        p[0].y as int
    } else if min_y(p.drop_last()) < p.last().y {
        min_y(p.drop_last())
    } else {
        p.last().y as int
    }
}

pub open spec fn max_y(p: Seq<Point>) -> int
    decreases p.len(),
{
    if p.len() <= 1 {
        p[0].y as int
    } else if max_y(p.drop_last()) > p.last().y {
        max_y(p.drop_last())
    } else {
        p.last().y as int
    }
}

/// A number within the range of coordinates.
pub open spec fn in_i32(v: int) -> int {
    if v < i32::MIN {
        i32::MIN as int
    } else if v > i32::MAX {
        i32::MAX as int
    } else {
        v
    }
}

/// The bounds of points, widened by a margin on all sides. Where they would leave the range of
/// coordinates, they end there.
pub open spec fn bounds_of(p: Seq<Point>, margin: int) -> BBox {
    BBox {
        min_x: in_i32(min_x(p) - margin) as i32,
        min_y: in_i32(min_y(p) - margin) as i32,
        max_x: in_i32(max_x(p) + margin) as i32,
        max_y: in_i32(max_y(p) + margin) as i32,
    }
}

pub(crate) fn clamp_i32(v: i64) -> (r: i32)
    ensures
        r == in_i32(v as int),
{
    if v < i32::MIN as i64 {
        i32::MIN
    } else if v > i32::MAX as i64 {
        i32::MAX
    } else {
        v as i32
    }
}

/// The bounds of points, widened by a margin on all sides, if there are any points.
pub fn padded_bounds(points: &Vec<Point>, margin: i32) -> (r: Option<BBox>)
    requires
        margin >= 0,
    ensures
        r == (if points@.len() == 0 {
            None
        } else {
            Some(bounds_of(points@, margin as int))
        }),
{
    if points.len() == 0 {
        return None;
    }
    let mut lo_x: i32 = points[0].x;
    let mut hi_x: i32 = points[0].x;
    let mut lo_y: i32 = points[0].y;
    let mut hi_y: i32 = points[0].y;
    let mut i: usize = 1;
    while i < points.len()
        invariant
            1 <= i <= points@.len(),
            lo_x == min_x(points@.take(i as int)),
            hi_x == max_x(points@.take(i as int)),
            lo_y == min_y(points@.take(i as int)),
            hi_y == max_y(points@.take(i as int)),
        decreases points@.len() - i,
    {
        assert(points@.take(i + 1).drop_last() =~= points@.take(i as int));
        let p = points[i];
        if !(lo_x < p.x) {
            lo_x = p.x;
        }
        if !(hi_x > p.x) {
            hi_x = p.x;
        }
        if !(lo_y < p.y) {
            lo_y = p.y;
        }
        if !(hi_y > p.y) {
            hi_y = p.y;
        }
        i = i + 1;
    }
    assert(points@.take(i as int) =~= points@);
    Some(
        BBox {
            min_x: clamp_i32(lo_x as i64 - margin as i64),
            min_y: clamp_i32(lo_y as i64 - margin as i64),
            max_x: clamp_i32(hi_x as i64 + margin as i64),
            max_y: clamp_i32(hi_y as i64 + margin as i64),
        },
    )
}

/// The bounds of the stops of patterns, widened by half a degree.
pub fn patterns_bbox(stops: &Vec<Point>) -> (r: Option<BBox>)
    ensures
        r == (if stops@.len() == 0 {
            None
        } else {
            Some(bounds_of(stops@, 5_000_000))
        }),
{
    padded_bounds(stops, PADDING)
}

/// Every point lies within the bounds.
pub proof fn lemma_bounds_hold(p: Seq<Point>, margin: int, i: int)
    requires
        0 <= i < p.len(),
        margin >= 0,
    ensures
        bounds_of(p, margin).holds(p[i]),
{
    lemma_extremes(p, i);
}

proof fn lemma_extremes(p: Seq<Point>, i: int)
    requires
        0 <= i < p.len(),
    ensures
        min_x(p) <= p[i].x <= max_x(p),
        min_y(p) <= p[i].y <= max_y(p),
    decreases p.len(),
{
    if p.len() > 1 {
        if i < p.len() - 1 {
            lemma_extremes(p.drop_last(), i);
            assert(p.drop_last()[i] == p[i]);
        } else {
            lemma_extremes(p.drop_last(), 0);
        }
    }
}

/// The bounds hold every point that is no further than the margin, along both axes, from one of the points.
pub proof fn lemma_bounds_hold_margin(p: Seq<Point>, margin: int, i: int, q: Point)
    requires
        0 <= i < p.len(),
        margin >= 0,
        -margin <= q.x - p[i].x <= margin,
        -margin <= q.y - p[i].y <= margin,
    ensures
        bounds_of(p, margin).min_x <= q.x <= bounds_of(p, margin).max_x,
        bounds_of(p, margin).min_y <= q.y <= bounds_of(p, margin).max_y,
        bounds_of(p, margin).holds(q),
{
    lemma_extremes(p, i);
}

/// Each side of the bounds lies at the margin from one of the points, or at the end of the range of
/// coordinates: no narrower bounds would do.
pub proof fn lemma_bounds_are_narrow(p: Seq<Point>, margin: int)
    requires
        p.len() > 0,
        margin >= 0,
    ensures
        ({
            let b = bounds_of(p, margin);
            &&& b.min_x == i32::MIN || exists|i: int|
                0 <= i < p.len() && b.min_x + margin == (#[trigger] p[i]).x
            &&& b.max_x == i32::MAX || exists|i: int|
                0 <= i < p.len() && b.max_x - margin == (#[trigger] p[i]).x
            &&& b.min_y == i32::MIN || exists|i: int|
                0 <= i < p.len() && b.min_y + margin == (#[trigger] p[i]).y
            &&& b.max_y == i32::MAX || exists|i: int|
                0 <= i < p.len() && b.max_y - margin == (#[trigger] p[i]).y
        }),
{
    lemma_extremes(p, 0);
    lemma_extremes_are_met(p);
}

proof fn lemma_extremes_are_met(p: Seq<Point>)
    requires
        p.len() > 0,
    ensures
        exists|i: int| 0 <= i < p.len() && min_x(p) == (#[trigger] p[i]).x,
        exists|i: int| 0 <= i < p.len() && max_x(p) == (#[trigger] p[i]).x,
        exists|i: int| 0 <= i < p.len() && min_y(p) == (#[trigger] p[i]).y,
        exists|i: int| 0 <= i < p.len() && max_y(p) == (#[trigger] p[i]).y,
    decreases p.len(),
{
    if p.len() == 1 {
        assert(min_x(p) == p[0].x && max_x(p) == p[0].x);
        assert(min_y(p) == p[0].y && max_y(p) == p[0].y);
    } else {
        let r = p.drop_last();
        lemma_extremes_are_met(r);
        let a = choose|i: int| 0 <= i < r.len() && min_x(r) == (#[trigger] r[i]).x;
        let b = choose|i: int| 0 <= i < r.len() && max_x(r) == (#[trigger] r[i]).x;
        let c = choose|i: int| 0 <= i < r.len() && min_y(r) == (#[trigger] r[i]).y;
        let d = choose|i: int| 0 <= i < r.len() && max_y(r) == (#[trigger] r[i]).y;
        assert(p[a] == r[a] && p[b] == r[b] && p[c] == r[c] && p[d] == r[d]);
        assert(p[p.len() - 1] == p.last());
    }
}

} // verus!
